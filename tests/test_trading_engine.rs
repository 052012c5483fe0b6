use rust_trading_engine::{parse_decimal, process_orders, Order, OrderSide, OrderType};

fn dec(s: &str) -> i128 {
    parse_decimal(s).unwrap()
}

fn order(order_type: OrderType, id: &str, side: OrderSide, amount: &str, price: &str) -> Order {
    Order {
        order_type,
        account_id: id.to_string(),
        amount: dec(amount),
        order_id: id.to_string(),
        pair: "BTC/USDC".to_string(),
        price: dec(price),
        side,
    }
}

#[test]
fn test_simple_buy_and_sell_match() {
    let test_orders = vec![
        Order {
            order_type: OrderType::Create,
            account_id: "1".to_string(),
            amount: dec("10.0"),
            order_id: "1".to_string(),
            pair: "BTC/USDC".to_string(),
            price: dec("50000.00"),
            side: OrderSide::Sell,
        },
        Order {
            order_type: OrderType::Create,
            account_id: "2".to_string(),
            amount: dec("5.0"),
            order_id: "2".to_string(),
            pair: "BTC/USDC".to_string(),
            price: dec("50000.00"),
            side: OrderSide::Buy,
        },
    ];

    let result = process_orders(&test_orders).unwrap();

    assert_eq!(result.trades.len(), 1);
    assert_eq!(result.trades[0].buy_order_id, "2");
    assert_eq!(result.trades[0].sell_order_id, "1");
    assert_eq!(result.trades[0].amount, dec("5.0"));
    assert_eq!(result.trades[0].price, dec("50000.00"));

    assert_eq!(result.orderbook.sell.len(), 1);
    let sell_price = dec("50000.00");
    assert!(result.orderbook.sell.iter().any(|l| l.price == sell_price));
    assert_eq!(result.orderbook.sell[0].entries.len(), 1);
    assert_eq!(result.orderbook.sell[0].entries[0].amount, dec("5.0"));
    assert_eq!(result.orderbook.sell[0].entries[0].order_id, "1");

    assert_eq!(result.orderbook.buy.len(), 0);
}

#[test]
fn test_delete_order() {
    let test_orders = vec![
        Order {
            order_type: OrderType::Create,
            account_id: "1".to_string(),
            amount: dec("10.0"),
            order_id: "1".to_string(),
            pair: "BTC/USDC".to_string(),
            price: dec("50000.00"),
            side: OrderSide::Sell,
        },
        Order {
            order_type: OrderType::Delete,
            account_id: "1".to_string(),
            amount: dec("10.0"),
            order_id: "1".to_string(),
            pair: "BTC/USDC".to_string(),
            price: dec("50000.00"),
            side: OrderSide::Sell,
        },
    ];

    let result = process_orders(&test_orders).unwrap();

    assert_eq!(result.trades.len(), 0);
    assert_eq!(result.orderbook.sell.len(), 0);
    assert_eq!(result.orderbook.buy.len(), 0);
}

#[test]
fn partial_fill_leaves_ask_remainder() {
    let events = vec![
        order(OrderType::Create, "1", OrderSide::Sell, "10", "50000"),
        order(OrderType::Create, "2", OrderSide::Buy, "5", "50000"),
    ];
    let result = process_orders(&events).unwrap();
    assert_eq!(result.trades.len(), 1);
    assert_eq!(result.trades[0].amount, dec("5"));
    assert_eq!(result.trades[0].price, dec("50000"));
    assert_eq!(result.orderbook.sell.len(), 1);
    assert_eq!(result.orderbook.sell[0].entries.len(), 1);
    assert_eq!(result.orderbook.sell[0].entries[0].order_id, "1");
    assert_eq!(result.orderbook.sell[0].entries[0].amount, dec("5"));
    assert!(result.orderbook.buy.is_empty());
}

#[test]
fn cancel_empties_book() {
    let events = vec![
        order(OrderType::Create, "1", OrderSide::Sell, "10", "50000"),
        order(OrderType::Delete, "1", OrderSide::Sell, "10", "50000"),
    ];
    let result = process_orders(&events).unwrap();
    assert!(result.trades.is_empty());
    assert!(result.orderbook.sell.is_empty());
    assert!(result.orderbook.buy.is_empty());
}

#[test]
fn buy_sweeps_two_ask_levels() {
    let events = vec![
        order(OrderType::Create, "1", OrderSide::Sell, "5", "100"),
        order(OrderType::Create, "2", OrderSide::Sell, "5", "101"),
        order(OrderType::Create, "3", OrderSide::Buy, "8", "101"),
    ];
    let result = process_orders(&events).unwrap();
    assert_eq!(result.trades.len(), 2);
    assert_eq!(result.trades[0].amount, dec("5"));
    assert_eq!(result.trades[0].price, dec("100"));
    assert_eq!(result.trades[0].sell_order_id, "1");
    assert_eq!(result.trades[1].amount, dec("3"));
    assert_eq!(result.trades[1].price, dec("101"));
    assert_eq!(result.trades[1].sell_order_id, "2");
    assert_eq!(result.orderbook.sell.len(), 1);
    assert_eq!(result.orderbook.sell[0].price, dec("101"));
    assert_eq!(result.orderbook.sell[0].entries.len(), 1);
    assert_eq!(result.orderbook.sell[0].entries[0].amount, dec("2"));
    assert!(result.orderbook.buy.is_empty());
}

#[test]
fn same_side_orders_queue_in_arrival_order() {
    let events = vec![
        order(OrderType::Create, "1", OrderSide::Buy, "3", "99"),
        order(OrderType::Create, "2", OrderSide::Buy, "2", "99"),
    ];
    let result = process_orders(&events).unwrap();
    assert!(result.trades.is_empty());
    assert_eq!(result.orderbook.buy.len(), 1);
    assert_eq!(result.orderbook.buy[0].price, dec("99"));
    let entries = &result.orderbook.buy[0].entries;
    assert_eq!(entries.len(), 2);
    assert_eq!(entries[0].order_id, "1");
    assert_eq!(entries[0].amount, dec("3"));
    assert_eq!(entries[1].order_id, "2");
    assert_eq!(entries[1].amount, dec("2"));
    assert!(result.orderbook.sell.is_empty());
}
