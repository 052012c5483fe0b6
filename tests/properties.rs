use rust_trading_engine::{
    parse_decimal, process_orders, Order, OrderSide, OrderType, Orderbook, OrderbookEntry,
    ProcessingError, SCALE,
};

fn dec(s: &str) -> i128 {
    parse_decimal(s).unwrap()
}

fn order(order_type: OrderType, id: &str, side: OrderSide, amount: &str, price: &str) -> Order {
    Order {
        order_type,
        account_id: format!("acct-{}", id),
        amount: dec(amount),
        order_id: id.to_string(),
        pair: "BTC/USDC".to_string(),
        price: dec(price),
        side,
    }
}

fn create(id: &str, side: OrderSide, amount: &str, price: &str) -> Order {
    order(OrderType::Create, id, side, amount, price)
}

#[test]
fn earlier_order_at_a_level_fills_first() {
    // ids in reverse of arrival, to show that arrival decides
    let events = vec![
        create("9", OrderSide::Sell, "2", "100"),
        create("1", OrderSide::Sell, "2", "100"),
        create("5", OrderSide::Buy, "3", "100"),
    ];
    let result = process_orders(&events).unwrap();
    assert_eq!(result.trades.len(), 2);
    assert_eq!(result.trades[0].sell_order_id, "9");
    assert_eq!(result.trades[0].amount, dec("2"));
    assert_eq!(result.trades[1].sell_order_id, "1");
    assert_eq!(result.trades[1].amount, dec("1"));
    assert_eq!(result.orderbook.sell[0].entries[0].order_id, "1");
    assert_eq!(result.orderbook.sell[0].entries[0].amount, dec("1"));
}

#[test]
fn book_is_uncrossed_after_mixed_events() {
    let events = vec![
        create("1", OrderSide::Buy, "4", "99"),
        create("2", OrderSide::Sell, "1", "101"),
        create("3", OrderSide::Sell, "6", "98"),
        create("4", OrderSide::Buy, "1", "100"),
        order(OrderType::Delete, "2", OrderSide::Sell, "1", "101"),
        create("5", OrderSide::Buy, "3", "97.5"),
    ];
    let result = process_orders(&events).unwrap();
    let book = &result.orderbook;
    assert!(!book.buy.is_empty() && !book.sell.is_empty());
    assert!(book.buy[0].price < book.sell[0].price);
    for w in book.buy.windows(2) {
        assert!(w[0].price > w[1].price);
    }
    for w in book.sell.windows(2) {
        assert!(w[0].price < w[1].price);
    }
    // the sell of 6 at 98 took 4 at 99; 2 rest at 98, then the buy of 1 at 100 took 1
    assert_eq!(result.trades.len(), 2);
    assert_eq!(result.trades[0].price, dec("99"));
    assert_eq!(result.trades[1].price, dec("98"));
    assert_eq!(book.sell[0].price, dec("98"));
    assert_eq!(book.sell[0].entries[0].amount, dec("1"));
}

#[test]
fn fills_never_exceed_quantities() {
    let events = vec![
        create("1", OrderSide::Sell, "1.5", "10"),
        create("2", OrderSide::Sell, "0.25", "10.5"),
        create("3", OrderSide::Buy, "1.6", "11"),
    ];
    let result = process_orders(&events).unwrap();
    let total: i128 = result.trades.iter().map(|t| t.amount).sum();
    assert_eq!(total, dec("1.6"));
    assert_eq!(result.trades[0].amount, dec("1.5"));
    assert_eq!(result.trades[1].amount, dec("0.1"));
    assert_eq!(result.trades[1].price, dec("10.5"));
    assert_eq!(result.orderbook.sell[0].entries[0].amount, dec("0.15"));
    assert!(result.orderbook.buy.is_empty());
}

#[test]
fn cancel_of_missing_or_filled_order_changes_nothing() {
    let events = vec![
        create("1", OrderSide::Sell, "2", "50"),
        create("2", OrderSide::Buy, "2", "50"),
        order(OrderType::Delete, "1", OrderSide::Sell, "2", "50"),
        order(OrderType::Delete, "77", OrderSide::Buy, "1", "10"),
        create("3", OrderSide::Buy, "1", "40"),
        order(OrderType::Delete, "3", OrderSide::Buy, "1", "41"),
    ];
    let result = process_orders(&events).unwrap();
    assert_eq!(result.trades.len(), 1);
    assert!(result.orderbook.sell.is_empty());
    assert_eq!(result.orderbook.buy.len(), 1);
    assert_eq!(result.orderbook.buy[0].entries[0].order_id, "3");
}

#[test]
fn duplicate_cancel_is_silent() {
    let events = vec![
        create("1", OrderSide::Buy, "2", "50"),
        order(OrderType::Delete, "1", OrderSide::Buy, "2", "50"),
        order(OrderType::Delete, "1", OrderSide::Buy, "2", "50"),
    ];
    let result = process_orders(&events).unwrap();
    assert!(result.trades.is_empty());
    assert!(result.orderbook.buy.is_empty());
}

#[test]
fn partial_fill_rests_exact_remainder() {
    let events = vec![
        create("1", OrderSide::Buy, "1", "20"),
        create("2", OrderSide::Buy, "0.3", "19"),
        create("3", OrderSide::Sell, "2.5", "19"),
    ];
    let result = process_orders(&events).unwrap();
    assert_eq!(result.trades.len(), 2);
    assert_eq!(result.trades[0].buy_order_id, "1");
    assert_eq!(result.trades[0].price, dec("20"));
    assert_eq!(result.trades[1].buy_order_id, "2");
    assert_eq!(result.trades[1].price, dec("19"));
    assert!(result.orderbook.buy.is_empty());
    assert_eq!(result.orderbook.sell.len(), 1);
    let e = &result.orderbook.sell[0].entries[0];
    assert_eq!(e.order_id, "3");
    assert_eq!(e.account_id, "acct-3");
    assert_eq!(e.amount, dec("1.2"));
    assert_eq!(e.price, dec("19"));
    assert_eq!(e.side, OrderSide::Sell);
}

#[test]
fn price_levels_compare_by_value_not_text() {
    let events = vec![
        create("1", OrderSide::Sell, "1", "50000.00"),
        create("2", OrderSide::Sell, "1", "50000"),
        order(OrderType::Delete, "1", OrderSide::Sell, "1", "5E4"),
    ];
    let result = process_orders(&events).unwrap();
    assert_eq!(result.orderbook.sell.len(), 1);
    assert_eq!(result.orderbook.sell[0].entries.len(), 1);
    assert_eq!(result.orderbook.sell[0].entries[0].order_id, "2");
}

#[test]
fn non_positive_create_leaves_no_trace() {
    let events = vec![
        create("1", OrderSide::Sell, "1", "10"),
        create("2", OrderSide::Buy, "0", "10"),
        create("3", OrderSide::Buy, "-1", "10"),
    ];
    let result = process_orders(&events).unwrap();
    assert!(result.trades.is_empty());
    assert!(result.orderbook.buy.is_empty());
    assert_eq!(result.orderbook.sell[0].entries[0].amount, dec("1"));
}

#[test]
fn empty_input_gives_empty_result() {
    let result = process_orders(&[]).unwrap();
    assert!(result.trades.is_empty());
    assert!(result.orderbook.buy.is_empty() && result.orderbook.sell.is_empty());
}

#[test]
fn parse_decimal_scales_to_fixed_point() {
    assert_eq!(SCALE, 18);
    assert_eq!(parse_decimal("50000.00"), Ok(50_000 * 10i128.pow(18)));
    assert_eq!(parse_decimal("1.5"), Ok(15 * 10i128.pow(17)));
    assert_eq!(parse_decimal("-0.000000000000000001"), Ok(-1));
    assert_eq!(parse_decimal("0.0000000000000000010"), Ok(1));
    assert_eq!(parse_decimal("5E4"), parse_decimal("50000"));
}

#[test]
fn parse_decimal_rejects_malformed_and_inexact() {
    assert_eq!(parse_decimal("abc"), Err(ProcessingError::MalformedNumber));
    assert_eq!(parse_decimal(""), Err(ProcessingError::MalformedNumber));
    assert_eq!(parse_decimal("0.0000000000000000001"), Err(ProcessingError::MalformedNumber));
    assert_eq!(parse_decimal("1000000000000000000000"), Err(ProcessingError::MalformedNumber));
}

#[test]
fn book_insert_rejects_non_positive_quantity() {
    let mut book = Orderbook::new();
    let entry = OrderbookEntry {
        order_id: "1".to_string(),
        account_id: "a".to_string(),
        amount: 0,
        price: dec("10"),
        side: OrderSide::Buy,
    };
    assert_eq!(book.insert(entry), Err(ProcessingError::InvalidRestingState));
    assert!(book.buy.is_empty());
}

#[test]
fn book_operations_keep_priority_order() {
    let mut book = Orderbook::new();
    for (id, price) in [("1", "10"), ("2", "12"), ("3", "11"), ("4", "12")] {
        let entry = OrderbookEntry {
            order_id: id.to_string(),
            account_id: "a".to_string(),
            amount: dec("1"),
            price: dec(price),
            side: OrderSide::Buy,
        };
        assert_eq!(book.insert(entry), Ok(()));
    }
    assert_eq!(book.best_prices(OrderSide::Buy), vec![dec("12"), dec("11"), dec("10")]);
    assert_eq!(book.buy[0].entries.len(), 2);
    book.reduce_front_by(OrderSide::Buy, dec("0.4"));
    assert_eq!(book.buy[0].entries[0].amount, dec("0.6"));
    book.reduce_front_by(OrderSide::Buy, dec("0.6"));
    assert_eq!(book.buy[0].entries[0].order_id, "4");
    book.remove_order(OrderSide::Buy, dec("12"), &"4".to_string());
    assert_eq!(book.best_prices(OrderSide::Buy), vec![dec("11"), dec("10")]);
    book.remove_order(OrderSide::Buy, dec("11"), &"nope".to_string());
    assert_eq!(book.best_prices(OrderSide::Buy), vec![dec("11"), dec("10")]);
}

#[test]
fn trades_carry_current_timestamps() {
    let events = vec![
        create("1", OrderSide::Sell, "1", "10"),
        create("2", OrderSide::Buy, "1", "10"),
    ];
    let result = process_orders(&events).unwrap();
    assert_eq!(result.trades.len(), 1);
    // microseconds since the epoch: later than the start of 2020
    assert!(result.trades[0].timestamp > 1_577_836_800_000_000);
}
