use vstd::prelude::*;
use crate::models::{
    better, crosses, is_marketable, levels_wf, queue_wf, trades_view, uncrossed, book_wf, BookView,
    LevelView, Order, OrderSide, OrderType, Orderbook, OrderbookEntry, ProcessingError,
    ProcessingResult, RestingView, Trade, TradeView,
};
use crate::order_book::{fill_front, insert_spec, lemma_insert_spec, lemma_remove_spec, remove_spec};

verus! {

/// The trade between an incoming order of `side` and a resting order.
pub open spec fn trade_of(side: OrderSide, incoming: Seq<char>, resting: Seq<char>, amount: int, price: int) -> TradeView {
    match side {
        OrderSide::Buy => TradeView { buy_order_id: incoming, sell_order_id: resting, amount, price },
        OrderSide::Sell => TradeView { buy_order_id: resting, sell_order_id: incoming, amount, price },
    }
}

/// Matching an incoming order of `side`, limit `limit`, id `id` and
/// `remaining` quantity against the opposite side `levels`: while something
/// remains and the best level crosses, fill the head of that level by
/// `min(remaining, head)` at the level's price. Gives the opposite side
/// afterwards, the trades in order, and what remains.
pub open spec fn match_spec(levels: Seq<LevelView>, side: OrderSide, limit: int, id: Seq<char>, remaining: int) -> (Seq<LevelView>, Seq<TradeView>, int)
    decreases remaining,
{
    if remaining > 0 && levels.len() > 0 && crosses(side, limit, levels[0].price)
        && levels[0].queue.len() > 0 && levels[0].queue[0].amount > 0 {
        let price = levels[0].price;
        let head = levels[0].queue[0];
        let m = if remaining < head.amount { remaining } else { head.amount };
        let rest = match_spec(fill_front(levels, m), side, limit, id, remaining - m);
        (rest.0, seq![trade_of(side, id, head.order_id, m, price)] + rest.1, rest.2)
    } else {
        (levels, Seq::empty(), remaining)
    }
}

/// The sum of the amounts of `t`.
pub open spec fn total_amount(t: Seq<TradeView>) -> int
    decreases t.len(),
{
    if t.len() == 0 {
        0
    } else {
        t[0].amount + total_amount(t.drop_first())
    }
}

/// A create event: match against the opposite side, then rest what remains
/// on the order's own side at its limit price.
pub open spec fn apply_create(book: BookView, o: Order) -> (BookView, Seq<TradeView>) {
    let opp = o.side.spec_opposite();
    let m = match_spec(book.side(opp), o.side, o.price as int, o.order_id@, o.amount as int);
    let b1 = book.with_side(opp, m.0);
    if m.2 > 0 {
        let r = RestingView { order_id: o.order_id@, account_id: o.account_id@, amount: m.2 };
        (b1.with_side(o.side, insert_spec(b1.side(o.side), o.side, o.price as int, r)), m.1)
    } else {
        (b1, m.1)
    }
}

/// A cancel event: remove the order from the level named by its side and price.
pub open spec fn apply_delete(book: BookView, o: Order) -> BookView {
    book.with_side(o.side, remove_spec(book.side(o.side), o.price as int, o.order_id@))
}

/// One event applied to the book: the new book and the trades it made.
pub open spec fn apply_event(book: BookView, o: Order) -> (BookView, Seq<TradeView>) {
    match o.order_type {
        OrderType::Create => apply_create(book, o),
        OrderType::Delete => (apply_delete(book, o), Seq::empty()),
    }
}

pub open spec fn empty_book() -> BookView {
    BookView { buy: Seq::empty(), sell: Seq::empty() }
}

/// The events applied in order to an empty book: the final book and all trades.
pub open spec fn process_spec(events: Seq<Order>) -> (BookView, Seq<TradeView>)
    decreases events.len(),
{
    if events.len() == 0 {
        (empty_book(), Seq::empty())
    } else {
        let p = process_spec(events.drop_last());
        let a = apply_event(p.0, events.last());
        (a.0, p.1 + a.1)
    }
}

/// Taking from the best level keeps the side well formed, and the new best
/// level is the old one or one after it.
pub proof fn lemma_fill_front(levels: Seq<LevelView>, side: OrderSide, m: int)
    requires
        levels_wf(levels, side),
        levels.len() > 0,
        0 < m <= levels[0].queue[0].amount,
    ensures
        levels_wf(fill_front(levels, m), side),
        fill_front(levels, m).len() > 0 ==> fill_front(levels, m)[0].price == levels[0].price
            || better(side, levels[0].price, fill_front(levels, m)[0].price),
{
    let f = fill_front(levels, m);
    assert(queue_wf(levels[0].queue));
    if f.len() > 0 && f[0].price != levels[0].price {
        assert(f[0] == levels[1]);
    }
    assert forall|i: int| 0 <= i < f.len() implies queue_wf(#[trigger] f[i].queue) by {
        if f.len() == levels.len() && i == 0 {
        } else if f.len() == levels.len() {
            assert(f[i] == levels[i]);
        } else {
            assert(f[i] == levels[i + 1]);
        }
    }
}

/// What matching keeps: the opposite side stays well formed, its best level
/// can only get worse, a remainder is left only when nothing crosses, and the
/// trades add up to what was filled, each of positive amount.
pub proof fn lemma_match(levels: Seq<LevelView>, side: OrderSide, limit: int, id: Seq<char>, remaining: int)
    requires
        levels_wf(levels, side.spec_opposite()),
    ensures
        ({
            let (l2, t, r) = match_spec(levels, side, limit, id, remaining);
            &&& levels_wf(l2, side.spec_opposite())
            &&& l2.len() > 0 ==> levels.len() > 0 && (l2[0].price == levels[0].price
                || better(side.spec_opposite(), levels[0].price, l2[0].price))
            &&& r > 0 ==> l2.len() == 0 || !crosses(side, limit, l2[0].price)
            &&& r <= remaining
            &&& remaining > 0 ==> r >= 0 && total_amount(t) == remaining - r
            &&& remaining <= 0 ==> t.len() == 0 && r == remaining
            &&& forall|k: int| 0 <= k < t.len() ==> (#[trigger] t[k]).amount > 0
        }),
    decreases remaining,
{
    let opp = side.spec_opposite();
    if remaining > 0 && levels.len() > 0 && crosses(side, limit, levels[0].price) {
        assert(queue_wf(levels[0].queue));
        let price = levels[0].price;
        let head = levels[0].queue[0];
        let m = if remaining < head.amount { remaining } else { head.amount };
        let f = fill_front(levels, m);
        lemma_fill_front(levels, opp, m);
        lemma_match(f, side, limit, id, remaining - m);
        let rest = match_spec(f, side, limit, id, remaining - m);
        let t = seq![trade_of(side, id, head.order_id, m, price)] + rest.1;
        assert(t.drop_first() =~= rest.1);
        assert(total_amount(t) == m + total_amount(rest.1));
        assert forall|k: int| 0 <= k < t.len() implies (#[trigger] t[k]).amount > 0 by {
            if k > 0 {
                assert(t[k] == rest.1[k - 1]);
            }
        }
        if rest.0.len() > 0 && f.len() > 0 && rest.0[0].price != f[0].price {
            assert(better(opp, f[0].price, rest.0[0].price));
        }
    }
}

/// Every event takes a settled book to a settled book.
pub proof fn lemma_apply_event(book: BookView, o: Order)
    requires
        book_wf(book),
    ensures
        book_wf(apply_event(book, o).0),
{
    let side = o.side;
    let opp = side.spec_opposite();
    match o.order_type {
        OrderType::Create => {
            let m = match_spec(book.side(opp), side, o.price as int, o.order_id@, o.amount as int);
            lemma_match(book.side(opp), side, o.price as int, o.order_id@, o.amount as int);
            let b1 = book.with_side(opp, m.0);
            assert(b1.side(side) == book.side(side));
            if m.2 > 0 {
                let r = RestingView { order_id: o.order_id@, account_id: o.account_id@, amount: m.2 };
                lemma_insert_spec(b1.side(side), side, o.price as int, r);
            }
        },
        OrderType::Delete => {
            lemma_remove_spec(book.side(side), side, o.price as int, o.order_id@);
        },
    }
}

/// Relies on chrono::Utc::now: the current UTC time, read as microseconds
/// since the Unix epoch. Nothing is known of the value.
#[verifier::external_body]
fn now_micros() -> (r: i64) {
    chrono::Utc::now().timestamp_micros()
}

impl Orderbook {
    /// The best level on `side` exists and crosses an incoming order of
    /// `incoming` side with limit `limit`.
    pub fn front_crosses(&self, side: OrderSide, incoming: OrderSide, limit: i128) -> (r: bool)
        ensures
            r == (self@.side(side).len() > 0 && crosses(incoming, limit as int, self@.side(side)[0].price)),
    {
        let levels = self.levels(side);
        levels.len() > 0 && is_marketable(incoming, limit, levels[0].price)
    }
}

/// Matches `order` against the opposite side of `book`, appending each trade
/// to `trades`. Returns the quantity left unfilled; the order's own side is
/// not touched.
fn match_order(order: &Order, book: &mut Orderbook, trades: &mut Vec<Trade>) -> (remaining: i128)
    requires
        old(book).wf(),
    ensures
        final(book).wf(),
        ({
            let opp = order.side.spec_opposite();
            let m = match_spec(old(book)@.side(opp), order.side, order.price as int, order.order_id@, order.amount as int);
            &&& final(book)@ == old(book)@.with_side(opp, m.0)
            &&& trades_view(final(trades)@) == trades_view(old(trades)@) + m.1
            &&& remaining == m.2
        }),
{
    let ghost book0 = book@;
    let ghost trades0 = trades_view(trades@);
    let opp = order.side.opposite();
    let ghost total = match_spec(book0.side(opp), order.side, order.price as int, order.order_id@, order.amount as int);
    let ghost mut done: Seq<TradeView> = Seq::empty();
    let mut remaining = order.amount;
    proof {
        assert(book0.with_side(opp, book0.side(opp)) == book0);
        assert(trades0 + done =~= trades0);
        assert(done + total.1 =~= total.1);
    }
    while remaining > 0 && book.front_crosses(opp, order.side, order.price)
        invariant
            book.wf(),
            book@ == book0.with_side(opp, book@.side(opp)),
            trades_view(trades@) == trades0 + done,
            ({
                let cur = match_spec(book@.side(opp), order.side, order.price as int, order.order_id@, remaining as int);
                total == (cur.0, done + cur.1, cur.2)
            }),
        decreases remaining,
    {
        let ghost lv = book@.side(opp);
        let ghost cur = match_spec(lv, order.side, order.price as int, order.order_id@, remaining as int);
        let levels = book.levels(opp);
        let price = levels[0].price;
        let head = &levels[0].entries[0];
        proof {
            assert(levels_wf(lv, opp));
            assert(queue_wf(lv[0].queue));
            assert(lv[0].queue[0] == head@);
        }
        let m = if remaining < head.amount { remaining } else { head.amount };
        let resting_id = head.order_id.clone();
        let incoming_id = order.order_id.clone();
        let trade = match order.side {
            OrderSide::Buy => Trade { buy_order_id: incoming_id, sell_order_id: resting_id, amount: m, price, timestamp: now_micros() },
            OrderSide::Sell => Trade { buy_order_id: resting_id, sell_order_id: incoming_id, amount: m, price, timestamp: now_micros() },
        };
        let ghost tv = trade_of(order.side, order.order_id@, lv[0].queue[0].order_id, m as int, price as int);
        assert(trade@ == tv);
        let ghost before = trades@;
        trades.push(trade);
        proof {
            assert(trades_view(trades@) =~= trades_view(before).push(tv));
        }
        book.reduce_front_by(opp, m);
        remaining = remaining - m;
        proof {
            let next = match_spec(book@.side(opp), order.side, order.price as int, order.order_id@, remaining as int);
            assert(cur == (next.0, seq![tv] + next.1, next.2));
            assert(trades_view(trades@) =~= trades0 + done.push(tv));
            assert(done + (seq![tv] + next.1) =~= done.push(tv) + next.1);
            done = done.push(tv);
        }
    }
    proof {
        assert(done + Seq::<TradeView>::empty() =~= done);
    }
    remaining
}

/// Applies a create event: matches it, then rests what remains on its own
/// side at its limit price. Never fails on a settled book.
fn handle_create_order(order: &Order, book: &mut Orderbook, trades: &mut Vec<Trade>) -> (r: Result<(), ProcessingError>)
    requires
        old(book).wf(),
        uncrossed(old(book)@),
        order.order_type == OrderType::Create,
    ensures
        r is Ok,
        final(book).wf(),
        uncrossed(final(book)@),
        final(book)@ == apply_create(old(book)@, *order).0,
        trades_view(final(trades)@) == trades_view(old(trades)@) + apply_create(old(book)@, *order).1,
{
    let ghost book0 = book@;
    proof {
        lemma_apply_event(book0, *order);
    }
    let remaining = match_order(order, book, trades);
    if remaining > 0 {
        let entry = OrderbookEntry {
            order_id: order.order_id.clone(),
            account_id: order.account_id.clone(),
            amount: remaining,
            price: order.price,
            side: order.side,
        };
        let ghost b1 = book@;
        assert(b1.side(order.side) == book0.side(order.side));
        match book.insert(entry) {
            Ok(()) => {},
            Err(e) => {
                return Err(e);
            },
        }
    }
    Ok(())
}

/// Applies a cancel event. A missing order is a silent no-op.
fn handle_delete_order(order: &Order, book: &mut Orderbook) -> (r: Result<(), ProcessingError>)
    requires
        old(book).wf(),
        uncrossed(old(book)@),
        order.order_type == OrderType::Delete,
    ensures
        r is Ok,
        final(book).wf(),
        uncrossed(final(book)@),
        final(book)@ == apply_delete(old(book)@, *order),
{
    proof {
        lemma_apply_event(book@, *order);
    }
    book.remove_order(order.side, order.price, &order.order_id);
    Ok(())
}

/// Processes the events in order against an empty book. Returns the final
/// book and every trade in the order generated. Never fails: a cancel of a
/// missing order is a no-op and only positive remainders come to rest.
pub fn process_orders(orders: &[Order]) -> (r: Result<ProcessingResult, ProcessingError>)
    ensures
        r is Ok,
        r is Ok ==> ({
            let res = r.unwrap();
            &&& res.orderbook.wf()
            &&& book_wf(res.orderbook@)
            &&& res.orderbook@ == process_spec(orders@).0
            &&& trades_view(res.trades@) == process_spec(orders@).1
        }),
{
    let mut orderbook = Orderbook::new();
    let mut trades: Vec<Trade> = Vec::new();
    proof {
        assert(orderbook@.buy =~= Seq::<LevelView>::empty());
        assert(orderbook@.sell =~= Seq::<LevelView>::empty());
        assert(orderbook@ == empty_book());
        assert(trades_view(trades@) =~= Seq::<TradeView>::empty());
        assert(orders@.subrange(0, 0) =~= Seq::<Order>::empty());
    }
    let mut i: usize = 0;
    while i < orders.len()
        invariant
            i <= orders@.len(),
            orderbook.wf(),
            uncrossed(orderbook@),
            orderbook@ == process_spec(orders@.subrange(0, i as int)).0,
            trades_view(trades@) == process_spec(orders@.subrange(0, i as int)).1,
        decreases orders@.len() - i,
    {
        let order = &orders[i];
        let ghost prev = process_spec(orders@.subrange(0, i as int));
        let ghost t0 = trades_view(trades@);
        match order.order_type {
            OrderType::Create => {
                match handle_create_order(order, &mut orderbook, &mut trades) {
                    Ok(()) => {},
                    Err(e) => {
                        return Err(e);
                    },
                }
            },
            OrderType::Delete => {
                match handle_delete_order(order, &mut orderbook) {
                    Ok(()) => {},
                    Err(e) => {
                        return Err(e);
                    },
                }
                assert(trades_view(trades@) =~= t0 + Seq::<TradeView>::empty());
            },
        }
        proof {
            assert(orders@.subrange(0, i + 1).drop_last() =~= orders@.subrange(0, i as int));
            assert(orders@.subrange(0, i + 1).last() == *order);
        }
        i += 1;
    }
    proof {
        assert(orders@.subrange(0, orders@.len() as int) =~= orders@);
    }
    Ok(ProcessingResult { orderbook, trades })
}

} // verus!
