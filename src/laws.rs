//! Properties of the engine, stated over the abstract book and proved.
use vstd::prelude::*;
use crate::models::{book_wf, crosses, levels_wf, queue_wf, BookView, LevelView, Order, OrderSide, OrderType, RestingView, TradeView};
use crate::order_book::{fill_front, insert_spec, is_first_id, is_level_at, remove_spec};
use crate::trading_engine::{apply_event, empty_book, lemma_apply_event, lemma_match, match_spec, process_spec, total_amount, trade_of};

verus! {

/// Price-time priority: when an incoming buy crosses the best ask level,
/// it trades first with the order that arrived first there, and it trades
/// with the second only after the first is filled in full, whatever the
/// order ids are.
pub proof fn lemma_price_time_priority(levels: Seq<LevelView>, limit: int, id: Seq<char>, amount: int)
    requires
        levels_wf(levels, OrderSide::Sell),
        levels.len() > 0,
        levels[0].queue.len() >= 2,
        crosses(OrderSide::Buy, limit, levels[0].price),
        amount > 0,
    ensures
        ({
            let q = levels[0].queue;
            let t = match_spec(levels, OrderSide::Buy, limit, id, amount).1;
            &&& t.len() >= 1
            &&& t[0].sell_order_id == q[0].order_id
            &&& t[0].amount == (if amount < q[0].amount { amount } else { q[0].amount })
            &&& t.len() >= 2 ==> t[0].amount == q[0].amount && t[1].sell_order_id == q[1].order_id
            &&& amount > q[0].amount ==> t.len() >= 2
        }),
{
    let q = levels[0].queue;
    assert(queue_wf(q));
    let m = if amount < q[0].amount { amount } else { q[0].amount };
    let f = fill_front(levels, m);
    let rest = match_spec(f, OrderSide::Buy, limit, id, amount - m);
    assert(match_spec(levels, OrderSide::Buy, limit, id, amount).1 == seq![trade_of(OrderSide::Buy, id, q[0].order_id, m, levels[0].price)] + rest.1);
    if amount > q[0].amount {
        assert(f[0].queue == q.drop_first());
        assert(f[0].queue[0] == q[1]);
        assert(rest.1[0].sell_order_id == q[1].order_id);
    } else {
        assert(rest.1.len() == 0);
    }
}

/// No self-crossing: after any sequence of creates and cancels, each side
/// is well formed and the best bid is strictly below the best ask (or a
/// side is empty).
pub proof fn lemma_book_stays_uncrossed(events: Seq<Order>)
    ensures
        book_wf(process_spec(events).0),
    decreases events.len(),
{
    if events.len() == 0 {
        assert(book_wf(empty_book()));
    } else {
        lemma_book_stays_uncrossed(events.drop_last());
        lemma_apply_event(process_spec(events.drop_last()).0, events.last());
    }
}

/// Conservation, one fill at a time: each fill is the smaller of what the
/// incoming order has left and what the resting head order has left, at
/// the resting level's price, and matching then goes on from the book with
/// that fill taken out.
pub proof fn lemma_fill_is_min(levels: Seq<LevelView>, side: OrderSide, limit: int, id: Seq<char>, remaining: int)
    requires
        levels_wf(levels, side.spec_opposite()),
        levels.len() > 0,
        crosses(side, limit, levels[0].price),
        remaining > 0,
    ensures
        ({
            let head = levels[0].queue[0];
            let m = if remaining < head.amount { remaining } else { head.amount };
            let rest = match_spec(fill_front(levels, m), side, limit, id, remaining - m);
            &&& 0 < m <= remaining
            &&& m <= head.amount
            &&& match_spec(levels, side, limit, id, remaining)
                == (rest.0, seq![trade_of(side, id, head.order_id, m, levels[0].price)] + rest.1, rest.2)
        }),
{
    assert(queue_wf(levels[0].queue));
}

/// Conservation, over one incoming order: every fill is positive and the
/// fills add up to at most the order's quantity (exactly what it lost).
pub proof fn lemma_fills_conserved(book: BookView, o: Order)
    requires
        book_wf(book),
        o.order_type == OrderType::Create,
    ensures
        ({
            let t = apply_event(book, o).1;
            &&& forall|k: int| 0 <= k < t.len() ==> (#[trigger] t[k]).amount > 0
            &&& o.amount > 0 ==> 0 <= total_amount(t) <= o.amount
            &&& o.amount <= 0 ==> t.len() == 0
        }),
{
    let opp = o.side.spec_opposite();
    lemma_match(book.side(opp), o.side, o.price as int, o.order_id@, o.amount as int);
}

/// Idempotent cancel: cancelling an order that does not rest at the named
/// side and price (never placed, already filled, or already cancelled)
/// leaves the book as it is and makes no trade.
pub proof fn lemma_cancel_missing_is_noop(book: BookView, o: Order)
    requires
        o.order_type == OrderType::Delete,
        forall|i: int, k: int|
            is_level_at(book.side(o.side), o.price as int, i) && 0 <= k < book.side(o.side)[i].queue.len()
                ==> (#[trigger] book.side(o.side)[i].queue[k]).order_id != o.order_id@,
    ensures
        apply_event(book, o) == (book, Seq::<TradeView>::empty()),
{
    let levels = book.side(o.side);
    if exists|i: int| is_level_at(levels, o.price as int, i) {
        let i = choose|i: int| is_level_at(levels, o.price as int, i);
        let q = levels[i].queue;
        if exists|k: int| is_first_id(q, o.order_id@, k) {
            let k = choose|k: int| is_first_id(q, o.order_id@, k);
            assert(levels[i].queue[k].order_id != o.order_id@);
        }
    }
    assert(remove_spec(levels, o.price as int, o.order_id@) == levels);
}

/// Resting exact remainder: what is left of an incoming order after its
/// fills, its quantity less the sum of the fills, rests on its own side at
/// its limit price; nothing rests when it filled in full.
pub proof fn lemma_rest_is_remainder(book: BookView, o: Order)
    requires
        book_wf(book),
        o.order_type == OrderType::Create,
        o.amount > 0,
    ensures
        ({
            let (b2, t) = apply_event(book, o);
            let left = o.amount - total_amount(t);
            let r = RestingView { order_id: o.order_id@, account_id: o.account_id@, amount: left };
            &&& 0 <= left <= o.amount
            &&& left > 0 ==> b2.side(o.side) == insert_spec(book.side(o.side), o.side, o.price as int, r)
            &&& left == 0 ==> b2.side(o.side) == book.side(o.side)
        }),
{
    let opp = o.side.spec_opposite();
    lemma_match(book.side(opp), o.side, o.price as int, o.order_id@, o.amount as int);
}

} // verus!
