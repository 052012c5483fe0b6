use vstd::prelude::*;
use crate::models::{
    better, levels_view, queue_wf, side_wf, LevelView, OrderSide, Orderbook, OrderbookEntry,
    PriceLevel, ProcessingError, RestingView, is_better, levels_wf,
};

verus! {

/// `i` is where a level at `price` belongs on `side`: every level before it
/// is matched first, and the level at `i` (if any) is not.
pub open spec fn is_insert_pos(levels: Seq<LevelView>, side: OrderSide, price: int, i: int) -> bool {
    &&& 0 <= i <= levels.len()
    &&& forall|j: int| 0 <= j < i ==> better(side, #[trigger] levels[j].price, price)
    &&& i < levels.len() ==> !better(side, levels[i].price, price)
}

pub open spec fn insert_pos(levels: Seq<LevelView>, side: OrderSide, price: int) -> int {
    choose|i: int| is_insert_pos(levels, side, price, i)
}

/// The side after appending `r` to the tail of the queue at `price`,
/// creating that level in its place if it is absent.
pub open spec fn insert_spec(levels: Seq<LevelView>, side: OrderSide, price: int, r: RestingView) -> Seq<LevelView> {
    let i = insert_pos(levels, side, price);
    if i < levels.len() && levels[i].price == price {
        levels.update(i, LevelView { price, queue: levels[i].queue.push(r) })
    } else {
        levels.insert(i, LevelView { price, queue: seq![r] })
    }
}

pub open spec fn is_level_at(levels: Seq<LevelView>, price: int, i: int) -> bool {
    0 <= i < levels.len() && levels[i].price == price
}

/// `k` is the first position of the queue holding order `id`.
pub open spec fn is_first_id(q: Seq<RestingView>, id: Seq<char>, k: int) -> bool {
    &&& 0 <= k < q.len()
    &&& q[k].order_id == id
    &&& forall|j: int| 0 <= j < k ==> (#[trigger] q[j]).order_id != id
}

/// The side after removing the first order `id` from the level at `price`
/// (and the level, if that empties it); unchanged if there is no such order.
pub open spec fn remove_spec(levels: Seq<LevelView>, price: int, id: Seq<char>) -> Seq<LevelView> {
    if exists|i: int| is_level_at(levels, price, i) {
        let i = choose|i: int| is_level_at(levels, price, i);
        let q = levels[i].queue;
        if exists|k: int| is_first_id(q, id, k) {
            let k = choose|k: int| is_first_id(q, id, k);
            let q2 = q.remove(k);
            if q2.len() == 0 {
                levels.remove(i)
            } else {
                levels.update(i, LevelView { price: levels[i].price, queue: q2 })
            }
        } else {
            levels
        }
    } else {
        levels
    }
}

/// The side after taking `amount` from the head order of the best level:
/// the head leaves when nothing remains of it, and the level when its
/// queue empties.
pub open spec fn fill_front(levels: Seq<LevelView>, amount: int) -> Seq<LevelView> {
    let lv = levels[0];
    let head = lv.queue[0];
    let q = if head.amount <= amount {
        lv.queue.drop_first()
    } else {
        lv.queue.update(0, RestingView { order_id: head.order_id, account_id: head.account_id, amount: head.amount - amount })
    };
    if q.len() == 0 {
        levels.drop_first()
    } else {
        levels.update(0, LevelView { price: lv.price, queue: q })
    }
}

proof fn lemma_insert_pos_unique(levels: Seq<LevelView>, side: OrderSide, price: int, i: int)
    requires
        is_insert_pos(levels, side, price, i),
    ensures
        insert_pos(levels, side, price) == i,
{
    let c = insert_pos(levels, side, price);
    assert(is_insert_pos(levels, side, price, c));
    if c < i {
        assert(better(side, levels[c].price, price));
    } else if c > i {
        assert(better(side, levels[i].price, price));
    }
}

proof fn lemma_level_unique(levels: Seq<LevelView>, side: OrderSide, price: int, i: int)
    requires
        levels_wf(levels, side),
        is_level_at(levels, price, i),
    ensures
        (choose|j: int| is_level_at(levels, price, j)) == i,
{
    let c = choose|j: int| is_level_at(levels, price, j);
    assert(is_level_at(levels, price, c));
    if c < i {
        assert(better(side, levels[c].price, levels[i].price));
    } else if c > i {
        assert(better(side, levels[i].price, levels[c].price));
    }
}

proof fn lemma_first_id_unique(q: Seq<RestingView>, id: Seq<char>, k: int)
    requires
        is_first_id(q, id, k),
    ensures
        (choose|j: int| is_first_id(q, id, j)) == k,
{
    let c = choose|j: int| is_first_id(q, id, j);
    assert(is_first_id(q, id, c));
    if c < k {
        assert(q[c].order_id != id);
    } else if c > k {
        assert(q[k].order_id != id);
    }
}

proof fn lemma_insert_pos_from(levels: Seq<LevelView>, side: OrderSide, price: int, n: int)
    requires
        0 <= n <= levels.len(),
        forall|j: int| 0 <= j < n ==> better(side, #[trigger] levels[j].price, price),
    ensures
        exists|i: int| is_insert_pos(levels, side, price, i),
    decreases levels.len() - n,
{
    if n == levels.len() || !better(side, levels[n].price, price) {
        assert(is_insert_pos(levels, side, price, n));
    } else {
        lemma_insert_pos_from(levels, side, price, n + 1);
    }
}

/// Inserting keeps a side well formed; the new best level is the old one
/// or the level at the inserted price.
pub proof fn lemma_insert_spec(levels: Seq<LevelView>, side: OrderSide, price: int, r: RestingView)
    requires
        levels_wf(levels, side),
        r.amount > 0,
    ensures
        levels_wf(insert_spec(levels, side, price, r), side),
        insert_spec(levels, side, price, r).len() > 0,
        insert_spec(levels, side, price, r)[0].price == price
            || (levels.len() > 0 && insert_spec(levels, side, price, r)[0].price == levels[0].price),
{
    lemma_insert_pos_from(levels, side, price, 0);
    let i = insert_pos(levels, side, price);
    assert(is_insert_pos(levels, side, price, i));
    let res = insert_spec(levels, side, price, r);
    if i < levels.len() && levels[i].price == price {
        assert(queue_wf(levels[i].queue));
        assert forall|a: int| 0 <= a < res.len() implies queue_wf(#[trigger] res[a].queue) by {
            if a != i {
                assert(res[a] == levels[a]);
            } else {
                assert(res[a].queue == levels[i].queue.push(r));
                assert(forall|k: int| 0 <= k < res[a].queue.len() - 1 ==> res[a].queue[k] == levels[i].queue[k]);
            }
        }
        assert forall|a: int, b: int| 0 <= a < b < res.len() implies better(side, #[trigger] res[a].price, #[trigger] res[b].price) by {
            assert(res[a].price == levels[a].price);
            assert(res[b].price == levels[b].price);
        }
    } else {
        let nl = LevelView { price, queue: seq![r] };
        assert(res == levels.insert(i, nl));
        if i < levels.len() {
            assert(better(side, price, levels[i].price));
        }
        assert forall|a: int| 0 <= a < res.len() implies queue_wf(#[trigger] res[a].queue) by {
            if a < i {
                assert(res[a] == levels[a]);
            } else if a > i {
                assert(res[a] == levels[a - 1]);
            }
        }
        assert forall|a: int, b: int| 0 <= a < b < res.len() implies better(side, #[trigger] res[a].price, #[trigger] res[b].price) by {
            if b < i {
                assert(res[a] == levels[a]);
                assert(res[b] == levels[b]);
            } else if b == i {
                assert(res[a] == levels[a]);
            } else if a == i {
                assert(res[b] == levels[b - 1]);
                if b - 1 > i {
                    assert(better(side, levels[i].price, levels[b - 1].price));
                }
            } else if a < i {
                assert(res[a] == levels[a]);
                assert(res[b] == levels[b - 1]);
            } else {
                assert(res[a] == levels[a - 1]);
                assert(res[b] == levels[b - 1]);
            }
        }
    }
}

/// Removing keeps a side well formed; the new best level is the old one or
/// one after it.
pub proof fn lemma_remove_spec(levels: Seq<LevelView>, side: OrderSide, price: int, id: Seq<char>)
    requires
        levels_wf(levels, side),
    ensures
        levels_wf(remove_spec(levels, price, id), side),
        remove_spec(levels, price, id).len() > 0 ==> levels.len() > 0 && (
            remove_spec(levels, price, id)[0].price == levels[0].price
            || better(side, levels[0].price, remove_spec(levels, price, id)[0].price)),
{
    let res = remove_spec(levels, price, id);
    if exists|i: int| is_level_at(levels, price, i) {
        let i = choose|i: int| is_level_at(levels, price, i);
        let q = levels[i].queue;
        assert(queue_wf(q));
        if exists|k: int| is_first_id(q, id, k) {
            let k = choose|k: int| is_first_id(q, id, k);
            let q2 = q.remove(k);
            if q2.len() == 0 {
                assert(res == levels.remove(i));
                assert forall|a: int| 0 <= a < res.len() implies queue_wf(#[trigger] res[a].queue) by {
                    if a < i {
                        assert(res[a] == levels[a]);
                    } else {
                        assert(res[a] == levels[a + 1]);
                    }
                }
                assert forall|a: int, b: int| 0 <= a < b < res.len() implies better(side, #[trigger] res[a].price, #[trigger] res[b].price) by {
                    let oa = if a < i { a } else { a + 1 };
                    let ob = if b < i { b } else { b + 1 };
                    assert(res[a] == levels[oa]);
                    assert(res[b] == levels[ob]);
                }
                if res.len() > 0 && i == 0 {
                    assert(res[0] == levels[1]);
                }
            } else {
                assert forall|a: int| 0 <= a < res.len() implies queue_wf(#[trigger] res[a].queue) by {
                    if a != i {
                        assert(res[a] == levels[a]);
                    } else {
                        assert(forall|j: int| 0 <= j < q2.len() ==> q2[j] == (if j < k { q[j] } else { q[j + 1] }));
                    }
                }
                assert forall|a: int, b: int| 0 <= a < b < res.len() implies better(side, #[trigger] res[a].price, #[trigger] res[b].price) by {
                    assert(res[a].price == levels[a].price);
                    assert(res[b].price == levels[b].price);
                }
            }
        }
    }
}

impl Orderbook {
    /// The book with no resting orders.
    pub fn new() -> (r: Orderbook)
        ensures
            r.wf(),
            r@.buy.len() == 0,
            r@.sell.len() == 0,
    {
        let r = Orderbook { buy: Vec::new(), sell: Vec::new() };
        assert(r@.buy =~= Seq::<LevelView>::empty());
        assert(r@.sell =~= Seq::<LevelView>::empty());
        r
    }

    /// Both sides well formed.
    pub open spec fn wf(&self) -> bool {
        &&& side_wf(self.buy@, OrderSide::Buy)
        &&& side_wf(self.sell@, OrderSide::Sell)
    }

    pub open spec fn spec_levels(&self, side: OrderSide) -> Seq<PriceLevel> {
        match side {
            OrderSide::Buy => self.buy@,
            OrderSide::Sell => self.sell@,
        }
    }

    /// The price levels of one side, in matching priority.
    pub fn levels(&self, side: OrderSide) -> (r: &Vec<PriceLevel>)
        ensures
            r@ == self.spec_levels(side),
    {
        match side {
            OrderSide::Buy => &self.buy,
            OrderSide::Sell => &self.sell,
        }
    }

    /// The prices of one side in matching priority: ascending for asks,
    /// descending for bids.
    pub fn best_prices(&self, side: OrderSide) -> (r: Vec<i128>)
        ensures
            r@.len() == self@.side(side).len(),
            forall|i: int| 0 <= i < r@.len() ==> r@[i] as int == self@.side(side)[i].price,
    {
        let levels = self.levels(side);
        let mut r: Vec<i128> = Vec::new();
        let mut i: usize = 0;
        while i < levels.len()
            invariant
                i <= levels@.len(),
                levels@ == self.spec_levels(side),
                r@.len() == i,
                forall|j: int| 0 <= j < i ==> r@[j] == levels@[j].price,
            decreases levels@.len() - i,
        {
            r.push(levels[i].price);
            i += 1;
        }
        r
    }

    /// Appends `entry` to the tail of the queue at its price on its side,
    /// creating the level if absent. Fails, leaving the book unchanged,
    /// exactly when the entry's quantity is not positive.
    pub fn insert(&mut self, entry: OrderbookEntry) -> (r: Result<(), ProcessingError>)
        requires
            old(self).wf(),
        ensures
            final(self).wf(),
            r is Err <==> entry.amount <= 0,
            r is Err ==> r == Err::<(), ProcessingError>(ProcessingError::InvalidRestingState) && final(self)@ == old(self)@,
            r is Ok ==> final(self)@ == old(self)@.with_side(
                entry.side,
                insert_spec(old(self)@.side(entry.side), entry.side, entry.price as int, entry@),
            ),
    {
        if entry.amount <= 0 {
            return Err(ProcessingError::InvalidRestingState);
        }
        match entry.side {
            OrderSide::Buy => insert_into(&mut self.buy, OrderSide::Buy, entry),
            OrderSide::Sell => insert_into(&mut self.sell, OrderSide::Sell, entry),
        }
        Ok(())
    }

    /// Removes the first order `order_id` from the level at `price` on
    /// `side`, and the level if that empties it. A missing level or order is
    /// no error: the book stays as it was.
    pub fn remove_order(&mut self, side: OrderSide, price: i128, order_id: &String)
        requires
            old(self).wf(),
        ensures
            final(self).wf(),
            final(self)@ == old(self)@.with_side(side, remove_spec(old(self)@.side(side), price as int, order_id@)),
    {
        match side {
            OrderSide::Buy => remove_from(&mut self.buy, OrderSide::Buy, price, order_id),
            OrderSide::Sell => remove_from(&mut self.sell, OrderSide::Sell, price, order_id),
        }
    }

    /// Takes `amount` from the head order of the best level on `side`; the
    /// head is popped when nothing remains of it, and the level when it
    /// empties.
    pub fn reduce_front_by(&mut self, side: OrderSide, amount: i128)
        requires
            old(self).wf(),
            old(self)@.side(side).len() > 0,
            0 < amount <= old(self)@.side(side)[0].queue[0].amount,
        ensures
            final(self).wf(),
            final(self)@ == old(self)@.with_side(side, fill_front(old(self)@.side(side), amount as int)),
    {
        match side {
            OrderSide::Buy => reduce_front(&mut self.buy, OrderSide::Buy, amount),
            OrderSide::Sell => reduce_front(&mut self.sell, OrderSide::Sell, amount),
        }
    }
}

fn insert_into(levels: &mut Vec<PriceLevel>, side: OrderSide, entry: OrderbookEntry)
    requires
        side_wf(old(levels)@, side),
        entry.amount > 0,
        entry.side == side,
    ensures
        side_wf(final(levels)@, side),
        levels_view(final(levels)@) == insert_spec(levels_view(old(levels)@), side, entry.price as int, entry@),
{
    let ghost lv = levels_view(levels@);
    let ghost ev = entry@;
    let price = entry.price;
    let mut i: usize = 0;
    while i < levels.len() && is_better(side, levels[i].price, price)
        invariant
            i <= levels@.len(),
            lv == levels_view(levels@),
            forall|j: int| 0 <= j < i ==> better(side, #[trigger] lv[j].price, price as int),
        decreases levels@.len() - i,
    {
        i += 1;
    }
    proof {
        assert(is_insert_pos(lv, side, price as int, i as int));
        lemma_insert_pos_unique(lv, side, price as int, i as int);
    }
    if i < levels.len() && levels[i].price == price {
        let ghost q = levels@[i as int].entries@;
        levels[i].entries.push(entry);
        proof {
            assert(levels@[i as int].entries@ == q.push(entry));
            assert(levels@[i as int]@.queue =~= lv[i as int].queue.push(ev));
            assert(levels_view(levels@) =~= insert_spec(lv, side, price as int, ev));
        }
    } else {
        let mut entries: Vec<OrderbookEntry> = Vec::new();
        entries.push(entry);
        let level = PriceLevel { price, entries };
        proof {
            assert(level@.queue =~= seq![ev]);
        }
        levels.insert(i, level);
        proof {
            assert(levels_view(levels@) =~= insert_spec(lv, side, price as int, ev));
        }
    }
}

fn remove_from(levels: &mut Vec<PriceLevel>, side: OrderSide, price: i128, order_id: &String)
    requires
        side_wf(old(levels)@, side),
    ensures
        side_wf(final(levels)@, side),
        levels_view(final(levels)@) == remove_spec(levels_view(old(levels)@), price as int, order_id@),
{
    let ghost lv = levels_view(levels@);
    let mut i: usize = 0;
    while i < levels.len() && levels[i].price != price
        invariant
            i <= levels@.len(),
            lv == levels_view(levels@),
            forall|j: int| 0 <= j < i ==> (#[trigger] lv[j]).price != price,
        decreases levels@.len() - i,
    {
        i += 1;
    }
    if i == levels.len() {
        assert(!exists|j: int| is_level_at(lv, price as int, j));
        return;
    }
    proof {
        lemma_level_unique(lv, side, price as int, i as int);
    }
    let ghost q = lv[i as int].queue;
    let n = levels[i].entries.len();
    let mut k: usize = 0;
    while k < n && levels[i].entries[k].order_id != *order_id
        invariant
            i < levels@.len(),
            n == levels@[i as int].entries@.len(),
            k <= n,
            lv == levels_view(levels@),
            q == lv[i as int].queue,
            forall|j: int| 0 <= j < k ==> (#[trigger] q[j]).order_id != order_id@,
        decreases n - k,
    {
        k += 1;
    }
    if k == n {
        assert(!exists|j: int| is_first_id(q, order_id@, j));
        return;
    }
    proof {
        assert(is_level_at(lv, price as int, i as int));
        assert(is_first_id(q, order_id@, k as int));
        lemma_first_id_unique(q, order_id@, k as int);
    }
    let ghost es = levels@[i as int].entries@;
    levels[i].entries.remove(k);
    proof {
        assert(levels@[i as int].entries@ == es.remove(k as int));
        assert(levels@[i as int]@.queue =~= q.remove(k as int));
    }
    if levels[i].entries.len() == 0 {
        levels.remove(i);
        proof {
            assert(levels_view(levels@) =~= remove_spec(lv, price as int, order_id@));
        }
    } else {
        proof {
            assert(levels_view(levels@) =~= remove_spec(lv, price as int, order_id@));
        }
    }
}

fn reduce_front(levels: &mut Vec<PriceLevel>, side: OrderSide, amount: i128)
    requires
        side_wf(old(levels)@, side),
        old(levels)@.len() > 0,
        0 < amount <= levels_view(old(levels)@)[0].queue[0].amount,
    ensures
        side_wf(final(levels)@, side),
        levels_view(final(levels)@) == fill_front(levels_view(old(levels)@), amount as int),
{
    let ghost lv = levels_view(levels@);
    let ghost es = levels@[0].entries@;
    assert(queue_wf(lv[0].queue));
    let head_amount = levels[0].entries[0].amount;
    if head_amount <= amount {
        levels[0].entries.remove(0);
        proof {
            assert(levels@[0].entries@ == es.remove(0));
            assert(levels@[0]@.queue =~= lv[0].queue.drop_first());
        }
    } else {
        levels[0].entries[0].amount = head_amount - amount;
        proof {
            assert(levels@[0]@.queue =~= lv[0].queue.update(0, RestingView {
                order_id: lv[0].queue[0].order_id,
                account_id: lv[0].queue[0].account_id,
                amount: lv[0].queue[0].amount - amount,
            }));
        }
    }
    if levels[0].entries.len() == 0 {
        levels.remove(0);
    }
    proof {
        assert(levels_view(levels@) =~= fill_front(lv, amount as int));
    }
}

} // verus!
