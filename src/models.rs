use vstd::prelude::*;

verus! {

/// The side of an order: a bid (`Buy`) or an ask (`Sell`).
#[derive(Clone, Copy, Debug, PartialEq, Eq, Structural)]
pub enum OrderSide {
    Buy,
    Sell,
}

/// What an incoming event asks for.
#[derive(Clone, Copy, Debug, PartialEq, Eq, Structural)]
pub enum OrderType {
    Create,
    Delete,
}

/// An incoming order event. `amount` and `price` are fixed-point decimals
/// in units of `10^-SCALE` (see `crate::decimal`).
#[derive(Debug)]
pub struct Order {
    pub order_type: OrderType,
    pub account_id: String,
    pub amount: i128,
    pub order_id: String,
    pub pair: String,
    pub price: i128,
    pub side: OrderSide,
}

/// A resting order in a price level's queue.
#[derive(Debug)]
pub struct OrderbookEntry {
    pub order_id: String,
    pub account_id: String,
    pub amount: i128,
    pub price: i128,
    pub side: OrderSide,
}

/// One price level: its price and the FIFO queue of orders resting there.
#[derive(Debug)]
pub struct PriceLevel {
    pub price: i128,
    pub entries: Vec<OrderbookEntry>,
}

/// The two sides of the book, each a list of price levels in matching
/// priority: bids by descending price, asks by ascending price.
#[derive(Debug)]
pub struct Orderbook {
    pub buy: Vec<PriceLevel>,
    pub sell: Vec<PriceLevel>,
}

/// An execution between an incoming order and a resting one. The price is
/// the resting order's price; the timestamp is in microseconds since the
/// Unix epoch (UTC).
#[derive(Debug)]
pub struct Trade {
    pub buy_order_id: String,
    pub sell_order_id: String,
    pub amount: i128,
    pub price: i128,
    pub timestamp: i64,
}

/// The final book and every trade, in the order they were generated.
#[derive(Debug)]
pub struct ProcessingResult {
    pub orderbook: Orderbook,
    pub trades: Vec<Trade>,
}

/// Errors of the engine.
#[derive(Clone, Copy, Debug, PartialEq, Eq, Structural)]
pub enum ProcessingError {
    /// A numeric field is not an exact decimal that fits the fixed-point range.
    MalformedNumber,
    /// An order with a non-positive quantity was about to rest in the book.
    InvalidRestingState,
}

/// Abstract resting order.
pub struct RestingView {
    pub order_id: Seq<char>,
    pub account_id: Seq<char>,
    pub amount: int,
}

/// Abstract price level.
pub struct LevelView {
    pub price: int,
    pub queue: Seq<RestingView>,
}

/// Abstract order book.
pub struct BookView {
    pub buy: Seq<LevelView>,
    pub sell: Seq<LevelView>,
}

/// Abstract trade: everything but the timestamp.
pub struct TradeView {
    pub buy_order_id: Seq<char>,
    pub sell_order_id: Seq<char>,
    pub amount: int,
    pub price: int,
}

impl View for OrderbookEntry {
    type V = RestingView;

    open spec fn view(&self) -> RestingView {
        RestingView {
            order_id: self.order_id@,
            account_id: self.account_id@,
            amount: self.amount as int,
        }
    }
}

impl View for PriceLevel {
    type V = LevelView;

    open spec fn view(&self) -> LevelView {
        LevelView { price: self.price as int, queue: self.entries@.map_values(|e: OrderbookEntry| e@) }
    }
}

impl View for Trade {
    type V = TradeView;

    open spec fn view(&self) -> TradeView {
        TradeView {
            buy_order_id: self.buy_order_id@,
            sell_order_id: self.sell_order_id@,
            amount: self.amount as int,
            price: self.price as int,
        }
    }
}

/// The abstract levels of one side.
pub open spec fn levels_view(v: Seq<PriceLevel>) -> Seq<LevelView> {
    v.map_values(|l: PriceLevel| l@)
}

/// The abstract trades of a trade list.
pub open spec fn trades_view(v: Seq<Trade>) -> Seq<TradeView> {
    v.map_values(|t: Trade| t@)
}

impl View for Orderbook {
    type V = BookView;

    open spec fn view(&self) -> BookView {
        BookView { buy: levels_view(self.buy@), sell: levels_view(self.sell@) }
    }
}

impl OrderSide {
    pub open spec fn spec_opposite(self) -> OrderSide {
        match self {
            OrderSide::Buy => OrderSide::Sell,
            OrderSide::Sell => OrderSide::Buy,
        }
    }

    /// The side that an order of this side trades against.
    pub fn opposite(self) -> (r: OrderSide)
        ensures
            r == self.spec_opposite(),
    {
        match self {
            OrderSide::Buy => OrderSide::Sell,
            OrderSide::Sell => OrderSide::Buy,
        }
    }
}

/// On the book side `side`, a level at price `a` is matched before one at `b`.
pub open spec fn better(side: OrderSide, a: int, b: int) -> bool {
    match side {
        OrderSide::Buy => a > b,
        OrderSide::Sell => a < b,
    }
}

/// An incoming order of `side` with limit `limit` may trade at `level`.
pub open spec fn crosses(side: OrderSide, limit: int, level: int) -> bool {
    match side {
        OrderSide::Buy => level <= limit,
        OrderSide::Sell => level >= limit,
    }
}

/// Executable form of `better`.
pub fn is_better(side: OrderSide, a: i128, b: i128) -> (r: bool)
    ensures
        r == better(side, a as int, b as int),
{
    match side {
        OrderSide::Buy => a > b,
        OrderSide::Sell => a < b,
    }
}

/// Executable form of `crosses`.
pub fn is_marketable(side: OrderSide, limit: i128, level: i128) -> (r: bool)
    ensures
        r == crosses(side, limit as int, level as int),
{
    match side {
        OrderSide::Buy => level <= limit,
        OrderSide::Sell => level >= limit,
    }
}

/// A queue of a level: non-empty, every order with a positive remainder.
pub open spec fn queue_wf(q: Seq<RestingView>) -> bool {
    &&& q.len() > 0
    &&& forall|k: int| 0 <= k < q.len() ==> (#[trigger] q[k]).amount > 0
}

/// One side of the book: prices strictly in matching priority (so no two
/// levels share a price), and every queue well formed.
pub open spec fn levels_wf(levels: Seq<LevelView>, side: OrderSide) -> bool {
    &&& forall|i: int, j: int|
        0 <= i < j < levels.len() ==> better(side, #[trigger] levels[i].price, #[trigger] levels[j].price)
    &&& forall|i: int| 0 <= i < levels.len() ==> queue_wf(#[trigger] levels[i].queue)
}

/// The best bid is strictly below the best ask, or a side is empty.
pub open spec fn uncrossed(b: BookView) -> bool {
    b.buy.len() == 0 || b.sell.len() == 0 || b.buy[0].price < b.sell[0].price
}

/// A settled book: both sides well formed and not crossed.
pub open spec fn book_wf(b: BookView) -> bool {
    &&& levels_wf(b.buy, OrderSide::Buy)
    &&& levels_wf(b.sell, OrderSide::Sell)
    &&& uncrossed(b)
}

impl BookView {
    pub open spec fn side(self, side: OrderSide) -> Seq<LevelView> {
        match side {
            OrderSide::Buy => self.buy,
            OrderSide::Sell => self.sell,
        }
    }

    pub open spec fn with_side(self, side: OrderSide, levels: Seq<LevelView>) -> BookView {
        match side {
            OrderSide::Buy => BookView { buy: levels, sell: self.sell },
            OrderSide::Sell => BookView { buy: self.buy, sell: levels },
        }
    }
}

/// The concrete entries of a side agree with their level and side.
pub open spec fn entries_consistent(v: Seq<PriceLevel>, side: OrderSide) -> bool {
    forall|i: int, k: int|
        0 <= i < v.len() && 0 <= k < v[i].entries@.len() ==> {
            &&& (#[trigger] v[i].entries@[k]).price == v[i].price
            &&& v[i].entries@[k].side == side
        }
}

/// A well-formed side of the concrete book.
pub open spec fn side_wf(v: Seq<PriceLevel>, side: OrderSide) -> bool {
    &&& levels_wf(levels_view(v), side)
    &&& entries_consistent(v, side)
}

} // verus!
