//! The order book and matching engine.
//!
//! Each side of the book is a price-ordered sequence of FIFO price levels
//! (bids descending, asks ascending), beside a book-wide order index and the
//! trade ledger. Every operation's contract states the resulting book as a
//! function of the previous one over the book's mathematical image,
//! `BookModel`.

use vstd::prelude::*;

use crate::error::OrderError;
use crate::order::{find_id, has_id, remove_id, set_remaining, Order, Orders};
use crate::trade::{Trade, TradeInfo, Trades};
use crate::types::{OrderId, OrderType, Price, Quantity, Side};

verus! {

/// One price level: the resting orders sharing one price, in arrival order.
struct Level {
    price: Price,
    orders: Orders,
}

/// The mathematical image of one price level.
#[verifier::ext_equal]
pub ghost struct LevelModel {
    pub price: Price,
    pub orders: Seq<Order>,
}

impl View for Level {
    type V = LevelModel;

    closed spec fn view(&self) -> LevelModel {
        LevelModel { price: self.price, orders: self.orders@ }
    }
}

/// The mathematical image of a whole book.
#[verifier::ext_equal]
pub ghost struct BookModel {
    pub bids: Seq<LevelModel>,
    pub asks: Seq<LevelModel>,
    pub index: Seq<Order>,
    pub trades: Seq<Trade>,
}

spec fn side_model(levels: Seq<Level>) -> Seq<LevelModel> {
    Seq::new(levels.len(), |i: int| levels[i]@)
}

/// One side's aggregate view of a price level: its price and the sum of the
/// remaining quantities resting there, saturating at the largest quantity.
#[derive(Debug, PartialEq, Eq, Structural, Clone, Copy)]
pub struct LevelInfo {
    pub price: Price,
    pub quantity: Quantity,
}

/// The levels of one side, best price first.
#[derive(Debug, PartialEq, Eq, Clone)]
pub struct LevelInfos(pub Vec<LevelInfo>);

/// A depth snapshot of both sides.
#[derive(Debug, PartialEq, Eq, Clone)]
pub struct OrderBookLevels {
    pub bids: LevelInfos,
    pub asks: LevelInfos,
}

impl View for LevelInfos {
    type V = Seq<LevelInfo>;

    open spec fn view(&self) -> Seq<LevelInfo> {
        self.0@
    }
}

impl LevelInfos {
    /// Whether the side has no levels.
    pub fn is_empty(&self) -> (r: bool)
        ensures
            r == (self@.len() == 0),
    {
        self.0.len() == 0
    }

    /// How many levels the side has.
    pub fn len(&self) -> (r: usize)
        ensures
            r == self@.len(),
    {
        self.0.len()
    }
}

impl OrderBookLevels {
    /// The bid levels, highest price first.
    pub fn bids(&self) -> (r: &Vec<LevelInfo>)
        ensures
            r@ == self.bids@,
    {
        &self.bids.0
    }

    /// The ask levels, lowest price first.
    pub fn asks(&self) -> (r: &Vec<LevelInfo>)
        ensures
            r@ == self.asks@,
    {
        &self.asks.0
    }
}

impl LevelInfo {
    /// The level's price.
    pub fn price(&self) -> (r: Price)
        ensures
            r == self.price,
    {
        self.price
    }

    /// The level's aggregate remaining quantity.
    pub fn quantity(&self) -> (r: Quantity)
        ensures
            r == self.quantity,
    {
        self.quantity
    }
}

/// Whether `a` is a strictly better price than `b` from the standpoint of
/// `side`: higher for bids, lower for asks.
pub open spec fn better_price(side: Side, a: Price, b: Price) -> bool {
    match side {
        Side::Buy => a.0 > b.0,
        Side::Sell => a.0 < b.0,
    }
}

/// Whether an incoming `side` order limited to `limit` crosses a resting
/// opposing level priced at `lp`.
pub open spec fn crosses(side: Side, limit: Price, lp: Price) -> bool {
    match side {
        Side::Buy => lp.0 <= limit.0,
        Side::Sell => lp.0 >= limit.0,
    }
}

/// Well-formedness of one price level of `side`: non-empty, every order
/// carries the level's side and price, and ids are unique within the queue.
pub open spec fn level_wf(l: LevelModel, side: Side) -> bool {
    &&& l.orders.len() > 0
    &&& forall|k: int|
        0 <= k < l.orders.len() ==> (#[trigger] l.orders[k]).side == side && l.orders[k].price
            == l.price
    &&& forall|k1: int, k2: int|
        0 <= k1 < k2 < l.orders.len() ==> (#[trigger] l.orders[k1]).order_id != (
        #[trigger] l.orders[k2]).order_id
}

/// Well-formedness of one side: every level well-formed and prices strictly
/// ordered, best first.
pub open spec fn side_wf(levels: Seq<LevelModel>, side: Side) -> bool {
    &&& forall|i: int| 0 <= i < levels.len() ==> level_wf(#[trigger] levels[i], side)
    &&& forall|i: int, j: int|
        0 <= i < j < levels.len() ==> better_price(
            side,
            (#[trigger] levels[i]).price,
            (#[trigger] levels[j]).price,
        )
}

/// No two entries of the index carry the same id.
pub open spec fn ids_unique(s: Seq<Order>) -> bool {
    forall|n1: int, n2: int|
        0 <= n1 < n2 < s.len() ==> (#[trigger] s[n1]).order_id != (#[trigger] s[n2]).order_id
}

/// Agreement of the fields that a fill never changes. The index's copy of an
/// order may carry a stale remaining quantity after partial fills; everything
/// else agrees with the level's copy.
pub open spec fn same_static(a: Order, b: Order) -> bool {
    &&& a.order_id == b.order_id
    &&& a.side == b.side
    &&& a.price == b.price
    &&& a.order_type == b.order_type
    &&& a.initial_quantity == b.initial_quantity
}

/// Whether the index holds an entry statically agreeing with `o`.
pub open spec fn index_has_like(index: Seq<Order>, o: Order) -> bool {
    exists|n: int| 0 <= n < index.len() && same_static(#[trigger] index[n], o)
}

/// Whether some level of `levels` priced at `price` holds an order with `id`.
pub open spec fn side_has_id(levels: Seq<LevelModel>, price: Price, id: OrderId) -> bool {
    exists|i: int|
        0 <= i < levels.len() && (#[trigger] levels[i]).price == price && has_id(
            levels[i].orders,
            id,
        )
}

/// Whether `o` itself rests somewhere in `levels`.
pub open spec fn side_has_order(levels: Seq<LevelModel>, o: Order) -> bool {
    exists|i: int, k: int|
        0 <= i < levels.len() && 0 <= k < levels[i].orders.len() && (#[trigger] levels[i].orders[k]) == o
}

/// Every live order appears in exactly one side's price-level queue and in
/// the book-wide index: level orders have statically-agreeing index entries,
/// index ids are unique, and every index entry is resting in a level of its
/// side at its price.
pub open spec fn linked(b: BookModel) -> bool {
    &&& ids_unique(b.index)
    &&& forall|i: int, k: int|
        0 <= i < b.bids.len() && 0 <= k < b.bids[i].orders.len() ==> index_has_like(
            b.index,
            #[trigger] b.bids[i].orders[k],
        )
    &&& forall|i: int, k: int|
        0 <= i < b.asks.len() && 0 <= k < b.asks[i].orders.len() ==> index_has_like(
            b.index,
            #[trigger] b.asks[i].orders[k],
        )
    &&& forall|n: int|
        0 <= n < b.index.len() ==> {
            let o = #[trigger] b.index[n];
            match o.side {
                Side::Buy => side_has_id(b.bids, o.price, o.order_id),
                Side::Sell => side_has_id(b.asks, o.price, o.order_id),
            }
        }
}

/// The book's invariant: both sides well-formed and the index in step with
/// the levels.
pub open spec fn book_wf(b: BookModel) -> bool {
    &&& side_wf(b.bids, Side::Buy)
    &&& side_wf(b.asks, Side::Sell)
    &&& linked(b)
}

/// Total remaining quantity of a queue.
pub open spec fn queue_qty(q: Seq<Order>) -> nat
    decreases q.len(),
{
    if q.len() == 0 {
        0
    } else {
        (queue_qty(q.drop_last()) + q.last().remaining_quantity.0) as nat
    }
}

/// Aggregate remaining quantity over the opposing levels that an incoming
/// `side` order limited to `limit` would cross.
pub open spec fn crossable_qty(levels: Seq<LevelModel>, side: Side, limit: Price) -> nat
    decreases levels.len(),
{
    if levels.len() == 0 {
        0
    } else {
        (crossable_qty(levels.drop_last(), side, limit) + if crosses(
            side,
            limit,
            levels.last().price,
        ) {
            queue_qty(levels.last().orders)
        } else {
            0
        }) as nat
    }
}

/// `n` clamped to what a quantity can represent.
pub open spec fn sat32(n: nat) -> u32 {
    if n > u32::MAX {
        u32::MAX
    } else {
        n as u32
    }
}

/// Whether `infos` is the aggregate snapshot of `levels`, level for level.
pub open spec fn levels_match(levels: Seq<LevelModel>, infos: Seq<LevelInfo>) -> bool {
    &&& infos.len() == levels.len()
    &&& forall|i: int|
        0 <= i < levels.len() ==> #[trigger] infos[i] == (LevelInfo {
            price: levels[i].price,
            quantity: Quantity(sat32(queue_qty(levels[i].orders))),
        })
}

/// Whether a `side` order limited to `price` could match right now: the
/// opposing best level exists and crosses.
pub open spec fn spec_can_match(b: BookModel, side: Side, price: Price) -> bool {
    match side {
        Side::Buy => b.asks.len() > 0 && b.asks[0].price.0 <= price.0,
        Side::Sell => b.bids.len() > 0 && b.bids[0].price.0 >= price.0,
    }
}

/// Whether the opposing side is non-empty at all.
pub open spec fn spec_has_liquidity(b: BookModel, side: Side) -> bool {
    match side {
        Side::Buy => b.asks.len() > 0,
        Side::Sell => b.bids.len() > 0,
    }
}

/// Whether the aggregate crossable opposing quantity covers `qty` in full.
pub open spec fn spec_can_fully_fill(b: BookModel, side: Side, price: Price, qty: Quantity) -> bool {
    match side {
        Side::Buy => crossable_qty(b.asks, side, price) >= qty.0,
        Side::Sell => crossable_qty(b.bids, side, price) >= qty.0,
    }
}

/// The midprice when both sides are non-empty.
pub open spec fn spec_midprice(b: BookModel) -> Option<Price> {
    if b.bids.len() > 0 && b.asks.len() > 0 {
        Some(Price(((b.bids[0].price.0 + b.asks[0].price.0) / 2) as u32))
    } else {
        None
    }
}

/// An in-memory limit order book: bid and ask sides ordered best price
/// first, a book-wide index of every live order, and the trade ledger.
pub struct Orderbook {
    bids: Vec<Level>,
    asks: Vec<Level>,
    orders: Orders,
    trades: Trades,
}

impl View for Orderbook {
    type V = BookModel;

    closed spec fn view(&self) -> BookModel {
        BookModel {
            bids: side_model(self.bids@),
            asks: side_model(self.asks@),
            index: self.orders@,
            trades: self.trades@,
        }
    }
}

impl Default for Orderbook {
    fn default() -> (r: Orderbook)
        ensures
            r.wf(),
            r@.bids == Seq::<LevelModel>::empty(),
            r@.asks == Seq::<LevelModel>::empty(),
            r@.index == Seq::<Order>::empty(),
            r@.trades == Seq::<Trade>::empty(),
    {
        Orderbook::new()
    }
}

impl Orderbook {
    /// The book's invariant, established by `new` and preserved by every
    /// operation.
    pub open spec fn wf(&self) -> bool {
        book_wf(self@)
    }

    /// An empty book.
    pub fn new() -> (r: Orderbook)
        ensures
            r.wf(),
            r@.bids == Seq::<LevelModel>::empty(),
            r@.asks == Seq::<LevelModel>::empty(),
            r@.index == Seq::<Order>::empty(),
            r@.trades == Seq::<Trade>::empty(),
    {
        let r = Orderbook {
            bids: Vec::new(),
            asks: Vec::new(),
            orders: Orders::new(),
            trades: Trades::new(),
        };
        proof {
            assert(r@.bids =~= Seq::<LevelModel>::empty());
            assert(r@.asks =~= Seq::<LevelModel>::empty());
        }
        r
    }

    /// Whether the opposing side is non-empty at all.
    pub fn has_liquidity(&self, side: Side) -> (r: bool)
        ensures
            r == spec_has_liquidity(self@, side),
    {
        match side {
            Side::Buy => self.asks.len() > 0,
            Side::Sell => self.bids.len() > 0,
        }
    }

    /// Whether a `side` order limited to `price` could match right now.
    pub fn can_match(&self, side: Side, price: Price) -> (r: bool)
        ensures
            r == spec_can_match(self@, side, price),
    {
        match side {
            Side::Buy => self.asks.len() > 0 && self.asks[0].price.0 <= price.0,
            Side::Sell => self.bids.len() > 0 && self.bids[0].price.0 >= price.0,
        }
    }

    /// The average of the best bid and best ask prices; absent while either
    /// side is empty.
    pub fn midprice(&self) -> (r: Option<Price>)
        ensures
            r == spec_midprice(self@),
    {
        if self.bids.len() > 0 && self.asks.len() > 0 {
            let b = self.bids[0].price.0 as u64;
            let a = self.asks[0].price.0 as u64;
            Some(Price(((b + a) / 2) as u32))
        } else {
            None
        }
    }

    /// The trade ledger.
    pub fn trades(&self) -> (r: &Trades)
        ensures
            r@ == self@.trades,
    {
        &self.trades
    }

    /// Empties the trade ledger.
    pub fn clear_trades(&mut self)
        ensures
            final(self)@.trades == Seq::<Trade>::empty(),
            final(self)@.bids == old(self)@.bids,
            final(self)@.asks == old(self)@.asks,
            final(self)@.index == old(self)@.index,
            old(self).wf() ==> final(self).wf(),
    {
        self.trades.clear();
    }

    /// An immutable snapshot: for each side, the price and aggregate
    /// remaining quantity of every level, bids descending and asks ascending
    /// by price.
    pub fn get_levels(&self) -> (r: OrderBookLevels)
        ensures
            levels_match(self@.bids, r.bids@),
            levels_match(self@.asks, r.asks@),
    {
        OrderBookLevels {
            bids: LevelInfos(snapshot_side(&self.bids)),
            asks: LevelInfos(snapshot_side(&self.asks)),
        }
    }
}

/// The saturating sum of the remaining quantities of `q`'s first `upto`
/// orders equals the clamp of the mathematical sum.
proof fn lemma_queue_qty_take(q: Seq<Order>, upto: int)
    requires
        0 <= upto < q.len(),
    ensures
        queue_qty(q.take(upto + 1)) == queue_qty(q.take(upto)) + q[upto].remaining_quantity.0,
{
    let t = q.take(upto + 1);
    assert(t.drop_last() =~= q.take(upto));
    assert(t.last() == q[upto]);
}

fn sum_queue(orders: &Orders) -> (r: u32)
    ensures
        r == sat32(queue_qty(orders@)),
{
    let n = orders.len();
    let mut total: u32 = 0;
    let mut k: usize = 0;
    proof {
        assert(orders@.take(0) =~= Seq::<Order>::empty());
    }
    while k < n
        invariant
            n == orders@.len(),
            k <= n,
            total == sat32(queue_qty(orders@.take(k as int))),
        decreases n - k,
    {
        let q = orders.at(k).remaining_quantity.0;
        proof {
            lemma_queue_qty_take(orders@, k as int);
        }
        let s = total as u64 + q as u64;
        total = if s > u32::MAX as u64 {
            u32::MAX
        } else {
            s as u32
        };
        k = k + 1;
    }
    proof {
        assert(orders@.take(n as int) =~= orders@);
    }
    total
}

fn snapshot_side(levels: &Vec<Level>) -> (r: Vec<LevelInfo>)
    ensures
        levels_match(side_model(levels@), r@),
{
    let n = levels.len();
    let mut out: Vec<LevelInfo> = Vec::new();
    let mut i: usize = 0;
    while i < n
        invariant
            n == levels@.len(),
            i <= n,
            out@.len() == i,
            forall|j: int|
                0 <= j < i ==> #[trigger] out@[j] == (LevelInfo {
                    price: side_model(levels@)[j].price,
                    quantity: Quantity(sat32(queue_qty(side_model(levels@)[j].orders))),
                }),
        decreases n - i,
    {
        let q = sum_queue(&levels[i].orders);
        out.push(LevelInfo { price: levels[i].price, quantity: Quantity(q) });
        i = i + 1;
    }
    out
}

/// `n` clamped to a 64-bit sum accumulator.
pub open spec fn sat64(n: nat) -> u64 {
    if n > u64::MAX {
        u64::MAX
    } else {
        n as u64
    }
}

/// The position at which a level priced `price` belongs on `side`: the first
/// position whose level does not have a strictly better price, or the side's
/// length.
pub open spec fn level_pos(levels: Seq<LevelModel>, side: Side, price: Price) -> int
    decreases levels.len(),
{
    if levels.len() == 0 {
        0
    } else if better_price(side, levels[0].price, price) {
        1 + level_pos(levels.drop_first(), side, price)
    } else {
        0
    }
}

/// `level_pos` is the first position whose level's price is not strictly
/// better than `price`.
pub proof fn lemma_level_pos(levels: Seq<LevelModel>, side: Side, price: Price)
    ensures
        0 <= level_pos(levels, side, price) <= levels.len(),
        forall|k: int|
            0 <= k < level_pos(levels, side, price) ==> better_price(
                side,
                (#[trigger] levels[k]).price,
                price,
            ),
        level_pos(levels, side, price) < levels.len() ==> !better_price(
            side,
            levels[level_pos(levels, side, price)].price,
            price,
        ),
    decreases levels.len(),
{
    if levels.len() == 0 {
    } else if better_price(side, levels[0].price, price) {
        let t = levels.drop_first();
        lemma_level_pos(t, side, price);
        assert(forall|j: int| 0 <= j < t.len() ==> #[trigger] t[j] == levels[j + 1]);
        let p = level_pos(levels, side, price);
        assert(p == 1 + level_pos(t, side, price));
        assert forall|k: int| 0 <= k < p implies better_price(
            side,
            (#[trigger] levels[k]).price,
            price,
        ) by {
            if k > 0 {
                assert(t[k - 1] == levels[k]);
                assert(better_price(side, t[k - 1].price, price));
            }
        }
        if p < levels.len() {
            assert(levels[p] == t[p - 1]);
        }
    }
}

/// `levels` with `order` admitted: appended to the tail of its price level's
/// queue, the level being created in price order if absent.
pub open spec fn side_add(levels: Seq<LevelModel>, side: Side, order: Order) -> Seq<LevelModel> {
    let p = level_pos(levels, side, order.price);
    if p < levels.len() && levels[p].price == order.price {
        levels.update(
            p,
            LevelModel { price: order.price, orders: levels[p].orders.push(order) },
        )
    } else {
        levels.insert(p, LevelModel { price: order.price, orders: seq![order] })
    }
}

/// Why `order` would be refused admission to `b`, if it would be. Checks run
/// against the book state before insertion, id first.
pub open spec fn admit_error(b: BookModel, order: Order) -> Option<OrderError> {
    if has_id(b.index, order.order_id) {
        Some(OrderError::IdExists)
    } else if order.order_type is FillAndKill && !spec_can_match(b, order.side, order.price) {
        Some(OrderError::CantMatch)
    } else if order.order_type is FillOrKill && !spec_can_fully_fill(
        b,
        order.side,
        order.price,
        order.remaining_quantity,
    ) {
        Some(OrderError::CantFullyFill)
    } else if order.order_type is Market && !spec_has_liquidity(b, order.side) {
        Some(OrderError::NoLiquidity)
    } else {
        None
    }
}

/// `b` with `order` admitted to its side and appended to the index.
pub open spec fn add_spec(b: BookModel, order: Order) -> BookModel {
    match order.side {
        Side::Buy => BookModel {
            bids: side_add(b.bids, Side::Buy, order),
            asks: b.asks,
            index: b.index.push(order),
            trades: b.trades,
        },
        Side::Sell => BookModel {
            bids: b.bids,
            asks: side_add(b.asks, Side::Sell, order),
            index: b.index.push(order),
            trades: b.trades,
        },
    }
}

fn is_better(side: Side, a: Price, b: Price) -> (r: bool)
    ensures
        r == better_price(side, a, b),
{
    match side {
        Side::Buy => a.0 > b.0,
        Side::Sell => a.0 < b.0,
    }
}

proof fn lemma_crossable_take(levels: Seq<LevelModel>, side: Side, limit: Price, upto: int)
    requires
        0 <= upto < levels.len(),
    ensures
        crossable_qty(levels.take(upto + 1), side, limit) == crossable_qty(
            levels.take(upto),
            side,
            limit,
        ) + if crosses(side, limit, levels[upto].price) {
            queue_qty(levels[upto].orders)
        } else {
            0
        },
{
    let t = levels.take(upto + 1);
    assert(t.drop_last() =~= levels.take(upto));
    assert(t.last() == levels[upto]);
}

fn sum_queue64(orders: &Orders) -> (r: u64)
    ensures
        r == sat64(queue_qty(orders@)),
{
    let n = orders.len();
    let mut total: u64 = 0;
    let mut k: usize = 0;
    proof {
        assert(orders@.take(0) =~= Seq::<Order>::empty());
    }
    while k < n
        invariant
            n == orders@.len(),
            k <= n,
            total == sat64(queue_qty(orders@.take(k as int))),
        decreases n - k,
    {
        let q = orders.at(k).remaining_quantity.0;
        proof {
            lemma_queue_qty_take(orders@, k as int);
        }
        total = if total > u64::MAX - q as u64 {
            u64::MAX
        } else {
            total + q as u64
        };
        k = k + 1;
    }
    proof {
        assert(orders@.take(n as int) =~= orders@);
    }
    total
}

fn crossable_sum(levels: &Vec<Level>, side: Side, limit: Price) -> (r: u64)
    ensures
        r == sat64(crossable_qty(side_model(levels@), side, limit)),
{
    let n = levels.len();
    let ghost m = side_model(levels@);
    let mut total: u64 = 0;
    let mut i: usize = 0;
    proof {
        assert(m.take(0) =~= Seq::<LevelModel>::empty());
    }
    while i < n
        invariant
            n == levels@.len(),
            m == side_model(levels@),
            m.len() == n,
            i <= n,
            total == sat64(crossable_qty(m.take(i as int), side, limit)),
        decreases n - i,
    {
        proof {
            lemma_crossable_take(m, side, limit, i as int);
        }
        let lp = levels[i].price;
        let level_crosses = match side {
            Side::Buy => lp.0 <= limit.0,
            Side::Sell => lp.0 >= limit.0,
        };
        if level_crosses {
            let q = sum_queue64(&levels[i].orders);
            total = if total > u64::MAX - q {
                u64::MAX
            } else {
                total + q
            };
        }
        i = i + 1;
    }
    proof {
        assert(m.take(n as int) =~= m);
    }
    total
}

fn find_level_pos(levels: &Vec<Level>, side: Side, price: Price) -> (r: usize)
    ensures
        r == level_pos(side_model(levels@), side, price),
{
    let ghost m = side_model(levels@);
    proof {
        lemma_level_pos(m, side, price);
    }
    let n = levels.len();
    let mut i: usize = 0;
    while i < n && is_better(side, levels[i].price, price)
        invariant
            n == levels@.len(),
            m == side_model(levels@),
            m.len() == n,
            i <= n,
            forall|k: int| 0 <= k < i ==> better_price(side, (#[trigger] m[k]).price, price),
            0 <= level_pos(m, side, price) <= m.len(),
            forall|k: int|
                0 <= k < level_pos(m, side, price) ==> better_price(
                    side,
                    (#[trigger] m[k]).price,
                    price,
                ),
            level_pos(m, side, price) < m.len() ==> !better_price(
                side,
                m[level_pos(m, side, price)].price,
                price,
            ),
        decreases n - i,
    {
        proof {
            assert(m[i as int].price == levels@[i as int]@.price);
        }
        i = i + 1;
    }
    proof {
        let p = level_pos(m, side, price);
        if p < i {
            assert(better_price(side, m[p].price, price));
            assert(false);
        }
        if p > i {
            assert(i < m.len());
            assert(better_price(side, m[i as int].price, price));
            assert(m[i as int].price == levels@[i as int]@.price);
            assert(false);
        }
    }
    i
}

fn insert_into_side(levels: &mut Vec<Level>, side: Side, order: Order)
    ensures
        side_model(final(levels)@) == side_add(side_model(old(levels)@), side, order),
{
    let ghost m = side_model(levels@);
    proof {
        lemma_level_pos(m, side, order.price);
    }
    let pos = find_level_pos(levels, side, order.price);
    if pos < levels.len() && levels[pos].price.0 == order.price.0 {
        let mut lvl = levels.remove(pos);
        lvl.orders.push_back(order);
        proof {
            assert(m[pos as int].price == lvl.price);
            assert(lvl.price == order.price);
        }
        levels.insert(pos, lvl);
        proof {
            assert(side_model(levels@) =~= side_add(m, side, order));
        }
    } else {
        let mut q = Orders::new();
        q.push_back(order);
        proof {
            assert(q@ =~= seq![order]);
        }
        levels.insert(pos, Level { price: order.price, orders: q });
        proof {
            assert(side_model(levels@) =~= side_add(m, side, order));
        }
    }
}

/// Admitting a fresh order on its side keeps the side well-formed, adds
/// exactly that order to the side's contents, and moves every price/id
/// containment fact across.
proof fn lemma_side_add_props(levels: Seq<LevelModel>, side: Side, order: Order)
    requires
        side_wf(levels, side),
        order.side == side,
        forall|i: int, k: int|
            0 <= i < levels.len() && 0 <= k < levels[i].orders.len() ==> (#[trigger] levels[i].orders[k]).order_id != order.order_id,
    ensures
        side_wf(side_add(levels, side, order), side),
        forall|i: int, k: int|
            0 <= i < side_add(levels, side, order).len() && 0 <= k < side_add(
                levels,
                side,
                order,
            )[i].orders.len() ==> ((#[trigger] side_add(levels, side, order)[i].orders[k]) == order
                || side_has_order(levels, side_add(levels, side, order)[i].orders[k])),
        forall|p: Price, id: OrderId|
            #![trigger side_has_id(side_add(levels, side, order), p, id)]
            #![trigger side_has_id(levels, p, id)]
            side_has_id(side_add(levels, side, order), p, id) <==> (side_has_id(levels, p, id) || (
            p == order.price && id == order.order_id)),
{
    lemma_level_pos(levels, side, order.price);
    let p0 = level_pos(levels, side, order.price);
    let new = side_add(levels, side, order);
    if p0 < levels.len() && levels[p0].price == order.price {
        // the order joins the tail of the existing level's queue
        let oldq = levels[p0].orders;
        let newq = oldq.push(order);
        assert(forall|i: int| 0 <= i < new.len() ==> (#[trigger] new[i]).price == levels[i].price);
        assert forall|i: int| 0 <= i < new.len() implies level_wf(#[trigger] new[i], side) by {
            assert(level_wf(levels[i], side));
            if i == p0 {
                assert(forall|k: int| 0 <= k < oldq.len() ==> #[trigger] newq[k] == oldq[k]);
                assert(newq[oldq.len() as int] == order);
            }
        }
        assert forall|i: int, k: int|
            0 <= i < new.len() && 0 <= k < new[i].orders.len() implies ((
        #[trigger] new[i].orders[k]) == order || side_has_order(levels, new[i].orders[k])) by {
            if i == p0 {
                if k < oldq.len() {
                    assert(levels[p0].orders[k] == new[i].orders[k]);
                    assert(side_has_order(levels, new[i].orders[k]));
                } else {
                    assert(new[i].orders[k] == order);
                }
            } else {
                assert(levels[i].orders[k] == new[i].orders[k]);
                assert(side_has_order(levels, new[i].orders[k]));
            }
        }
        assert forall|p: Price, id: OrderId|
            #![trigger side_has_id(new, p, id)]
            #![trigger side_has_id(levels, p, id)]
            side_has_id(new, p, id) <==> (side_has_id(levels, p, id) || (p == order.price && id
                == order.order_id)) by {
            if side_has_id(new, p, id) {
                let i = choose|i: int|
                    0 <= i < new.len() && (#[trigger] new[i]).price == p && has_id(
                        new[i].orders,
                        id,
                    );
                if i == p0 {
                    let k = choose|k: int|
                        0 <= k < newq.len() && (#[trigger] newq[k]).order_id == id;
                    if k < oldq.len() {
                        assert(oldq[k] == newq[k]);
                        assert(has_id(oldq, id));
                        assert(side_has_id(levels, p, id));
                    } else {
                        assert(newq[k] == order);
                    }
                } else {
                    assert(side_has_id(levels, p, id));
                }
            }
            if side_has_id(levels, p, id) {
                let i = choose|i: int|
                    0 <= i < levels.len() && (#[trigger] levels[i]).price == p && has_id(
                        levels[i].orders,
                        id,
                    );
                if i == p0 {
                    let k = choose|k: int|
                        0 <= k < oldq.len() && (#[trigger] oldq[k]).order_id == id;
                    assert(newq[k] == oldq[k]);
                    assert(has_id(newq, id));
                    assert(side_has_id(new, p, id));
                } else {
                    assert(new[i].price == p && has_id(new[i].orders, id));
                    assert(side_has_id(new, p, id));
                }
            }
            if p == order.price && id == order.order_id {
                assert(newq[oldq.len() as int] == order);
                assert(has_id(newq, id));
                assert(new[p0].price == p);
                assert(side_has_id(new, p, id));
            }
        }
    } else {
        // a fresh level is created at the insertion position
        let fresh = LevelModel { price: order.price, orders: seq![order] };
        assert(new == levels.insert(p0, fresh));
        assert(forall|i: int| 0 <= i < p0 ==> #[trigger] new[i] == levels[i]);
        assert(new[p0] == fresh);
        assert(forall|i: int| p0 < i < new.len() ==> #[trigger] new[i] == levels[i - 1]);
        // the level at the insertion position, if any, is strictly worse
        if p0 < levels.len() {
            assert(!better_price(side, levels[p0].price, order.price));
            assert(levels[p0].price != order.price);
            assert(better_price(side, order.price, levels[p0].price));
        }
        assert forall|i: int, j: int|
            0 <= i < j < new.len() implies better_price(
            side,
            (#[trigger] new[i]).price,
            (#[trigger] new[j]).price,
        ) by {
            if i == p0 {
                assert(new[j] == levels[j - 1]);
                assert(p0 <= j - 1 < levels.len());
                if j - 1 > p0 {
                    assert(better_price(side, levels[p0].price, levels[j - 1].price));
                }
                assert(better_price(side, order.price, levels[j - 1].price));
            } else if j == p0 {
                assert(new[i] == levels[i]);
                assert(better_price(side, levels[i].price, order.price));
            } else if i < p0 && j > p0 {
                assert(better_price(side, levels[i].price, levels[j - 1].price));
            } else if j < p0 {
                assert(better_price(side, levels[i].price, levels[j].price));
            } else {
                assert(better_price(side, levels[i - 1].price, levels[j - 1].price));
            }
        }
        assert(level_wf(fresh, side));
        assert forall|i: int| 0 <= i < new.len() implies level_wf(#[trigger] new[i], side) by {
            if i < p0 {
                assert(level_wf(levels[i], side));
            } else if i > p0 {
                assert(level_wf(levels[i - 1], side));
            }
        }
        assert forall|i: int, k: int|
            0 <= i < new.len() && 0 <= k < new[i].orders.len() implies ((
        #[trigger] new[i].orders[k]) == order || side_has_order(levels, new[i].orders[k])) by {
            if i < p0 {
                assert(levels[i].orders[k] == new[i].orders[k]);
                assert(side_has_order(levels, new[i].orders[k]));
            } else if i > p0 {
                assert(levels[i - 1].orders[k] == new[i].orders[k]);
                assert(side_has_order(levels, new[i].orders[k]));
            } else {
                assert(new[i].orders[k] == order);
            }
        }
        assert forall|p: Price, id: OrderId|
            #![trigger side_has_id(new, p, id)]
            #![trigger side_has_id(levels, p, id)]
            side_has_id(new, p, id) <==> (side_has_id(levels, p, id) || (p == order.price && id
                == order.order_id)) by {
            if side_has_id(new, p, id) {
                let i = choose|i: int|
                    0 <= i < new.len() && (#[trigger] new[i]).price == p && has_id(
                        new[i].orders,
                        id,
                    );
                if i == p0 {
                    let k = choose|k: int|
                        0 <= k < new[i].orders.len() && (#[trigger] new[i].orders[k]).order_id
                            == id;
                    assert(new[i].orders[k] == order);
                } else if i < p0 {
                    assert(side_has_id(levels, p, id));
                } else {
                    assert(levels[i - 1].price == p && has_id(levels[i - 1].orders, id));
                    assert(side_has_id(levels, p, id));
                }
            }
            if side_has_id(levels, p, id) {
                let i = choose|i: int|
                    0 <= i < levels.len() && (#[trigger] levels[i]).price == p && has_id(
                        levels[i].orders,
                        id,
                    );
                if i < p0 {
                    assert(new[i].price == p && has_id(new[i].orders, id));
                    assert(side_has_id(new, p, id));
                } else {
                    assert(new[i + 1] == levels[i]);
                    assert(new[i + 1].price == p && has_id(new[i + 1].orders, id));
                    assert(side_has_id(new, p, id));
                }
            }
            if p == order.price && id == order.order_id {
                assert(fresh.orders[0] == order);
                assert(has_id(fresh.orders, id));
                assert(new[p0].price == p && has_id(new[p0].orders, id));
                assert(side_has_id(new, p, id));
            }
        }
    }
}

/// Admitting an order whose id is not yet live preserves the book invariant.
pub proof fn lemma_add_wf(b: BookModel, order: Order)
    requires
        book_wf(b),
        !has_id(b.index, order.order_id),
    ensures
        book_wf(add_spec(b, order)),
{
    let a = add_spec(b, order);
    assert forall|i: int, k: int|
        0 <= i < b.bids.len() && 0 <= k < b.bids[i].orders.len() implies (#[trigger] b.bids[i].orders[k]).order_id != order.order_id by {
        let o = b.bids[i].orders[k];
        assert(index_has_like(b.index, o));
        let n = choose|n: int| 0 <= n < b.index.len() && same_static(#[trigger] b.index[n], o);
        if o.order_id == order.order_id {
            assert((b.index[n]).order_id == order.order_id);
            assert(has_id(b.index, order.order_id));
        }
    }
    assert forall|i: int, k: int|
        0 <= i < b.asks.len() && 0 <= k < b.asks[i].orders.len() implies (#[trigger] b.asks[i].orders[k]).order_id != order.order_id by {
        let o = b.asks[i].orders[k];
        assert(index_has_like(b.index, o));
        let n = choose|n: int| 0 <= n < b.index.len() && same_static(#[trigger] b.index[n], o);
        if o.order_id == order.order_id {
            assert((b.index[n]).order_id == order.order_id);
            assert(has_id(b.index, order.order_id));
        }
    }
    // the index gains exactly the new entry
    assert(forall|n: int| 0 <= n < b.index.len() ==> #[trigger] a.index[n] == b.index[n]);
    assert(a.index[b.index.len() as int] == order);
    assert forall|n1: int, n2: int| 0 <= n1 < n2 < a.index.len() implies (#[trigger] a.index[n1]).order_id != (#[trigger] a.index[n2]).order_id by {
        if n2 < b.index.len() {
        } else {
            if a.index[n1].order_id == order.order_id {
                assert(has_id(b.index, order.order_id));
            }
        }
    }
    match order.side {
        Side::Buy => {
            lemma_side_add_props(b.bids, Side::Buy, order);
            assert forall|i: int, k: int|
                0 <= i < a.bids.len() && 0 <= k < a.bids[i].orders.len() implies index_has_like(
                a.index,
                #[trigger] a.bids[i].orders[k],
            ) by {
                let o = a.bids[i].orders[k];
                if o == order {
                    assert(same_static(a.index[b.index.len() as int], o));
                } else {
                    assert(side_has_order(b.bids, o));
                    let (i2, k2) = choose|i2: int, k2: int|
                        0 <= i2 < b.bids.len() && 0 <= k2 < b.bids[i2].orders.len() && (
                        #[trigger] b.bids[i2].orders[k2]) == o;
                    assert(index_has_like(b.index, o));
                    let n = choose|n: int|
                        0 <= n < b.index.len() && same_static(#[trigger] b.index[n], o);
                    assert(same_static(a.index[n], o));
                }
            }
            assert forall|i: int, k: int|
                0 <= i < a.asks.len() && 0 <= k < a.asks[i].orders.len() implies index_has_like(
                a.index,
                #[trigger] a.asks[i].orders[k],
            ) by {
                let o = a.asks[i].orders[k];
                assert(index_has_like(b.index, o));
                let n = choose|n: int|
                    0 <= n < b.index.len() && same_static(#[trigger] b.index[n], o);
                assert(same_static(a.index[n], o));
            }
            assert forall|n: int| 0 <= n < a.index.len() implies {
                let o = #[trigger] a.index[n];
                match o.side {
                    Side::Buy => side_has_id(a.bids, o.price, o.order_id),
                    Side::Sell => side_has_id(a.asks, o.price, o.order_id),
                }
            } by {
                let o = a.index[n];
                if n < b.index.len() {
                    assert(o == b.index[n]);
                } else {
                    assert(o == order);
                    assert(side_has_id(a.bids, order.price, order.order_id));
                }
            }
        },
        Side::Sell => {
            lemma_side_add_props(b.asks, Side::Sell, order);
            assert forall|i: int, k: int|
                0 <= i < a.asks.len() && 0 <= k < a.asks[i].orders.len() implies index_has_like(
                a.index,
                #[trigger] a.asks[i].orders[k],
            ) by {
                let o = a.asks[i].orders[k];
                if o == order {
                    assert(same_static(a.index[b.index.len() as int], o));
                } else {
                    assert(side_has_order(b.asks, o));
                    let (i2, k2) = choose|i2: int, k2: int|
                        0 <= i2 < b.asks.len() && 0 <= k2 < b.asks[i2].orders.len() && (
                        #[trigger] b.asks[i2].orders[k2]) == o;
                    assert(index_has_like(b.index, o));
                    let n = choose|n: int|
                        0 <= n < b.index.len() && same_static(#[trigger] b.index[n], o);
                    assert(same_static(a.index[n], o));
                }
            }
            assert forall|i: int, k: int|
                0 <= i < a.bids.len() && 0 <= k < a.bids[i].orders.len() implies index_has_like(
                a.index,
                #[trigger] a.bids[i].orders[k],
            ) by {
                let o = a.bids[i].orders[k];
                assert(index_has_like(b.index, o));
                let n = choose|n: int|
                    0 <= n < b.index.len() && same_static(#[trigger] b.index[n], o);
                assert(same_static(a.index[n], o));
            }
            assert forall|n: int| 0 <= n < a.index.len() implies {
                let o = #[trigger] a.index[n];
                match o.side {
                    Side::Buy => side_has_id(a.bids, o.price, o.order_id),
                    Side::Sell => side_has_id(a.asks, o.price, o.order_id),
                }
            } by {
                let o = a.index[n];
                if n < b.index.len() {
                    assert(o == b.index[n]);
                } else {
                    assert(o == order);
                    assert(side_has_id(a.asks, order.price, order.order_id));
                }
            }
        },
    }
}

impl Orderbook {
    /// Whether the aggregate remaining quantity across every opposing level
    /// that would cross a `side` order limited to `price` covers
    /// `remaining_quantity` in full.
    pub fn can_fully_fill(&self, side: Side, price: Price, remaining_quantity: Quantity) -> (r:
        bool)
        ensures
            r == spec_can_fully_fill(self@, side, price, remaining_quantity),
    {
        let available = match side {
            Side::Buy => crossable_sum(&self.asks, side, price),
            Side::Sell => crossable_sum(&self.bids, side, price),
        };
        available >= remaining_quantity.0 as u64
    }

    /// Admits `order` or refuses it with the reason, checked against the
    /// book state before insertion: a live id is refused first, then the
    /// order type's admission predicate. On admission the order is appended
    /// to the tail of its price level's queue (the level being created if
    /// absent) and to the book-wide index. Admission never triggers matching.
    pub fn add_order(&mut self, order: Order) -> (r: Result<(), OrderError>)
        requires
            old(self).wf(),
        ensures
            final(self).wf(),
            admit_error(old(self)@, order) matches Some(e) ==> r == Err::<(), OrderError>(e)
                && final(self)@ == old(self)@,
            admit_error(old(self)@, order) is None ==> r == Ok::<(), OrderError>(())
                && final(self)@ == add_spec(old(self)@, order),
    {
        if self.orders.contains(order.order_id) {
            return Err(OrderError::IdExists);
        }
        match order.order_type {
            OrderType::FillAndKill => {
                if !self.can_match(order.side, order.price) {
                    return Err(OrderError::CantMatch);
                }
            },
            OrderType::FillOrKill => {
                if !self.can_fully_fill(order.side, order.price, order.remaining_quantity) {
                    return Err(OrderError::CantFullyFill);
                }
            },
            OrderType::Market => {
                if !self.has_liquidity(order.side) {
                    return Err(OrderError::NoLiquidity);
                }
            },
            _ => {},
        }
        proof {
            lemma_add_wf(old(self)@, order);
        }
        match order.side {
            Side::Buy => {
                insert_into_side(&mut self.bids, Side::Buy, order);
            },
            Side::Sell => {
                insert_into_side(&mut self.asks, Side::Sell, order);
            },
        }
        self.orders.push_back(order);
        proof {
            assert(self@ =~= add_spec(old(self)@, order));
        }
        Ok(())
    }
}

/// Whether some level of `levels` is priced at `price`.
pub open spec fn has_price(levels: Seq<LevelModel>, price: Price) -> bool {
    exists|i: int| 0 <= i < levels.len() && (#[trigger] levels[i]).price == price
}

/// The position of the first level of `levels` priced at `price`, or -1 if
/// none is.
pub open spec fn find_price(levels: Seq<LevelModel>, price: Price) -> int
    decreases levels.len(),
{
    if levels.len() == 0 {
        -1
    } else if levels[0].price == price {
        0
    } else {
        let r = find_price(levels.drop_first(), price);
        if r < 0 {
            -1
        } else {
            r + 1
        }
    }
}

/// `find_price` finds the first level at `price` exactly when one exists.
pub proof fn lemma_find_price(levels: Seq<LevelModel>, price: Price)
    ensures
        has_price(levels, price) <==> 0 <= find_price(levels, price),
        has_price(levels, price) ==> {
            &&& find_price(levels, price) < levels.len()
            &&& levels[find_price(levels, price)].price == price
            &&& forall|k: int|
                0 <= k < find_price(levels, price) ==> (#[trigger] levels[k]).price != price
        },
    decreases levels.len(),
{
    if levels.len() == 0 {
    } else if levels[0].price == price {
    } else {
        let t = levels.drop_first();
        lemma_find_price(t, price);
        assert(forall|j: int| 0 <= j < t.len() ==> #[trigger] t[j] == levels[j + 1]);
        if has_price(levels, price) {
            let n = choose|n: int| 0 <= n < levels.len() && (#[trigger] levels[n]).price == price;
            assert(t[n - 1] == levels[n]);
            assert(has_price(t, price));
        }
        if has_price(t, price) {
            let m = choose|m: int| 0 <= m < t.len() && (#[trigger] t[m]).price == price;
            assert(levels[m + 1] == t[m]);
            assert(has_price(levels, price));
            let f = find_price(t, price);
            assert(forall|k: int| 1 <= k < f + 1 ==> (#[trigger] levels[k]).price == t[k - 1].price);
        }
    }
}

/// Positional facts about removing the first entry carrying `id`.
proof fn lemma_remove_id_props(q: Seq<Order>, id: OrderId)
    requires
        has_id(q, id),
    ensures
        remove_id(q, id).len() == q.len() - 1,
        forall|k: int|
            0 <= k < find_id(q, id) ==> #[trigger] remove_id(q, id)[k] == q[k],
        forall|k: int|
            find_id(q, id) <= k < q.len() - 1 ==> #[trigger] remove_id(q, id)[k] == q[k + 1],
{
    crate::order::lemma_find_id(q, id);
}

/// `levels` after cancelling `id` out of its level at `price`: the first
/// matching entry leaves the queue, and the level leaves the side if its
/// queue becomes empty. `levels` itself if no level carries `price`.
pub open spec fn side_delete(levels: Seq<LevelModel>, price: Price, id: OrderId) -> Seq<
    LevelModel,
> {
    if has_price(levels, price) {
        let i = find_price(levels, price);
        let q2 = remove_id(levels[i].orders, id);
        if q2.len() == 0 {
            levels.remove(i)
        } else {
            levels.update(i, LevelModel { price: levels[i].price, orders: q2 })
        }
    } else {
        levels
    }
}

/// `b` after cancelling `id`: the order leaves the book-wide index and its
/// side's price level, the level leaving the side entirely if its queue
/// becomes empty. `b` itself if `id` is not live.
pub open spec fn cancel_spec(b: BookModel, id: OrderId) -> BookModel {
    if !has_id(b.index, id) {
        b
    } else {
        let o = b.index[find_id(b.index, id)];
        let index2 = remove_id(b.index, id);
        match o.side {
            Side::Buy => BookModel {
                bids: side_delete(b.bids, o.price, id),
                asks: b.asks,
                index: index2,
                trades: b.trades,
            },
            Side::Sell => BookModel {
                bids: b.bids,
                asks: side_delete(b.asks, o.price, id),
                index: index2,
                trades: b.trades,
            },
        }
    }
}

/// Deleting an id out of one side keeps the side well-formed, introduces no
/// order, and removes exactly the containment of `id` at `price`.
proof fn lemma_side_delete_props(levels: Seq<LevelModel>, side: Side, price: Price, id: OrderId)
    requires
        side_wf(levels, side),
    ensures
        side_wf(side_delete(levels, price, id), side),
        forall|i: int, k: int|
            0 <= i < side_delete(levels, price, id).len() && 0 <= k < side_delete(
                levels,
                price,
                id,
            )[i].orders.len() ==> side_has_order(
                levels,
                #[trigger] side_delete(levels, price, id)[i].orders[k],
            ),
        forall|p2: Price, id2: OrderId|
            #![trigger side_has_id(side_delete(levels, price, id), p2, id2)]
            #![trigger side_has_id(levels, p2, id2)]
            {
                &&& (side_has_id(side_delete(levels, price, id), p2, id2) ==> side_has_id(
                    levels,
                    p2,
                    id2,
                ))
                &&& (side_has_id(levels, p2, id2) && !(p2 == price && id2 == id)
                    ==> side_has_id(side_delete(levels, price, id), p2, id2))
            },
        !side_has_id(side_delete(levels, price, id), price, id),
{
    lemma_find_price(levels, price);
    let new = side_delete(levels, price, id);
    if !has_price(levels, price) {
        assert forall|i: int, k: int|
            0 <= i < new.len() && 0 <= k < new[i].orders.len() implies side_has_order(
            levels,
            #[trigger] new[i].orders[k],
        ) by {
            assert(levels[i].orders[k] == new[i].orders[k]);
        }
        assert(!side_has_id(new, price, id)) by {
            if side_has_id(new, price, id) {
                let i = choose|i: int|
                    0 <= i < new.len() && (#[trigger] new[i]).price == price && has_id(
                        new[i].orders,
                        id,
                    );
                assert(has_price(levels, price));
            }
        }
    } else {
        let li = find_price(levels, price);
        let oldq = levels[li].orders;
        crate::order::lemma_find_id(oldq, id);
        // prices are unique across a well-formed side
        assert forall|i: int|
            0 <= i < levels.len() && i != li implies (#[trigger] levels[i]).price != price by {
            if i < li {
                assert(better_price(side, levels[i].price, levels[li].price));
            } else {
                assert(better_price(side, levels[li].price, levels[i].price));
            }
        }
        if !has_id(oldq, id) {
            assert(remove_id(oldq, id) == oldq);
            assert(level_wf(levels[li], side));
            assert(oldq.len() > 0);
            assert(new == levels.update(li, LevelModel { price: levels[li].price, orders: oldq }));
            assert(new =~= levels);
            assert forall|i: int, k: int|
                0 <= i < new.len() && 0 <= k < new[i].orders.len() implies side_has_order(
                levels,
                #[trigger] new[i].orders[k],
            ) by {
                assert(levels[i].orders[k] == new[i].orders[k]);
            }
            assert(!side_has_id(new, price, id)) by {
                if side_has_id(new, price, id) {
                    let i = choose|i: int|
                        0 <= i < new.len() && (#[trigger] new[i]).price == price && has_id(
                            new[i].orders,
                            id,
                        );
                    assert(i == li);
                }
            }
        } else {
            let fi = find_id(oldq, id);
            let q2 = remove_id(oldq, id);
            lemma_remove_id_props(oldq, id);
            assert(level_wf(levels[li], side));
            // the queue's ids are unique, so no other entry of it carries id
            assert forall|k: int| 0 <= k < q2.len() implies (#[trigger] q2[k]).order_id != id by {
                if k < fi {
                    assert(q2[k] == oldq[k]);
                } else {
                    assert(q2[k] == oldq[k + 1]);
                    assert(oldq[fi].order_id == id);
                }
            }
            // every entry of the shortened queue comes from the old queue
            assert forall|k: int| 0 <= k < q2.len() implies exists|k2: int|
                0 <= k2 < oldq.len() && oldq[k2] == (#[trigger] q2[k]) by {
                if k < fi {
                    assert(oldq[k] == q2[k]);
                } else {
                    assert(oldq[k + 1] == q2[k]);
                }
            }
            if q2.len() == 0 {
                assert(new == levels.remove(li));
                assert(forall|i: int| 0 <= i < li ==> #[trigger] new[i] == levels[i]);
                assert(forall|i: int| li <= i < new.len() ==> #[trigger] new[i] == levels[i + 1]);
                assert forall|i: int, j: int|
                    0 <= i < j < new.len() implies better_price(
                    side,
                    (#[trigger] new[i]).price,
                    (#[trigger] new[j]).price,
                ) by {
                    let i2: int = if i < li { i } else { i + 1 };
                    let j2: int = if j < li { j } else { j + 1 };
                    assert(new[i] == levels[i2]);
                    assert(new[j] == levels[j2]);
                    assert(better_price(side, levels[i2].price, levels[j2].price));
                }
                assert forall|i: int| 0 <= i < new.len() implies level_wf(
                    #[trigger] new[i],
                    side,
                ) by {
                    let i2: int = if i < li { i } else { i + 1 };
                    assert(level_wf(levels[i2], side));
                }
                assert forall|i: int, k: int|
                    0 <= i < new.len() && 0 <= k < new[i].orders.len() implies side_has_order(
                    levels,
                    #[trigger] new[i].orders[k],
                ) by {
                    let i2: int = if i < li { i } else { i + 1 };
                    assert(new[i] == levels[i2]);
                    assert(levels[i2].orders[k] == new[i].orders[k]);
                }
                assert forall|p2: Price, id2: OrderId|
                    #![trigger side_has_id(new, p2, id2)]
                    #![trigger side_has_id(levels, p2, id2)]
                    {
                        &&& (side_has_id(new, p2, id2) ==> side_has_id(levels, p2, id2))
                        &&& (side_has_id(levels, p2, id2) && !(p2 == price && id2 == id)
                            ==> side_has_id(new, p2, id2))
                    } by {
                    if side_has_id(new, p2, id2) {
                        let i = choose|i: int|
                            0 <= i < new.len() && (#[trigger] new[i]).price == p2 && has_id(
                                new[i].orders,
                                id2,
                            );
                        let i2: int = if i < li { i } else { i + 1 };
                        assert(levels[i2].price == p2 && has_id(levels[i2].orders, id2));
                        assert(side_has_id(levels, p2, id2));
                    }
                    if side_has_id(levels, p2, id2) && !(p2 == price && id2 == id) {
                        let i = choose|i: int|
                            0 <= i < levels.len() && (#[trigger] levels[i]).price == p2 && has_id(
                                levels[i].orders,
                                id2,
                            );
                        if i == li {
                            // the removed level held only the cancelled order
                            assert(p2 == price);
                            assert(oldq.len() == 1);
                            let k = choose|k: int|
                                0 <= k < oldq.len() && (#[trigger] oldq[k]).order_id == id2;
                            assert(k == fi);
                            assert(id2 == id);
                            assert(false);
                        } else if i < li {
                            assert(new[i] == levels[i]);
                            assert(side_has_id(new, p2, id2));
                        } else {
                            assert(new[i - 1] == levels[i]);
                            assert(side_has_id(new, p2, id2));
                        }
                    }
                }
                assert(!side_has_id(new, price, id)) by {
                    if side_has_id(new, price, id) {
                        let i = choose|i: int|
                            0 <= i < new.len() && (#[trigger] new[i]).price == price && has_id(
                                new[i].orders,
                                id,
                            );
                        let i2: int = if i < li { i } else { i + 1 };
                        assert(levels[i2].price == price);
                        assert(i2 != li);
                        assert(false);
                    }
                }
            } else {
                assert(new == levels.update(li, LevelModel { price: levels[li].price, orders: q2 }));
                assert(forall|i: int| 0 <= i < new.len() && i != li ==> #[trigger] new[i] == levels[i]);
                assert(new[li].price == levels[li].price);
                assert(level_wf(new[li], side)) by {
                    assert(forall|k: int| 0 <= k < q2.len() && k < fi ==> #[trigger] q2[k] == oldq[k]);
                    assert(forall|k: int| fi <= k < q2.len() ==> #[trigger] q2[k] == oldq[k + 1]);
                    assert forall|k1: int, k2: int|
                        0 <= k1 < k2 < q2.len() implies (#[trigger] q2[k1]).order_id != (
                    #[trigger] q2[k2]).order_id by {
                        let a: int = if k1 < fi { k1 } else { k1 + 1 };
                        let b: int = if k2 < fi { k2 } else { k2 + 1 };
                        assert(q2[k1] == oldq[a]);
                        assert(q2[k2] == oldq[b]);
                    }
                }
                assert forall|i: int| 0 <= i < new.len() implies level_wf(
                    #[trigger] new[i],
                    side,
                ) by {
                    if i != li {
                        assert(level_wf(levels[i], side));
                    }
                }
                assert forall|i: int, k: int|
                    0 <= i < new.len() && 0 <= k < new[i].orders.len() implies side_has_order(
                    levels,
                    #[trigger] new[i].orders[k],
                ) by {
                    if i == li {
                        let a: int = if k < fi { k } else { k + 1 };
                        assert(new[i].orders[k] == q2[k]);
                        assert(q2[k] == oldq[a]);
                        assert(levels[li].orders[a] == new[i].orders[k]);
                    } else {
                        assert(levels[i].orders[k] == new[i].orders[k]);
                    }
                }
                assert forall|p2: Price, id2: OrderId|
                    #![trigger side_has_id(new, p2, id2)]
                    #![trigger side_has_id(levels, p2, id2)]
                    {
                        &&& (side_has_id(new, p2, id2) ==> side_has_id(levels, p2, id2))
                        &&& (side_has_id(levels, p2, id2) && !(p2 == price && id2 == id)
                            ==> side_has_id(new, p2, id2))
                    } by {
                    if side_has_id(new, p2, id2) {
                        let i = choose|i: int|
                            0 <= i < new.len() && (#[trigger] new[i]).price == p2 && has_id(
                                new[i].orders,
                                id2,
                            );
                        if i == li {
                            let k = choose|k: int|
                                0 <= k < q2.len() && (#[trigger] q2[k]).order_id == id2;
                            let a: int = if k < fi { k } else { k + 1 };
                            assert(q2[k] == oldq[a]);
                            assert(has_id(oldq, id2));
                            assert(side_has_id(levels, p2, id2));
                        } else {
                            assert(side_has_id(levels, p2, id2));
                        }
                    }
                    if side_has_id(levels, p2, id2) && !(p2 == price && id2 == id) {
                        let i = choose|i: int|
                            0 <= i < levels.len() && (#[trigger] levels[i]).price == p2 && has_id(
                                levels[i].orders,
                                id2,
                            );
                        if i == li {
                            assert(p2 == price);
                            assert(id2 != id);
                            let k = choose|k: int|
                                0 <= k < oldq.len() && (#[trigger] oldq[k]).order_id == id2;
                            assert(k != fi);
                            if k < fi {
                                assert(q2[k] == oldq[k]);
                                assert(has_id(q2, id2));
                            } else {
                                assert(q2[k - 1] == oldq[k]);
                                assert(has_id(q2, id2));
                            }
                            assert(new[li].price == p2);
                            assert(side_has_id(new, p2, id2));
                        } else {
                            assert(new[i] == levels[i]);
                            assert(side_has_id(new, p2, id2));
                        }
                    }
                }
                assert(!side_has_id(new, price, id)) by {
                    if side_has_id(new, price, id) {
                        let i = choose|i: int|
                            0 <= i < new.len() && (#[trigger] new[i]).price == price && has_id(
                                new[i].orders,
                                id,
                            );
                        if i == li {
                            let k = choose|k: int|
                                0 <= k < q2.len() && (#[trigger] q2[k]).order_id == id;
                            assert(false);
                        } else {
                            assert(levels[i].price == price);
                            assert(false);
                        }
                    }
                }
            }
        }
    }
}

/// Cancelling any id preserves the book invariant.
pub proof fn lemma_cancel_wf(b: BookModel, id: OrderId)
    requires
        book_wf(b),
    ensures
        book_wf(cancel_spec(b, id)),
{
    if !has_id(b.index, id) {
    } else {
        crate::order::lemma_find_id(b.index, id);
        let n0 = find_id(b.index, id);
        let o = b.index[n0];
        let c = cancel_spec(b, id);
        lemma_remove_id_props(b.index, id);
        // the new index is the old one without position n0
        assert(forall|n: int| 0 <= n < n0 ==> #[trigger] c.index[n] == b.index[n]);
        assert(forall|n: int| n0 <= n < c.index.len() ==> #[trigger] c.index[n] == b.index[n + 1]);
        assert forall|n1: int, n2: int| 0 <= n1 < n2 < c.index.len() implies (#[trigger] c.index[n1]).order_id != (#[trigger] c.index[n2]).order_id by {
            let a: int = if n1 < n0 { n1 } else { n1 + 1 };
            let bb: int = if n2 < n0 { n2 } else { n2 + 1 };
            assert(c.index[n1] == b.index[a]);
            assert(c.index[n2] == b.index[bb]);
        }
        // no entry of the new index carries the cancelled id
        assert forall|n: int| 0 <= n < c.index.len() implies (#[trigger] c.index[n]).order_id != id by {
            let a: int = if n < n0 { n } else { n + 1 };
            assert(c.index[n] == b.index[a]);
            if a != n0 && b.index[a].order_id == id {
                assert(b.index[n0].order_id == id);
                assert(false);
            }
        }
        // an index entry other than n0 survives with its position shifted
        assert forall|n: int|
            0 <= n < b.index.len() && n != n0 implies index_has_like(
            c.index,
            #[trigger] b.index[n],
        ) by {
            let n2: int = if n < n0 { n } else { n - 1 };
            assert(c.index[n2] == b.index[n]);
            assert(same_static(c.index[n2], b.index[n]));
        }
        match o.side {
            Side::Buy => {
                lemma_side_delete_props(b.bids, Side::Buy, o.price, id);
                assert forall|i: int, k: int|
                    0 <= i < c.bids.len() && 0 <= k < c.bids[i].orders.len() implies index_has_like(
                    c.index,
                    #[trigger] c.bids[i].orders[k],
                ) by {
                    let oo = c.bids[i].orders[k];
                    assert(side_has_order(b.bids, oo));
                    let (i2, k2) = choose|i2: int, k2: int|
                        0 <= i2 < b.bids.len() && 0 <= k2 < b.bids[i2].orders.len() && (
                        #[trigger] b.bids[i2].orders[k2]) == oo;
                    assert(index_has_like(b.index, oo));
                    let n = choose|n: int|
                        0 <= n < b.index.len() && same_static(#[trigger] b.index[n], oo);
                    if n == n0 {
                        // the cancelled entry cannot witness a surviving order
                        assert(oo.order_id == id);
                        assert(side_has_id(c.bids, c.bids[i].price, id)) by {
                            assert(has_id(c.bids[i].orders, id)) by {
                                assert((c.bids[i].orders[k]).order_id == id);
                            }
                        }
                        assert(oo.price == o.price) by {
                            assert(same_static(b.index[n0], oo));
                        }
                        assert(c.bids[i].price == oo.price) by {
                            assert(level_wf_for(c.bids, i, Side::Buy));
                        }
                        assert(!side_has_id(c.bids, o.price, id));
                        assert(false);
                    } else {
                        assert(index_has_like(c.index, oo));
                    }
                }
                assert forall|i: int, k: int|
                    0 <= i < c.asks.len() && 0 <= k < c.asks[i].orders.len() implies index_has_like(
                    c.index,
                    #[trigger] c.asks[i].orders[k],
                ) by {
                    let oo = c.asks[i].orders[k];
                    assert(index_has_like(b.index, oo));
                    let n = choose|n: int|
                        0 <= n < b.index.len() && same_static(#[trigger] b.index[n], oo);
                    if n == n0 {
                        assert(oo.order_id == id);
                        assert(oo.side == Side::Sell);
                        assert(b.index[n0].side == Side::Buy);
                        assert(false);
                    } else {
                        assert(index_has_like(c.index, oo));
                    }
                }
                assert forall|n: int| 0 <= n < c.index.len() implies {
                    let e = #[trigger] c.index[n];
                    match e.side {
                        Side::Buy => side_has_id(c.bids, e.price, e.order_id),
                        Side::Sell => side_has_id(c.asks, e.price, e.order_id),
                    }
                } by {
                    let a: int = if n < n0 { n } else { n + 1 };
                    let e = b.index[a];
                    assert(c.index[n] == e);
                    assert(e.order_id != id);
                    if e.side is Buy {
                        assert(side_has_id(b.bids, e.price, e.order_id));
                        assert(side_has_id(c.bids, e.price, e.order_id));
                    }
                }
            },
            Side::Sell => {
                lemma_side_delete_props(b.asks, Side::Sell, o.price, id);
                assert forall|i: int, k: int|
                    0 <= i < c.asks.len() && 0 <= k < c.asks[i].orders.len() implies index_has_like(
                    c.index,
                    #[trigger] c.asks[i].orders[k],
                ) by {
                    let oo = c.asks[i].orders[k];
                    assert(side_has_order(b.asks, oo));
                    let (i2, k2) = choose|i2: int, k2: int|
                        0 <= i2 < b.asks.len() && 0 <= k2 < b.asks[i2].orders.len() && (
                        #[trigger] b.asks[i2].orders[k2]) == oo;
                    assert(index_has_like(b.index, oo));
                    let n = choose|n: int|
                        0 <= n < b.index.len() && same_static(#[trigger] b.index[n], oo);
                    if n == n0 {
                        assert(oo.order_id == id);
                        assert(side_has_id(c.asks, c.asks[i].price, id)) by {
                            assert(has_id(c.asks[i].orders, id)) by {
                                assert((c.asks[i].orders[k]).order_id == id);
                            }
                        }
                        assert(oo.price == o.price) by {
                            assert(same_static(b.index[n0], oo));
                        }
                        assert(c.asks[i].price == oo.price) by {
                            assert(level_wf_for(c.asks, i, Side::Sell));
                        }
                        assert(!side_has_id(c.asks, o.price, id));
                        assert(false);
                    } else {
                        assert(index_has_like(c.index, oo));
                    }
                }
                assert forall|i: int, k: int|
                    0 <= i < c.bids.len() && 0 <= k < c.bids[i].orders.len() implies index_has_like(
                    c.index,
                    #[trigger] c.bids[i].orders[k],
                ) by {
                    let oo = c.bids[i].orders[k];
                    assert(index_has_like(b.index, oo));
                    let n = choose|n: int|
                        0 <= n < b.index.len() && same_static(#[trigger] b.index[n], oo);
                    if n == n0 {
                        assert(oo.order_id == id);
                        assert(oo.side == Side::Buy);
                        assert(b.index[n0].side == Side::Sell);
                        assert(false);
                    } else {
                        assert(index_has_like(c.index, oo));
                    }
                }
                assert forall|n: int| 0 <= n < c.index.len() implies {
                    let e = #[trigger] c.index[n];
                    match e.side {
                        Side::Buy => side_has_id(c.bids, e.price, e.order_id),
                        Side::Sell => side_has_id(c.asks, e.price, e.order_id),
                    }
                } by {
                    let a: int = if n < n0 { n } else { n + 1 };
                    let e = b.index[a];
                    assert(c.index[n] == e);
                    assert(e.order_id != id);
                    if e.side is Sell {
                        assert(side_has_id(b.asks, e.price, e.order_id));
                        assert(side_has_id(c.asks, e.price, e.order_id));
                    }
                }
            },
        }
    }
}

/// The level at position `i` is well-formed for `side`.
spec fn level_wf_for(levels: Seq<LevelModel>, i: int, side: Side) -> bool {
    0 <= i < levels.len() && level_wf(levels[i], side)
}

fn delete_from_side(levels: &mut Vec<Level>, price: Price, id: OrderId)
    ensures
        side_model(final(levels)@) == side_delete(side_model(old(levels)@), price, id),
{
    let ghost m = side_model(levels@);
    proof {
        lemma_find_price(m, price);
    }
    let n = levels.len();
    let mut i: usize = 0;
    while i < n
        invariant
            levels@ == old(levels)@,
            m == side_model(levels@),
            n == m.len(),
            i <= n,
            forall|k: int| 0 <= k < i ==> (#[trigger] m[k]).price != price,
            has_price(m, price) <==> 0 <= find_price(m, price),
            has_price(m, price) ==> {
                &&& find_price(m, price) < m.len()
                &&& m[find_price(m, price)].price == price
                &&& forall|k: int|
                    0 <= k < find_price(m, price) ==> (#[trigger] m[k]).price != price
            },
        decreases n - i,
    {
        if levels[i].price.0 == price.0 {
            proof {
                assert(m[i as int].price == levels@[i as int]@.price);
                assert(m[i as int].price == price);
                assert(has_price(m, price));
                let f = find_price(m, price);
                if f < i {
                    assert(m[f].price != price);
                    assert(false);
                }
                if f > i {
                    assert(m[i as int].price != price);
                    assert(false);
                }
            }
            let mut lvl = levels.remove(i);
            lvl.orders.delete(id);
            if lvl.orders.is_empty() {
                proof {
                    assert(side_model(levels@) =~= side_delete(m, price, id));
                }
            } else {
                levels.insert(i, lvl);
                proof {
                    assert(side_model(levels@) =~= side_delete(m, price, id));
                }
            }
            return ;
        }
        i = i + 1;
    }
    proof {
        if has_price(m, price) {
            assert(m[find_price(m, price)].price == price);
            assert(false);
        }
    }
}

impl Orderbook {
    /// Cancels a live order: it leaves both the book-wide index and its
    /// side's price level, and the level leaves the side entirely if its
    /// queue becomes empty. Fails with `OrderNotFound`, leaving the book
    /// unchanged, exactly when `order_id` is not live.
    pub fn cancel_order(&mut self, order_id: OrderId) -> (r: Result<(), OrderError>)
        requires
            old(self).wf(),
        ensures
            final(self).wf(),
            !has_id(old(self)@.index, order_id) ==> r == Err::<(), OrderError>(
                OrderError::OrderNotFound,
            ) && final(self)@ == old(self)@,
            has_id(old(self)@.index, order_id) ==> r == Ok::<(), OrderError>(()) && final(self)@
                == cancel_spec(old(self)@, order_id),
    {
        proof {
            crate::order::lemma_find_id(self@.index, order_id);
            lemma_cancel_wf(self@, order_id);
        }
        let (side, price) = match self.orders.get(order_id) {
            None => {
                return Err(OrderError::OrderNotFound);
            },
            Some(o) => (o.side, o.price),
        };
        self.orders.delete(order_id);
        match side {
            Side::Buy => {
                delete_from_side(&mut self.bids, price, order_id);
            },
            Side::Sell => {
                delete_from_side(&mut self.asks, price, order_id);
            },
        }
        proof {
            assert(self@ =~= cancel_spec(old(self)@, order_id));
        }
        Ok(())
    }
}

/// Overwriting one entry's remaining quantity moves no entry and changes no
/// field a fill would not change.
proof fn lemma_set_remaining_props(q: Seq<Order>, id: OrderId, qty: Quantity)
    ensures
        set_remaining(q, id, qty).len() == q.len(),
        forall|k: int|
            0 <= k < q.len() ==> same_static(#[trigger] set_remaining(q, id, qty)[k], q[k]),
{
    crate::order::lemma_find_id(q, id);
}

/// `levels` with the remaining quantity of the first order carrying `id`
/// in the first level priced `price` overwritten by `q`, in place.
pub open spec fn side_set_qty(levels: Seq<LevelModel>, price: Price, id: OrderId, q: Quantity) -> Seq<LevelModel> {
    if has_price(levels, price) {
        let i = find_price(levels, price);
        levels.update(
            i,
            LevelModel { price: levels[i].price, orders: set_remaining(levels[i].orders, id, q) },
        )
    } else {
        levels
    }
}

/// `b` after modifying `id`: the remaining quantity is overwritten in place,
/// both in the index's copy and in the price-level queue's copy, preserving
/// the order's queue position. `b` itself if `id` is not live.
pub open spec fn modify_spec(b: BookModel, id: OrderId, q: Quantity) -> BookModel {
    if !has_id(b.index, id) {
        b
    } else {
        let o = b.index[find_id(b.index, id)];
        let index2 = set_remaining(b.index, id, q);
        match o.side {
            Side::Buy => BookModel {
                bids: side_set_qty(b.bids, o.price, id, q),
                asks: b.asks,
                index: index2,
                trades: b.trades,
            },
            Side::Sell => BookModel {
                bids: b.bids,
                asks: side_set_qty(b.asks, o.price, id, q),
                index: index2,
                trades: b.trades,
            },
        }
    }
}

/// Overwriting quantities in one side changes no price, position or id.
proof fn lemma_side_set_qty_props(levels: Seq<LevelModel>, side: Side, price: Price, id: OrderId, qty: Quantity)
    requires
        side_wf(levels, side),
    ensures
        side_wf(side_set_qty(levels, price, id, qty), side),
        side_set_qty(levels, price, id, qty).len() == levels.len(),
        forall|i: int|
            0 <= i < levels.len() ==> (#[trigger] side_set_qty(levels, price, id, qty)[i]).price
                == levels[i].price,
        forall|i: int|
            0 <= i < levels.len() ==> (#[trigger] side_set_qty(levels, price, id, qty)[i]).orders.len()
                == levels[i].orders.len(),
        forall|i: int, k: int|
            0 <= i < levels.len() && 0 <= k < levels[i].orders.len() ==> same_static(
                (#[trigger] side_set_qty(levels, price, id, qty)[i].orders[k]),
                levels[i].orders[k],
            ),
{
    let new = side_set_qty(levels, price, id, qty);
    lemma_find_price(levels, price);
    if has_price(levels, price) {
        let li = find_price(levels, price);
        lemma_set_remaining_props(levels[li].orders, id, qty);
        assert forall|i: int, k: int|
            0 <= i < levels.len() && 0 <= k < levels[i].orders.len() implies same_static(
            (#[trigger] new[i].orders[k]),
            levels[i].orders[k],
        ) by {
            if i != li {
                assert(new[i] == levels[i]);
            }
        }
        assert forall|i: int| 0 <= i < new.len() implies level_wf(#[trigger] new[i], side) by {
            assert(level_wf(levels[i], side));
            if i == li {
                assert forall|k: int| 0 <= k < new[i].orders.len() implies (#[trigger] new[i].orders[k]).side == side && new[i].orders[k].price == new[i].price by {
                    assert(same_static(new[i].orders[k], levels[i].orders[k]));
                }
                assert forall|k1: int, k2: int|
                    0 <= k1 < k2 < new[i].orders.len() implies (#[trigger] new[i].orders[k1]).order_id != (#[trigger] new[i].orders[k2]).order_id by {
                    assert(same_static(new[i].orders[k1], levels[i].orders[k1]));
                    assert(same_static(new[i].orders[k2], levels[i].orders[k2]));
                }
            }
        }
    }
}

/// Modifying any order's quantity preserves the book invariant.
pub proof fn lemma_modify_wf(b: BookModel, id: OrderId, q: Quantity)
    requires
        book_wf(b),
    ensures
        book_wf(modify_spec(b, id, q)),
{
    if !has_id(b.index, id) {
    } else {
        crate::order::lemma_find_id(b.index, id);
        let o = b.index[find_id(b.index, id)];
        let m = modify_spec(b, id, q);
        lemma_set_remaining_props(b.index, id, q);
        assert forall|n1: int, n2: int| 0 <= n1 < n2 < m.index.len() implies (#[trigger] m.index[n1]).order_id != (#[trigger] m.index[n2]).order_id by {
            assert(same_static(m.index[n1], b.index[n1]));
            assert(same_static(m.index[n2], b.index[n2]));
        }
        lemma_side_set_qty_props(b.bids, Side::Buy, o.price, id, q);
        lemma_side_set_qty_props(b.asks, Side::Sell, o.price, id, q);
        let nb = m.bids;
        let na = m.asks;
        assert forall|i: int, k: int|
            0 <= i < nb.len() && 0 <= k < nb[i].orders.len() implies index_has_like(
            m.index,
            #[trigger] nb[i].orders[k],
        ) by {
            assert(same_static(nb[i].orders[k], b.bids[i].orders[k]));
            assert(index_has_like(b.index, b.bids[i].orders[k]));
            let n = choose|n: int|
                0 <= n < b.index.len() && same_static(#[trigger] b.index[n], b.bids[i].orders[k]);
            assert(same_static(m.index[n], b.index[n]));
            assert(same_static(m.index[n], nb[i].orders[k]));
        }
        assert forall|i: int, k: int|
            0 <= i < na.len() && 0 <= k < na[i].orders.len() implies index_has_like(
            m.index,
            #[trigger] na[i].orders[k],
        ) by {
            assert(same_static(na[i].orders[k], b.asks[i].orders[k]));
            assert(index_has_like(b.index, b.asks[i].orders[k]));
            let n = choose|n: int|
                0 <= n < b.index.len() && same_static(#[trigger] b.index[n], b.asks[i].orders[k]);
            assert(same_static(m.index[n], b.index[n]));
            assert(same_static(m.index[n], na[i].orders[k]));
        }
        assert forall|n: int| 0 <= n < m.index.len() implies {
            let e = #[trigger] m.index[n];
            match e.side {
                Side::Buy => side_has_id(m.bids, e.price, e.order_id),
                Side::Sell => side_has_id(m.asks, e.price, e.order_id),
            }
        } by {
            let e = m.index[n];
            assert(same_static(e, b.index[n]));
            let eb = b.index[n];
            if eb.side is Buy {
                assert(side_has_id(b.bids, eb.price, eb.order_id));
                let i = choose|i: int|
                    0 <= i < b.bids.len() && (#[trigger] b.bids[i]).price == eb.price && has_id(
                        b.bids[i].orders,
                        eb.order_id,
                    );
                let k = choose|k: int|
                    0 <= k < b.bids[i].orders.len() && (#[trigger] b.bids[i].orders[k]).order_id
                        == eb.order_id;
                assert(same_static(nb[i].orders[k], b.bids[i].orders[k]));
                assert(has_id(nb[i].orders, eb.order_id)) by {
                    assert((nb[i].orders[k]).order_id == eb.order_id);
                }
                assert(nb[i].price == eb.price);
                assert(side_has_id(m.bids, e.price, e.order_id));
            } else {
                assert(side_has_id(b.asks, eb.price, eb.order_id));
                let i = choose|i: int|
                    0 <= i < b.asks.len() && (#[trigger] b.asks[i]).price == eb.price && has_id(
                        b.asks[i].orders,
                        eb.order_id,
                    );
                let k = choose|k: int|
                    0 <= k < b.asks[i].orders.len() && (#[trigger] b.asks[i].orders[k]).order_id
                        == eb.order_id;
                assert(same_static(na[i].orders[k], b.asks[i].orders[k]));
                assert(has_id(na[i].orders, eb.order_id)) by {
                    assert((na[i].orders[k]).order_id == eb.order_id);
                }
                assert(na[i].price == eb.price);
                assert(side_has_id(m.asks, e.price, e.order_id));
            }
        }
    }
}

fn set_qty_in_side(levels: &mut Vec<Level>, price: Price, id: OrderId, qty: Quantity)
    ensures
        side_model(final(levels)@) == side_set_qty(side_model(old(levels)@), price, id, qty),
{
    let ghost m = side_model(levels@);
    proof {
        lemma_find_price(m, price);
    }
    let n = levels.len();
    let mut i: usize = 0;
    while i < n
        invariant
            levels@ == old(levels)@,
            m == side_model(levels@),
            n == m.len(),
            i <= n,
            forall|k: int| 0 <= k < i ==> (#[trigger] m[k]).price != price,
            has_price(m, price) <==> 0 <= find_price(m, price),
            has_price(m, price) ==> {
                &&& find_price(m, price) < m.len()
                &&& m[find_price(m, price)].price == price
                &&& forall|k: int|
                    0 <= k < find_price(m, price) ==> (#[trigger] m[k]).price != price
            },
        decreases n - i,
    {
        if levels[i].price.0 == price.0 {
            proof {
                assert(m[i as int].price == levels@[i as int]@.price);
                assert(m[i as int].price == price);
                assert(has_price(m, price));
                let f = find_price(m, price);
                if f < i {
                    assert(m[f].price != price);
                    assert(false);
                }
                if f > i {
                    assert(m[i as int].price != price);
                    assert(false);
                }
            }
            let mut lvl = levels.remove(i);
            lvl.orders.update_quantity(id, qty);
            levels.insert(i, lvl);
            proof {
                assert(side_model(levels@) =~= side_set_qty(m, price, id, qty));
            }
            return ;
        }
        i = i + 1;
    }
    proof {
        if has_price(m, price) {
            assert(m[find_price(m, price)].price == price);
            assert(false);
        }
    }
}

impl Orderbook {
    /// Overwrites a live order's remaining quantity in place, both in the
    /// book-wide index's copy and in the price-level queue's copy, preserving
    /// the order's queue position: a quantity-only modification keeps FIFO
    /// priority. Fails with `OrderNotFound`, leaving the book unchanged,
    /// exactly when `order_id` is not live.
    pub fn modify_order(&mut self, order_id: OrderId, new_quantity: Quantity) -> (r: Result<
        (),
        OrderError,
    >)
        requires
            old(self).wf(),
        ensures
            final(self).wf(),
            !has_id(old(self)@.index, order_id) ==> r == Err::<(), OrderError>(
                OrderError::OrderNotFound,
            ) && final(self)@ == old(self)@,
            has_id(old(self)@.index, order_id) ==> r == Ok::<(), OrderError>(()) && final(self)@
                == modify_spec(old(self)@, order_id, new_quantity),
    {
        proof {
            crate::order::lemma_find_id(self@.index, order_id);
            lemma_modify_wf(self@, order_id, new_quantity);
        }
        let (side, price) = match self.orders.get(order_id) {
            None => {
                return Err(OrderError::OrderNotFound);
            },
            Some(o) => (o.side, o.price),
        };
        self.orders.update_quantity(order_id, new_quantity);
        match side {
            Side::Buy => {
                set_qty_in_side(&mut self.bids, price, order_id, new_quantity);
            },
            Side::Sell => {
                set_qty_in_side(&mut self.asks, price, order_id, new_quantity);
            },
        }
        proof {
            assert(self@ =~= modify_spec(old(self)@, order_id, new_quantity));
        }
        Ok(())
    }
}

/// Whether the best bid and best ask cross: a trade is possible.
pub open spec fn crossed(b: BookModel) -> bool {
    b.bids.len() > 0 && b.asks.len() > 0 && b.bids[0].price.0 >= b.asks[0].price.0
}

/// Whether one matching step can run: the book is crossed and both best
/// queues hold an order (the latter always holds of a well-formed book).
pub open spec fn can_step(b: BookModel) -> bool {
    crossed(b) && b.bids[0].orders.len() > 0 && b.asks[0].orders.len() > 0
}

/// The quantity one matching step fills: the smaller of the two head
/// orders' remaining quantities.
pub open spec fn step_fill(b: BookModel) -> Quantity {
    let br = b.bids[0].orders[0].remaining_quantity.0;
    let ar = b.asks[0].orders[0].remaining_quantity.0;
    if br <= ar {
        Quantity(br)
    } else {
        Quantity(ar)
    }
}

/// The price one matching step trades at: the ask side's resting price,
/// except that a market sell's minimum sentinel must not leak into the trade
/// record, in which case the bid price governs.
pub open spec fn step_price(b: BookModel) -> Price {
    if b.asks[0].price.0 == 0 {
        b.bids[0].price
    } else {
        b.asks[0].price
    }
}

/// The trade one matching step records: both sides at the same price and
/// quantity, between the two head orders.
pub open spec fn step_trade(b: BookModel) -> Trade {
    Trade {
        bid_trade: TradeInfo {
            order_id: b.bids[0].orders[0].order_id,
            price: step_price(b),
            quantity: step_fill(b),
        },
        ask_trade: TradeInfo {
            order_id: b.asks[0].orders[0].order_id,
            price: step_price(b),
            quantity: step_fill(b),
        },
    }
}

/// One side after its head order is filled by `f`: the head's remaining
/// quantity shrinks in place, the head leaving the queue if fully filled and
/// the level leaving the side if its queue becomes empty.
pub open spec fn fill_best_levels(levels: Seq<LevelModel>, f: u32) -> Seq<LevelModel> {
    let l = levels[0];
    let o = l.orders[0];
    if o.remaining_quantity.0 == f {
        if l.orders.len() == 1 {
            levels.drop_first()
        } else {
            levels.update(0, LevelModel { price: l.price, orders: l.orders.drop_first() })
        }
    } else {
        let o2 = Order {
            order_id: o.order_id,
            order_type: o.order_type,
            side: o.side,
            price: o.price,
            initial_quantity: o.initial_quantity,
            remaining_quantity: Quantity((o.remaining_quantity.0 - f) as u32),
        };
        levels.update(0, LevelModel { price: l.price, orders: l.orders.update(0, o2) })
    }
}

/// The index after one side's head order is filled by `f`: the head's entry
/// leaves the index exactly when the head is fully filled.
pub open spec fn fill_best_index(levels: Seq<LevelModel>, index: Seq<Order>, f: u32) -> Seq<
    Order,
> {
    let o = levels[0].orders[0];
    if o.remaining_quantity.0 == f {
        remove_id(index, o.order_id)
    } else {
        index
    }
}

/// One matching step: fill both best head orders by the smaller remaining
/// quantity, record one trade, evict what was fully filled.
pub open spec fn match_step(b: BookModel) -> BookModel {
    let f = step_fill(b).0;
    BookModel {
        bids: fill_best_levels(b.bids, f),
        asks: fill_best_levels(b.asks, f),
        index: fill_best_index(b.asks, fill_best_index(b.bids, b.index, f), f),
        trades: b.trades.push(step_trade(b)),
    }
}

/// How many orders rest across `levels`.
pub open spec fn level_count(levels: Seq<LevelModel>) -> nat
    decreases levels.len(),
{
    if levels.len() == 0 {
        0
    } else {
        (levels[0].orders.len() + level_count(levels.drop_first())) as nat
    }
}

/// How many orders rest in the whole book.
pub open spec fn order_count(b: BookModel) -> nat {
    level_count(b.bids) + level_count(b.asks)
}

/// The book after the matching loop: steps repeat while the best prices
/// cross. (The measure guard is vacuous for well-formed books, where every
/// step strictly shrinks the book.)
pub open spec fn match_rec(b: BookModel) -> BookModel
    decreases order_count(b),
{
    if can_step(b) && order_count(match_step(b)) < order_count(b) {
        match_rec(match_step(b))
    } else {
        b
    }
}

proof fn lemma_level_count_parts(levels: Seq<LevelModel>)
    requires
        levels.len() > 0,
    ensures
        level_count(levels) == levels[0].orders.len() + level_count(levels.drop_first()),
{
}

proof fn lemma_level_count_update0(levels: Seq<LevelModel>, l: LevelModel)
    requires
        levels.len() > 0,
    ensures
        level_count(levels.update(0, l)) == level_count(levels) - levels[0].orders.len()
            + l.orders.len(),
{
    let u = levels.update(0, l);
    assert(u.drop_first() =~= levels.drop_first());
    lemma_level_count_parts(u);
    lemma_level_count_parts(levels);
}

/// Whether some order of `levels` statically agrees with `o`.
pub open spec fn side_has_static(levels: Seq<LevelModel>, o: Order) -> bool {
    exists|i: int, k: int|
        0 <= i < levels.len() && 0 <= k < levels[i].orders.len() && same_static(
            #[trigger] levels[i].orders[k],
            o,
        )
}

/// Within a linked book, an id is carried by at most one resting order, over
/// both sides together.
proof fn lemma_book_ids_distinct(b: BookModel)
    requires
        book_wf(b),
    ensures
        forall|i: int, k: int, i2: int, k2: int|
            #![trigger b.bids[i].orders[k], b.bids[i2].orders[k2]]
            0 <= i < b.bids.len() && 0 <= k < b.bids[i].orders.len() && 0 <= i2 < b.bids.len() && 0
                <= k2 < b.bids[i2].orders.len() && (i != i2 || k != k2) ==> b.bids[i].orders[
                k
            ].order_id != b.bids[i2].orders[k2].order_id,
        forall|i: int, k: int, i2: int, k2: int|
            #![trigger b.asks[i].orders[k], b.asks[i2].orders[k2]]
            0 <= i < b.asks.len() && 0 <= k < b.asks[i].orders.len() && 0 <= i2 < b.asks.len() && 0
                <= k2 < b.asks[i2].orders.len() && (i != i2 || k != k2) ==> b.asks[i].orders[
                k
            ].order_id != b.asks[i2].orders[k2].order_id,
        forall|i: int, k: int, i2: int, k2: int|
            #![trigger b.bids[i].orders[k], b.asks[i2].orders[k2]]
            0 <= i < b.bids.len() && 0 <= k < b.bids[i].orders.len() && 0 <= i2 < b.asks.len() && 0
                <= k2 < b.asks[i2].orders.len() ==> b.bids[i].orders[k].order_id != b.asks[
                i2
            ].orders[k2].order_id,
{
    assert forall|i: int, k: int, i2: int, k2: int|
        #![trigger b.bids[i].orders[k], b.bids[i2].orders[k2]]
        0 <= i < b.bids.len() && 0 <= k < b.bids[i].orders.len() && 0 <= i2 < b.bids.len() && 0
            <= k2 < b.bids[i2].orders.len() && (i != i2 || k != k2) implies b.bids[i].orders[
        k
    ].order_id != b.bids[i2].orders[k2].order_id by {
        let o1 = b.bids[i].orders[k];
        let o2 = b.bids[i2].orders[k2];
        if o1.order_id == o2.order_id {
            assert(index_has_like(b.index, o1));
            assert(index_has_like(b.index, o2));
            let n1 = choose|n: int| 0 <= n < b.index.len() && same_static(#[trigger] b.index[n], o1);
            let n2 = choose|n: int| 0 <= n < b.index.len() && same_static(#[trigger] b.index[n], o2);
            assert(n1 == n2);
            assert(o1.price == o2.price);
            assert(b.bids[i].price == b.bids[i2].price);
            if i < i2 {
                assert(better_price(Side::Buy, b.bids[i].price, b.bids[i2].price));
                assert(false);
            }
            if i2 < i {
                assert(better_price(Side::Buy, b.bids[i2].price, b.bids[i].price));
                assert(false);
            }
            assert(level_wf(b.bids[i], Side::Buy));
            assert(false);
        }
    }
    assert forall|i: int, k: int, i2: int, k2: int|
        #![trigger b.asks[i].orders[k], b.asks[i2].orders[k2]]
        0 <= i < b.asks.len() && 0 <= k < b.asks[i].orders.len() && 0 <= i2 < b.asks.len() && 0
            <= k2 < b.asks[i2].orders.len() && (i != i2 || k != k2) implies b.asks[i].orders[
        k
    ].order_id != b.asks[i2].orders[k2].order_id by {
        let o1 = b.asks[i].orders[k];
        let o2 = b.asks[i2].orders[k2];
        if o1.order_id == o2.order_id {
            assert(index_has_like(b.index, o1));
            assert(index_has_like(b.index, o2));
            let n1 = choose|n: int| 0 <= n < b.index.len() && same_static(#[trigger] b.index[n], o1);
            let n2 = choose|n: int| 0 <= n < b.index.len() && same_static(#[trigger] b.index[n], o2);
            assert(n1 == n2);
            assert(o1.price == o2.price);
            assert(b.asks[i].price == b.asks[i2].price);
            if i < i2 {
                assert(better_price(Side::Sell, b.asks[i].price, b.asks[i2].price));
                assert(false);
            }
            if i2 < i {
                assert(better_price(Side::Sell, b.asks[i2].price, b.asks[i].price));
                assert(false);
            }
            assert(level_wf(b.asks[i], Side::Sell));
            assert(false);
        }
    }
    assert forall|i: int, k: int, i2: int, k2: int|
        #![trigger b.bids[i].orders[k], b.asks[i2].orders[k2]]
        0 <= i < b.bids.len() && 0 <= k < b.bids[i].orders.len() && 0 <= i2 < b.asks.len() && 0
            <= k2 < b.asks[i2].orders.len() implies b.bids[i].orders[k].order_id != b.asks[
        i2
    ].orders[k2].order_id by {
        let o1 = b.bids[i].orders[k];
        let o2 = b.asks[i2].orders[k2];
        if o1.order_id == o2.order_id {
            assert(index_has_like(b.index, o1));
            assert(index_has_like(b.index, o2));
            let n1 = choose|n: int| 0 <= n < b.index.len() && same_static(#[trigger] b.index[n], o1);
            let n2 = choose|n: int| 0 <= n < b.index.len() && same_static(#[trigger] b.index[n], o2);
            assert(n1 == n2);
            assert(o1.side == Side::Buy && o2.side == Side::Sell);
            assert(false);
        }
    }
}

/// Filling one side's head keeps the side well-formed and changes exactly
/// the head: static contents carry over, and every id but possibly the
/// head's keeps its place.
proof fn lemma_fill_best_side_props(levels: Seq<LevelModel>, side: Side, f: u32)
    requires
        side_wf(levels, side),
        levels.len() > 0,
        levels[0].orders.len() > 0,
        f <= levels[0].orders[0].remaining_quantity.0,
        forall|i: int, k: int|
            0 <= i < levels.len() && 0 <= k < levels[i].orders.len() && (i != 0 || k != 0) ==> (
            #[trigger] levels[i].orders[k]).order_id != levels[0].orders[0].order_id,
    ensures
        side_wf(fill_best_levels(levels, f), side),
        levels[0].orders[0].remaining_quantity.0 == f ==> level_count(fill_best_levels(levels, f))
            == level_count(levels) - 1,
        levels[0].orders[0].remaining_quantity.0 != f ==> level_count(fill_best_levels(levels, f))
            == level_count(levels),
        forall|i: int, k: int|
            0 <= i < fill_best_levels(levels, f).len() && 0 <= k < fill_best_levels(
                levels,
                f,
            )[i].orders.len() ==> side_has_static(
                levels,
                #[trigger] fill_best_levels(levels, f)[i].orders[k],
            ),
        levels[0].orders[0].remaining_quantity.0 == f ==> forall|i: int, k: int|
            0 <= i < fill_best_levels(levels, f).len() && 0 <= k < fill_best_levels(
                levels,
                f,
            )[i].orders.len() ==> (#[trigger] fill_best_levels(levels, f)[i].orders[k]).order_id
                != levels[0].orders[0].order_id,
        forall|p2: Price, id2: OrderId|
            #![trigger side_has_id(fill_best_levels(levels, f), p2, id2)]
            #![trigger side_has_id(levels, p2, id2)]
            {
                &&& (side_has_id(fill_best_levels(levels, f), p2, id2) ==> side_has_id(
                    levels,
                    p2,
                    id2,
                ))
                &&& (side_has_id(levels, p2, id2) && !(p2 == levels[0].price && id2 == levels[0].orders[0].order_id) ==> side_has_id(fill_best_levels(levels, f), p2, id2))
            },
        // the best price never improves: either the side empties, or its
        // best level keeps its price, or a strictly worse level surfaces
        fill_best_levels(levels, f).len() > 0 ==> (fill_best_levels(levels, f)[0].price
            == levels[0].price || better_price(side, levels[0].price, fill_best_levels(levels, f)[0].price)),
{
    let new = fill_best_levels(levels, f);
    let l = levels[0];
    let o = l.orders[0];
    if o.remaining_quantity.0 == f {
        if l.orders.len() == 1 {
            // the level leaves the side
            assert(new == levels.drop_first());
            assert(forall|i: int| 0 <= i < new.len() ==> #[trigger] new[i] == levels[i + 1]);
            lemma_level_count_parts(levels);
            assert forall|i: int, k: int|
                0 <= i < new.len() && 0 <= k < new[i].orders.len() implies side_has_static(
                levels,
                #[trigger] new[i].orders[k],
            ) by {
                assert(levels[i + 1].orders[k] == new[i].orders[k]);
                assert(same_static(levels[i + 1].orders[k], new[i].orders[k]));
            }
            assert forall|i: int, k: int|
                0 <= i < new.len() && 0 <= k < new[i].orders.len() implies (#[trigger] new[i].orders[k]).order_id != o.order_id by {
                assert(new[i].orders[k] == levels[i + 1].orders[k]);
            }
            assert forall|p2: Price, id2: OrderId|
                #![trigger side_has_id(new, p2, id2)]
                #![trigger side_has_id(levels, p2, id2)]
                {
                    &&& (side_has_id(new, p2, id2) ==> side_has_id(levels, p2, id2))
                    &&& (side_has_id(levels, p2, id2) && !(p2 == levels[0].price && id2
                        == o.order_id) ==> side_has_id(new, p2, id2))
                } by {
                if side_has_id(new, p2, id2) {
                    let i = choose|i: int|
                        0 <= i < new.len() && (#[trigger] new[i]).price == p2 && has_id(
                            new[i].orders,
                            id2,
                        );
                    assert(levels[i + 1].price == p2 && has_id(levels[i + 1].orders, id2));
                    assert(side_has_id(levels, p2, id2));
                }
                if side_has_id(levels, p2, id2) && !(p2 == levels[0].price && id2 == o.order_id) {
                    let i = choose|i: int|
                        0 <= i < levels.len() && (#[trigger] levels[i]).price == p2 && has_id(
                            levels[i].orders,
                            id2,
                        );
                    if i == 0 {
                        let k = choose|k: int|
                            0 <= k < l.orders.len() && (#[trigger] l.orders[k]).order_id == id2;
                        assert(k == 0);
                        assert(id2 == o.order_id && p2 == levels[0].price);
                        assert(false);
                    } else {
                        assert(new[i - 1] == levels[i]);
                        assert(side_has_id(new, p2, id2));
                    }
                }
            }
            if new.len() > 0 {
                assert(new[0] == levels[1]);
                assert(better_price(side, levels[0].price, levels[1].price));
            }
        } else {
            // the head leaves its queue
            let q2 = l.orders.drop_first();
            let l2 = LevelModel { price: l.price, orders: q2 };
            assert(new == levels.update(0, l2));
            assert(forall|k: int| 0 <= k < q2.len() ==> #[trigger] q2[k] == l.orders[k + 1]);
            lemma_level_count_update0(levels, l2);
            assert(level_wf(l, side));
            assert(level_wf(l2, side)) by {
                assert forall|k1: int, k2: int|
                    0 <= k1 < k2 < q2.len() implies (#[trigger] q2[k1]).order_id != (
                #[trigger] q2[k2]).order_id by {
                    assert(q2[k1] == l.orders[k1 + 1]);
                    assert(q2[k2] == l.orders[k2 + 1]);
                }
            }
            assert forall|i: int, k: int|
                0 <= i < new.len() && 0 <= k < new[i].orders.len() implies side_has_static(
                levels,
                #[trigger] new[i].orders[k],
            ) by {
                if i == 0 {
                    assert(new[i].orders[k] == l.orders[k + 1]);
                    assert(same_static(levels[0].orders[k + 1], new[i].orders[k]));
                } else {
                    assert(new[i].orders[k] == levels[i].orders[k]);
                    assert(same_static(levels[i].orders[k], new[i].orders[k]));
                }
            }
            assert forall|i: int, k: int|
                0 <= i < new.len() && 0 <= k < new[i].orders.len() implies (#[trigger] new[i].orders[k]).order_id != o.order_id by {
                if i == 0 {
                    assert(new[i].orders[k] == l.orders[k + 1]);
                } else {
                    assert(new[i].orders[k] == levels[i].orders[k]);
                }
            }
            assert forall|p2: Price, id2: OrderId|
                #![trigger side_has_id(new, p2, id2)]
                #![trigger side_has_id(levels, p2, id2)]
                {
                    &&& (side_has_id(new, p2, id2) ==> side_has_id(levels, p2, id2))
                    &&& (side_has_id(levels, p2, id2) && !(p2 == levels[0].price && id2
                        == o.order_id) ==> side_has_id(new, p2, id2))
                } by {
                if side_has_id(new, p2, id2) {
                    let i = choose|i: int|
                        0 <= i < new.len() && (#[trigger] new[i]).price == p2 && has_id(
                            new[i].orders,
                            id2,
                        );
                    if i == 0 {
                        let k = choose|k: int|
                            0 <= k < q2.len() && (#[trigger] q2[k]).order_id == id2;
                        assert(q2[k] == l.orders[k + 1]);
                        assert(has_id(l.orders, id2)) by {
                            assert((l.orders[k + 1]).order_id == id2);
                        }
                        assert(side_has_id(levels, p2, id2));
                    } else {
                        assert(side_has_id(levels, p2, id2));
                    }
                }
                if side_has_id(levels, p2, id2) && !(p2 == levels[0].price && id2 == o.order_id) {
                    let i = choose|i: int|
                        0 <= i < levels.len() && (#[trigger] levels[i]).price == p2 && has_id(
                            levels[i].orders,
                            id2,
                        );
                    if i == 0 {
                        let k = choose|k: int|
                            0 <= k < l.orders.len() && (#[trigger] l.orders[k]).order_id == id2;
                        assert(k != 0);
                        assert(q2[k - 1] == l.orders[k]);
                        assert(has_id(q2, id2)) by {
                            assert((q2[k - 1]).order_id == id2);
                        }
                        assert(new[0].price == p2);
                        assert(side_has_id(new, p2, id2));
                    } else {
                        assert(new[i] == levels[i]);
                        assert(side_has_id(new, p2, id2));
                    }
                }
            }
            assert(new[0].price == levels[0].price);
        }
    } else {
        // the head shrinks in place
        let o2 = Order {
            order_id: o.order_id,
            order_type: o.order_type,
            side: o.side,
            price: o.price,
            initial_quantity: o.initial_quantity,
            remaining_quantity: Quantity((o.remaining_quantity.0 - f) as u32),
        };
        let q2 = l.orders.update(0, o2);
        let l2 = LevelModel { price: l.price, orders: q2 };
        assert(new == levels.update(0, l2));
        assert(forall|k: int| 1 <= k < q2.len() ==> #[trigger] q2[k] == l.orders[k]);
        assert(q2[0] == o2);
        lemma_level_count_update0(levels, l2);
        assert(level_wf(l, side));
        assert(level_wf(l2, side)) by {
            assert forall|k1: int, k2: int|
                0 <= k1 < k2 < q2.len() implies (#[trigger] q2[k1]).order_id != (
            #[trigger] q2[k2]).order_id by {
                assert(q2[k1].order_id == l.orders[k1].order_id);
                assert(q2[k2].order_id == l.orders[k2].order_id);
            }
        }
        assert forall|i: int, k: int|
            0 <= i < new.len() && 0 <= k < new[i].orders.len() implies side_has_static(
            levels,
            #[trigger] new[i].orders[k],
        ) by {
            if i == 0 && k == 0 {
                assert(same_static(levels[0].orders[0], new[i].orders[k]));
            } else if i == 0 {
                assert(new[i].orders[k] == l.orders[k]);
                assert(same_static(levels[0].orders[k], new[i].orders[k]));
            } else {
                assert(new[i].orders[k] == levels[i].orders[k]);
                assert(same_static(levels[i].orders[k], new[i].orders[k]));
            }
        }
        assert forall|p2: Price, id2: OrderId|
            #![trigger side_has_id(new, p2, id2)]
            #![trigger side_has_id(levels, p2, id2)]
            {
                &&& (side_has_id(new, p2, id2) ==> side_has_id(levels, p2, id2))
                &&& (side_has_id(levels, p2, id2) && !(p2 == levels[0].price && id2 == o.order_id)
                    ==> side_has_id(new, p2, id2))
            } by {
            if side_has_id(new, p2, id2) {
                let i = choose|i: int|
                    0 <= i < new.len() && (#[trigger] new[i]).price == p2 && has_id(
                        new[i].orders,
                        id2,
                    );
                if i == 0 {
                    let k = choose|k: int| 0 <= k < q2.len() && (#[trigger] q2[k]).order_id == id2;
                    assert(q2[k].order_id == l.orders[k].order_id);
                    assert(has_id(l.orders, id2)) by {
                        assert((l.orders[k]).order_id == id2);
                    }
                    assert(side_has_id(levels, p2, id2));
                } else {
                    assert(side_has_id(levels, p2, id2));
                }
            }
            if side_has_id(levels, p2, id2) {
                let i = choose|i: int|
                    0 <= i < levels.len() && (#[trigger] levels[i]).price == p2 && has_id(
                        levels[i].orders,
                        id2,
                    );
                if i == 0 {
                    let k = choose|k: int|
                        0 <= k < l.orders.len() && (#[trigger] l.orders[k]).order_id == id2;
                    assert(q2[k].order_id == l.orders[k].order_id);
                    assert(has_id(q2, id2)) by {
                        assert((q2[k]).order_id == id2);
                    }
                    assert(new[0].price == p2);
                    assert(side_has_id(new, p2, id2));
                } else {
                    assert(new[i] == levels[i]);
                    assert(side_has_id(new, p2, id2));
                }
            }
        }
        assert(new[0].price == levels[0].price);
    }
}

/// Removing an id from a unique-id index keeps every other entry findable
/// and keeps ids unique.
proof fn lemma_remove_id_keeps(index: Seq<Order>, id: OrderId)
    requires
        ids_unique(index),
    ensures
        ids_unique(remove_id(index, id)),
        forall|o: Order|
            #![trigger index_has_like(remove_id(index, id), o)]
            #![trigger index_has_like(index, o)]
            {
                &&& (index_has_like(remove_id(index, id), o) ==> index_has_like(index, o))
                &&& (index_has_like(index, o) && o.order_id != id ==> index_has_like(
                    remove_id(index, id),
                    o,
                ))
            },
        forall|n: int|
            0 <= n < remove_id(index, id).len() ==> (#[trigger] remove_id(index, id)[n]).order_id
                != id,
        forall|n: int|
            0 <= n < remove_id(index, id).len() ==> exists|n2: int|
                0 <= n2 < index.len() && index[n2] == (#[trigger] remove_id(index, id)[n]),
{
    crate::order::lemma_find_id(index, id);
    let new = remove_id(index, id);
    if !has_id(index, id) {
        assert forall|n: int| 0 <= n < new.len() implies (#[trigger] new[n]).order_id != id by {
            if new[n].order_id == id {
                assert(has_id(index, id));
            }
        }
        assert forall|n: int| 0 <= n < new.len() implies exists|n2: int|
            0 <= n2 < index.len() && index[n2] == (#[trigger] new[n]) by {
            assert(index[n] == new[n]);
        }
    } else {
        let fi = find_id(index, id);
        lemma_remove_id_props(index, id);
        assert forall|n: int| 0 <= n < new.len() implies (#[trigger] new[n]).order_id != id by {
            let a: int = if n < fi { n } else { n + 1 };
            assert(new[n] == index[a]);
            if a != fi && index[a].order_id == id {
                assert(index[fi].order_id == id);
                assert(false);
            }
        }
        assert forall|n: int| 0 <= n < new.len() implies exists|n2: int|
            0 <= n2 < index.len() && index[n2] == (#[trigger] new[n]) by {
            let a: int = if n < fi { n } else { n + 1 };
            assert(index[a] == new[n]);
        }
        assert forall|n1: int, n2: int| 0 <= n1 < n2 < new.len() implies (#[trigger] new[n1]).order_id != (#[trigger] new[n2]).order_id by {
            let a: int = if n1 < fi { n1 } else { n1 + 1 };
            let c: int = if n2 < fi { n2 } else { n2 + 1 };
            assert(new[n1] == index[a]);
            assert(new[n2] == index[c]);
        }
        assert forall|o: Order|
            #![trigger index_has_like(new, o)]
            #![trigger index_has_like(index, o)]
            {
                &&& (index_has_like(new, o) ==> index_has_like(index, o))
                &&& (index_has_like(index, o) && o.order_id != id ==> index_has_like(new, o))
            } by {
            if index_has_like(new, o) {
                let n = choose|n: int| 0 <= n < new.len() && same_static(#[trigger] new[n], o);
                let a: int = if n < fi { n } else { n + 1 };
                assert(same_static(index[a], o));
            }
            if index_has_like(index, o) && o.order_id != id {
                let n = choose|n: int| 0 <= n < index.len() && same_static(#[trigger] index[n], o);
                assert(n != fi);
                let a: int = if n < fi { n } else { n - 1 };
                assert(new[a] == index[n]);
                assert(same_static(new[a], o));
            }
        }
    }
}

/// One matching step preserves the book invariant and strictly shrinks the
/// book: the side whose head had the smaller remaining quantity loses that
/// order.
#[verifier::rlimit(100)]
pub proof fn lemma_step_wf(b: BookModel)
    requires
        book_wf(b),
        can_step(b),
    ensures
        book_wf(match_step(b)),
        order_count(match_step(b)) < order_count(b),
        match_step(b).trades == b.trades.push(step_trade(b)),
{
    let f = step_fill(b).0;
    let bo = b.bids[0].orders[0];
    let ao = b.asks[0].orders[0];
    let m = match_step(b);
    lemma_book_ids_distinct(b);
    assert(bo.order_id != ao.order_id);
    lemma_fill_best_side_props(b.bids, Side::Buy, f);
    lemma_fill_best_side_props(b.asks, Side::Sell, f);
    let index1 = fill_best_index(b.bids, b.index, f);
    let index2 = fill_best_index(b.asks, index1, f);
    lemma_remove_id_keeps(b.index, bo.order_id);
    assert(ids_unique(index1));
    lemma_remove_id_keeps(index1, ao.order_id);
    assert(ids_unique(index2));
    // statically-agreeing index entries survive for every order that stays
    assert forall|i: int, k: int|
        0 <= i < m.bids.len() && 0 <= k < m.bids[i].orders.len() implies index_has_like(
        m.index,
        #[trigger] m.bids[i].orders[k],
    ) by {
        let oo = m.bids[i].orders[k];
        assert(side_has_static(b.bids, oo));
        let (i2, k2) = choose|i2: int, k2: int|
            0 <= i2 < b.bids.len() && 0 <= k2 < b.bids[i2].orders.len() && same_static(
                #[trigger] b.bids[i2].orders[k2],
                oo,
            );
        assert(index_has_like(b.index, b.bids[i2].orders[k2]));
        assert(index_has_like(b.index, oo)) by {
            let n = choose|n: int|
                0 <= n < b.index.len() && same_static(#[trigger] b.index[n], b.bids[i2].orders[k2]);
            assert(same_static(b.index[n], oo));
        }
        assert(oo.order_id != ao.order_id) by {
            assert(b.bids[i2].orders[k2].order_id == oo.order_id);
        }
        if bo.remaining_quantity.0 == f {
            assert(oo.order_id != bo.order_id);
            assert(index_has_like(index1, oo));
            assert(index_has_like(index2, oo));
        } else {
            assert(index1 == b.index);
            assert(index_has_like(index2, oo));
        }
    }
    assert forall|i: int, k: int|
        0 <= i < m.asks.len() && 0 <= k < m.asks[i].orders.len() implies index_has_like(
        m.index,
        #[trigger] m.asks[i].orders[k],
    ) by {
        let oo = m.asks[i].orders[k];
        assert(side_has_static(b.asks, oo));
        let (i2, k2) = choose|i2: int, k2: int|
            0 <= i2 < b.asks.len() && 0 <= k2 < b.asks[i2].orders.len() && same_static(
                #[trigger] b.asks[i2].orders[k2],
                oo,
            );
        assert(index_has_like(b.index, b.asks[i2].orders[k2]));
        assert(index_has_like(b.index, oo)) by {
            let n = choose|n: int|
                0 <= n < b.index.len() && same_static(#[trigger] b.index[n], b.asks[i2].orders[k2]);
            assert(same_static(b.index[n], oo));
        }
        assert(oo.order_id != bo.order_id) by {
            assert(b.asks[i2].orders[k2].order_id == oo.order_id);
        }
        if ao.remaining_quantity.0 == f {
            assert(oo.order_id != ao.order_id);
            assert(index_has_like(index1, oo));
            assert(index_has_like(index2, oo));
        } else {
            assert(index2 == index1);
            assert(index_has_like(index1, oo));
        }
    }
    // every surviving index entry still rests in its level
    assert forall|n: int| 0 <= n < m.index.len() implies {
        let e = #[trigger] m.index[n];
        match e.side {
            Side::Buy => side_has_id(m.bids, e.price, e.order_id),
            Side::Sell => side_has_id(m.asks, e.price, e.order_id),
        }
    } by {
        let e = m.index[n];
        assert(exists|n2: int| 0 <= n2 < index1.len() && (#[trigger] index1[n2]) == e);
        let n1 = choose|n2: int| 0 <= n2 < index1.len() && (#[trigger] index1[n2]) == e;
        assert(exists|n2: int| 0 <= n2 < b.index.len() && (#[trigger] b.index[n2]) == e);
        let n0 = choose|n2: int| 0 <= n2 < b.index.len() && (#[trigger] b.index[n2]) == e;
        if ao.remaining_quantity.0 == f {
            assert(e.order_id != ao.order_id);
        }
        if bo.remaining_quantity.0 == f {
            assert(e.order_id != bo.order_id);
        }
        if e.side is Buy {
            assert(side_has_id(b.bids, e.price, e.order_id));
            if e.order_id == bo.order_id {
                // the bid head survives only partially filled, in place
                assert(bo.remaining_quantity.0 != f);
                assert(side_has_id(m.bids, e.price, e.order_id)) by {
                    let i = choose|i: int|
                        0 <= i < b.bids.len() && (#[trigger] b.bids[i]).price == e.price && has_id(
                            b.bids[i].orders,
                            e.order_id,
                        );
                    if i == 0 {
                        assert(has_id(m.bids[0].orders, e.order_id)) by {
                            assert((m.bids[0].orders[0]).order_id == e.order_id);
                        }
                        assert(m.bids[0].price == e.price);
                    } else {
                        assert(m.bids[i] == b.bids[i]);
                    }
                }
            } else {
                assert(!(e.price == b.bids[0].price && e.order_id == bo.order_id));
                assert(side_has_id(m.bids, e.price, e.order_id));
            }
        } else {
            assert(side_has_id(b.asks, e.price, e.order_id));
            if e.order_id == ao.order_id {
                assert(ao.remaining_quantity.0 != f);
                assert(side_has_id(m.asks, e.price, e.order_id)) by {
                    let i = choose|i: int|
                        0 <= i < b.asks.len() && (#[trigger] b.asks[i]).price == e.price && has_id(
                            b.asks[i].orders,
                            e.order_id,
                        );
                    if i == 0 {
                        assert(has_id(m.asks[0].orders, e.order_id)) by {
                            assert((m.asks[0].orders[0]).order_id == e.order_id);
                        }
                        assert(m.asks[0].price == e.price);
                    } else {
                        assert(m.asks[i] == b.asks[i]);
                    }
                }
            } else {
                assert(!(e.price == b.asks[0].price && e.order_id == ao.order_id));
                assert(side_has_id(m.asks, e.price, e.order_id));
            }
        }
    }
    // at least one head is fully filled, so the count strictly shrinks
    assert(bo.remaining_quantity.0 == f || ao.remaining_quantity.0 == f);
}

/// The matching loop ends in a well-formed book that no step can act on:
/// the best prices no longer cross or a side is exhausted.
pub proof fn lemma_match_rec_props(b: BookModel)
    requires
        book_wf(b),
    ensures
        book_wf(match_rec(b)),
        !crossed(match_rec(b)),
    decreases order_count(b),
{
    if can_step(b) {
        lemma_step_wf(b);
        lemma_match_rec_props(match_step(b));
    } else {
        assert(match_rec(b) == b);
        if crossed(b) {
            assert(level_wf(b.bids[0], Side::Buy));
            assert(level_wf(b.asks[0], Side::Sell));
            assert(can_step(b));
            assert(false);
        }
    }
}

/// Cancelling never improves a side's best price.
proof fn lemma_side_delete_best(levels: Seq<LevelModel>, side: Side, price: Price, id: OrderId)
    requires
        side_wf(levels, side),
    ensures
        side_delete(levels, price, id).len() > 0 ==> (side_delete(levels, price, id)[0].price
            == levels[0].price || better_price(
            side,
            levels[0].price,
            side_delete(levels, price, id)[0].price,
        )),
        side_delete(levels, price, id).len() <= levels.len(),
{
    lemma_find_price(levels, price);
    let new = side_delete(levels, price, id);
    if has_price(levels, price) {
        let li = find_price(levels, price);
        let q2 = remove_id(levels[li].orders, id);
        if has_id(levels[li].orders, id) {
            lemma_remove_id_props(levels[li].orders, id);
        }
        if q2.len() == 0 {
            if li == 0 && new.len() > 0 {
                assert(new[0] == levels[1]);
                assert(better_price(side, levels[0].price, levels[1].price));
            }
            if li > 0 && new.len() > 0 {
                assert(new[0] == levels[0]);
            }
        } else {
            if li == 0 {
                assert(new[0].price == levels[0].price);
            } else {
                assert(new[0] == levels[0]);
            }
        }
    }
}

/// Cancelling cannot cross an uncrossed book.
proof fn lemma_cancel_uncrossed(b: BookModel, id: OrderId)
    requires
        book_wf(b),
        !crossed(b),
    ensures
        !crossed(cancel_spec(b, id)),
{
    if has_id(b.index, id) {
        crate::order::lemma_find_id(b.index, id);
        let o = b.index[find_id(b.index, id)];
        match o.side {
            Side::Buy => {
                lemma_side_delete_best(b.bids, Side::Buy, o.price, id);
            },
            Side::Sell => {
                lemma_side_delete_best(b.asks, Side::Sell, o.price, id);
            },
        }
    }
}

/// The book after cancelling each id of `ids`, left to right.
pub open spec fn cancel_seq(b: BookModel, ids: Seq<OrderId>) -> BookModel
    decreases ids.len(),
{
    if ids.len() == 0 {
        b
    } else {
        cancel_seq(cancel_spec(b, ids[0]), ids.drop_first())
    }
}

/// A cancel sequence keeps the invariant, keeps the book uncrossed, and
/// touches no trade.
pub proof fn lemma_cancel_seq_props(b: BookModel, ids: Seq<OrderId>)
    requires
        book_wf(b),
    ensures
        book_wf(cancel_seq(b, ids)),
        !crossed(b) ==> !crossed(cancel_seq(b, ids)),
        cancel_seq(b, ids).trades == b.trades,
    decreases ids.len(),
{
    if ids.len() > 0 {
        lemma_cancel_wf(b, ids[0]);
        if !crossed(b) {
            lemma_cancel_uncrossed(b, ids[0]);
        }
        if has_id(b.index, ids[0]) {
            crate::order::lemma_find_id(b.index, ids[0]);
        }
        assert(cancel_spec(b, ids[0]).trades == b.trades);
        lemma_cancel_seq_props(cancel_spec(b, ids[0]), ids.drop_first());
    }
}

/// Cancelling one more id continues the sequence.
proof fn lemma_cancel_seq_push(b: BookModel, ids: Seq<OrderId>, x: OrderId)
    ensures
        cancel_seq(b, ids.push(x)) == cancel_spec(cancel_seq(b, ids), x),
    decreases ids.len(),
{
    let p = ids.push(x);
    if ids.len() == 0 {
        assert(p[0] == x);
        assert(p.drop_first() =~= Seq::<OrderId>::empty());
        assert(cancel_seq(b, p) == cancel_seq(cancel_spec(b, x), p.drop_first()));
        assert(cancel_seq(cancel_spec(b, x), p.drop_first()) == cancel_spec(b, x));
        assert(cancel_seq(b, ids) == b);
    } else {
        assert(p[0] == ids[0]);
        assert(p.drop_first() =~= ids.drop_first().push(x));
        assert(cancel_seq(b, p) == cancel_seq(cancel_spec(b, ids[0]), p.drop_first()));
        lemma_cancel_seq_push(cancel_spec(b, ids[0]), ids.drop_first(), x);
        assert(cancel_seq(cancel_spec(b, ids[0]), ids.drop_first().push(x)) == cancel_spec(
            cancel_seq(cancel_spec(b, ids[0]), ids.drop_first()),
            x,
        ));
        assert(cancel_seq(b, ids) == cancel_seq(cancel_spec(b, ids[0]), ids.drop_first()));
    }
}

/// Whether an order type carries immediate-or-cancel semantics: any
/// unmatched remainder after a matching pass is cancelled.
pub open spec fn is_immediate(t: OrderType) -> bool {
    t is FillAndKill || t is Market
}

/// The ids of the immediate-or-cancel orders of a queue, front first.
pub open spec fn fak_ids(q: Seq<Order>) -> Seq<OrderId>
    decreases q.len(),
{
    if q.len() == 0 {
        Seq::empty()
    } else {
        let rest = fak_ids(q.drop_last());
        if is_immediate(q.last().order_type) {
            rest.push(q.last().order_id)
        } else {
            rest
        }
    }
}

proof fn lemma_fak_ids_take(q: Seq<Order>, upto: int)
    requires
        0 <= upto < q.len(),
    ensures
        fak_ids(q.take(upto + 1)) == if is_immediate(q[upto].order_type) {
            fak_ids(q.take(upto)).push(q[upto].order_id)
        } else {
            fak_ids(q.take(upto))
        },
{
    let t = q.take(upto + 1);
    assert(t.drop_last() =~= q.take(upto));
    assert(t.last() == q[upto]);
}

/// The ids the post-match sweep cancels: the immediate-or-cancel orders at
/// the best remaining bid level and the best remaining ask level. Any such
/// order with leftover quantity after the loop can only sit there.
pub open spec fn sweep_ids(b: BookModel) -> Seq<OrderId> {
    (if b.bids.len() > 0 {
        fak_ids(b.bids[0].orders)
    } else {
        Seq::empty()
    }) + (if b.asks.len() > 0 {
        fak_ids(b.asks[0].orders)
    } else {
        Seq::empty()
    })
}

/// The whole matching pass: run the loop until the best prices no longer
/// cross, then cancel the immediate-or-cancel remainders at the top of each
/// side.
pub open spec fn match_orders_spec(b: BookModel) -> BookModel {
    cancel_seq(match_rec(b), sweep_ids(match_rec(b)))
}

fn fill_best(levels: &mut Vec<Level>, index: &mut Orders, to_fill: u32)
    requires
        old(levels)@.len() > 0,
        side_model(old(levels)@)[0].orders.len() > 0,
        to_fill <= side_model(old(levels)@)[0].orders[0].remaining_quantity.0,
    ensures
        side_model(final(levels)@) == fill_best_levels(side_model(old(levels)@), to_fill),
        final(index)@ == fill_best_index(side_model(old(levels)@), old(index)@, to_fill),
{
    let ghost m = side_model(levels@);
    let mut lvl = levels.remove(0);
    proof {
        assert(lvl@ == m[0]);
    }
    let head = *lvl.orders.at(0);
    if head.remaining_quantity.0 == to_fill {
        let _ = lvl.orders.pop();
        index.delete(head.order_id);
        if !lvl.orders.is_empty() {
            levels.insert(0, lvl);
            proof {
                assert(side_model(levels@) =~= fill_best_levels(m, to_fill));
            }
        } else {
            proof {
                assert(side_model(levels@) =~= fill_best_levels(m, to_fill));
            }
        }
    } else {
        lvl.orders.update_quantity(
            head.order_id,
            Quantity(head.remaining_quantity.0 - to_fill),
        );
        proof {
            assert(crate::order::find_id(m[0].orders, head.order_id) == 0);
            assert(lvl.orders@ =~= m[0].orders.update(
                0,
                Order {
                    order_id: head.order_id,
                    order_type: head.order_type,
                    side: head.side,
                    price: head.price,
                    initial_quantity: head.initial_quantity,
                    remaining_quantity: Quantity((head.remaining_quantity.0 - to_fill) as u32),
                },
            ));
        }
        levels.insert(0, lvl);
        proof {
            assert(side_model(levels@) =~= fill_best_levels(m, to_fill));
        }
    }
}

fn collect_immediate_ids(levels: &Vec<Level>) -> (r: Vec<OrderId>)
    ensures
        r@ == if side_model(levels@).len() > 0 {
            fak_ids(side_model(levels@)[0].orders)
        } else {
            Seq::<OrderId>::empty()
        },
{
    let mut out: Vec<OrderId> = Vec::new();
    if levels.len() == 0 {
        return out;
    }
    let q = &levels[0].orders;
    proof {
        assert(q@ == side_model(levels@)[0].orders);
        assert(q@.take(0) =~= Seq::<Order>::empty());
    }
    let n = q.len();
    let mut k: usize = 0;
    while k < n
        invariant
            n == q@.len(),
            k <= n,
            q@ == side_model(levels@)[0].orders,
            side_model(levels@).len() > 0,
            out@ == fak_ids(q@.take(k as int)),
        decreases n - k,
    {
        proof {
            lemma_fak_ids_take(q@, k as int);
        }
        let o = *q.at(k);
        if o.order_type == OrderType::FillAndKill || o.order_type == OrderType::Market {
            out.push(o.order_id);
        }
        k = k + 1;
    }
    proof {
        assert(q@.take(n as int) =~= q@);
    }
    out
}

impl Orderbook {
    /// Runs the matching pass to completion: while the best bid and best ask
    /// cross, the two head orders fill each other by the smaller remaining
    /// quantity and one trade is recorded, fully filled orders and emptied
    /// levels being evicted; afterwards the unmatched immediate-or-cancel
    /// remainders at the top of each side are cancelled. The book is never
    /// left crossed.
    pub fn match_orders(&mut self)
        requires
            old(self).wf(),
        ensures
            final(self).wf(),
            final(self)@ == match_orders_spec(old(self)@),
            !crossed(final(self)@),
    {
        while self.bids.len() > 0 && self.asks.len() > 0 && self.bids[0].price.0
            >= self.asks[0].price.0
            invariant
                self.wf(),
                match_rec(self@) == match_rec(old(self)@),
            decreases order_count(self@),
        {
            let ghost pre = self@;
            proof {
                assert(level_wf(pre.bids[0], Side::Buy));
                assert(level_wf(pre.asks[0], Side::Sell));
                assert(can_step(pre));
                lemma_step_wf(pre);
                assert(self.bids@[0]@ == pre.bids[0]);
                assert(self.asks@[0]@ == pre.asks[0]);
            }
            let bid_head = *self.bids[0].orders.at(0);
            let ask_head = *self.asks[0].orders.at(0);
            let to_fill = if bid_head.remaining_quantity.0 <= ask_head.remaining_quantity.0 {
                bid_head.remaining_quantity.0
            } else {
                ask_head.remaining_quantity.0
            };
            let trade_price = if self.asks[0].price.0 == 0 {
                self.bids[0].price
            } else {
                self.asks[0].price
            };
            let trade = Trade {
                bid_trade: TradeInfo {
                    order_id: bid_head.order_id,
                    price: trade_price,
                    quantity: Quantity(to_fill),
                },
                ask_trade: TradeInfo {
                    order_id: ask_head.order_id,
                    price: trade_price,
                    quantity: Quantity(to_fill),
                },
            };
            proof {
                assert(trade == step_trade(pre));
            }
            fill_best(&mut self.bids, &mut self.orders, to_fill);
            fill_best(&mut self.asks, &mut self.orders, to_fill);
            self.trades.push(trade);
            proof {
                assert(self@ =~= match_step(pre));
                assert(match_rec(pre) == match_rec(match_step(pre)));
            }
        }
        proof {
            assert(!crossed(self@));
            assert(match_rec(self@) == self@);
        }
        // cancel the unmatched immediate-or-cancel remainders at the top of
        // the best remaining levels
        let ghost mid = self@;
        let mut ids = collect_immediate_ids(&self.bids);
        let mut ask_ids = collect_immediate_ids(&self.asks);
        ids.append(&mut ask_ids);
        proof {
            assert(ids@ =~= sweep_ids(mid));
            lemma_cancel_seq_props(mid, sweep_ids(mid));
            assert(ids@.take(0) =~= Seq::<OrderId>::empty());
        }
        let n = ids.len();
        let mut j: usize = 0;
        while j < n
            invariant
                self.wf(),
                n == ids@.len(),
                j <= n,
                book_wf(mid),
                !crossed(mid),
                self@ == cancel_seq(mid, ids@.take(j as int)),
            decreases n - j,
        {
            proof {
                lemma_cancel_seq_props(mid, ids@.take(j as int));
                lemma_cancel_seq_push(mid, ids@.take(j as int), ids@[j as int]);
                assert(ids@.take(j + 1 as int) =~= ids@.take(j as int).push(ids@[j as int]));
                if !has_id(self@.index, ids@[j as int]) {
                    assert(cancel_spec(self@, ids@[j as int]) == self@);
                }
            }
            let _ = self.cancel_order(ids[j]);
            j = j + 1;
        }
        proof {
            assert(ids@.take(n as int) =~= ids@);
            lemma_cancel_seq_props(mid, sweep_ids(mid));
            assert(self@ == match_orders_spec(old(self)@));
        }
    }
}

/// Whether `ids` lists `id`.
pub open spec fn ids_contain(ids: Seq<OrderId>, id: OrderId) -> bool {
    exists|j: int| 0 <= j < ids.len() && ids[j] == id
}

/// The ids of the day-bound orders among `s`, in order.
pub open spec fn gfd_ids(s: Seq<Order>) -> Seq<OrderId>
    decreases s.len(),
{
    if s.len() == 0 {
        Seq::empty()
    } else {
        let rest = gfd_ids(s.drop_last());
        if s.last().order_type is GoodForDay {
            rest.push(s.last().order_id)
        } else {
            rest
        }
    }
}

/// `b` with every day-bound order cancelled through the normal cancel path.
pub open spec fn prune_spec(b: BookModel) -> BookModel {
    cancel_seq(b, gfd_ids(b.index))
}

proof fn lemma_gfd_ids_take(s: Seq<Order>, upto: int)
    requires
        0 <= upto < s.len(),
    ensures
        gfd_ids(s.take(upto + 1)) == if s[upto].order_type is GoodForDay {
            gfd_ids(s.take(upto)).push(s[upto].order_id)
        } else {
            gfd_ids(s.take(upto))
        },
{
    let t = s.take(upto + 1);
    assert(t.drop_last() =~= s.take(upto));
    assert(t.last() == s[upto]);
}

/// Every day-bound entry's id is listed.
proof fn lemma_gfd_ids_complete(s: Seq<Order>)
    ensures
        forall|n: int|
            0 <= n < s.len() && (#[trigger] s[n]).order_type is GoodForDay ==> ids_contain(
                gfd_ids(s),
                s[n].order_id,
            ),
    decreases s.len(),
{
    if s.len() > 0 {
        let t = s.drop_last();
        lemma_gfd_ids_complete(t);
        assert(forall|n: int| 0 <= n < t.len() ==> #[trigger] t[n] == s[n]);
        assert forall|n: int|
            0 <= n < s.len() && (#[trigger] s[n]).order_type is GoodForDay implies ids_contain(
            gfd_ids(s),
            s[n].order_id,
        ) by {
            if n == s.len() - 1 {
                assert(gfd_ids(s)[gfd_ids(s).len() - 1] == s[n].order_id);
            } else {
                assert(t[n] == s[n]);
                assert(ids_contain(gfd_ids(t), s[n].order_id));
                let j = choose|j: int| 0 <= j < gfd_ids(t).len() && gfd_ids(t)[j] == s[n].order_id;
                assert(gfd_ids(s)[j] == s[n].order_id) by {
                    if s.last().order_type is GoodForDay {
                        assert(gfd_ids(s) == gfd_ids(t).push(s.last().order_id));
                    } else {
                        assert(gfd_ids(s) == gfd_ids(t));
                    }
                }
            }
        }
    }
}

/// Whether a day-bound entry of `s` carries `id`.
pub open spec fn gfd_entry_with_id(s: Seq<Order>, id: OrderId) -> bool {
    exists|n: int|
        0 <= n < s.len() && (#[trigger] s[n]).order_type is GoodForDay && s[n].order_id == id
}

/// Every listed id belongs to a day-bound entry.
proof fn lemma_gfd_ids_members(s: Seq<Order>)
    ensures
        forall|j: int|
            0 <= j < gfd_ids(s).len() ==> gfd_entry_with_id(s, #[trigger] gfd_ids(s)[j]),
    decreases s.len(),
{
    if s.len() > 0 {
        let t = s.drop_last();
        lemma_gfd_ids_members(t);
        assert(forall|n: int| 0 <= n < t.len() ==> #[trigger] t[n] == s[n]);
        assert forall|j: int| 0 <= j < gfd_ids(s).len() implies gfd_entry_with_id(
            s,
            #[trigger] gfd_ids(s)[j],
        ) by {
            if s.last().order_type is GoodForDay && j == gfd_ids(t).len() {
                assert(gfd_ids(s) == gfd_ids(t).push(s.last().order_id));
                let w: int = s.len() - 1;
                assert(s[w].order_type is GoodForDay && s[w].order_id == gfd_ids(s)[j]);
            } else {
                assert(gfd_ids(s)[j] == gfd_ids(t)[j]) by {
                    if s.last().order_type is GoodForDay {
                        assert(gfd_ids(s) == gfd_ids(t).push(s.last().order_id));
                    } else {
                        assert(gfd_ids(s) == gfd_ids(t));
                    }
                }
                assert(gfd_entry_with_id(t, gfd_ids(t)[j]));
                let n = choose|n: int|
                    0 <= n < t.len() && (#[trigger] t[n]).order_type is GoodForDay && t[n].order_id
                        == gfd_ids(t)[j];
                assert(t[n] == s[n]);
                assert(s[n].order_type is GoodForDay && s[n].order_id == gfd_ids(s)[j]);
            }
        }
    }
}

/// A list of day-bound ids is empty when nothing is day-bound.
proof fn lemma_gfd_ids_empty(s: Seq<Order>)
    requires
        forall|n: int| 0 <= n < s.len() ==> !((#[trigger] s[n]).order_type is GoodForDay),
    ensures
        gfd_ids(s) == Seq::<OrderId>::empty(),
    decreases s.len(),
{
    if s.len() > 0 {
        let t = s.drop_last();
        assert(forall|n: int| 0 <= n < t.len() ==> #[trigger] t[n] == s[n]);
        lemma_gfd_ids_empty(t);
    }
}

/// Whether `s` holds `e` itself as an entry.
pub open spec fn index_has_entry(s: Seq<Order>, e: Order) -> bool {
    exists|n: int| 0 <= n < s.len() && (#[trigger] s[n]) == e
}

/// An entry carrying another id survives the removal exactly.
proof fn lemma_remove_id_survivors(index: Seq<Order>, id: OrderId)
    ensures
        forall|n: int|
            0 <= n < index.len() && (#[trigger] index[n]).order_id != id ==> index_has_entry(
                remove_id(index, id),
                index[n],
            ),
{
    crate::order::lemma_find_id(index, id);
    let new = remove_id(index, id);
    if !has_id(index, id) {
        assert forall|n: int|
            0 <= n < index.len() && (#[trigger] index[n]).order_id != id implies index_has_entry(
            new,
            index[n],
        ) by {
            assert(new[n] == index[n]);
        }
    } else {
        let fi = find_id(index, id);
        lemma_remove_id_props(index, id);
        assert forall|n: int|
            0 <= n < index.len() && (#[trigger] index[n]).order_id != id implies index_has_entry(
            new,
            index[n],
        ) by {
            assert(n != fi);
            let a: int = if n < fi { n } else { n - 1 };
            assert(new[a] == index[n]);
        }
    }
}

/// After cancelling a list covering every day-bound id, none is live.
proof fn lemma_cancel_seq_removes_gfd(b: BookModel, ids: Seq<OrderId>)
    requires
        book_wf(b),
        forall|n: int|
            0 <= n < b.index.len() && (#[trigger] b.index[n]).order_type is GoodForDay
                ==> ids_contain(ids, b.index[n].order_id),
    ensures
        forall|n: int|
            0 <= n < cancel_seq(b, ids).index.len() ==> !((#[trigger] cancel_seq(b, ids).index[
                n
            ]).order_type is GoodForDay),
    decreases ids.len(),
{
    if ids.len() == 0 {
    } else {
        let b1 = cancel_spec(b, ids[0]);
        lemma_cancel_wf(b, ids[0]);
        if has_id(b.index, ids[0]) {
            crate::order::lemma_find_id(b.index, ids[0]);
            lemma_remove_id_keeps(b.index, ids[0]);
        }
        assert forall|n: int|
            0 <= n < b1.index.len() && (#[trigger] b1.index[n]).order_type is GoodForDay
                implies ids_contain(ids.drop_first(), b1.index[n].order_id) by {
            let e = b1.index[n];
            if has_id(b.index, ids[0]) {
                assert(e.order_id != ids[0]);
                let n2 = choose|n2: int| 0 <= n2 < b.index.len() && b.index[n2] == (#[trigger] remove_id(b.index, ids[0])[n]);
                assert(b.index[n2] == e);
                assert(ids_contain(ids, e.order_id));
                let j = choose|j: int| 0 <= j < ids.len() && ids[j] == e.order_id;
                assert(j != 0);
                assert(ids.drop_first()[j - 1] == e.order_id);
            } else {
                assert(b1 == b);
                assert(ids_contain(ids, e.order_id));
                let j = choose|j: int| 0 <= j < ids.len() && ids[j] == e.order_id;
                if j == 0 {
                    assert(has_id(b.index, ids[0])) by {
                        assert((b.index[n]).order_id == ids[0]);
                    }
                    assert(false);
                }
                assert(ids.drop_first()[j - 1] == e.order_id);
            }
        }
        lemma_cancel_seq_removes_gfd(b1, ids.drop_first());
    }
}

/// An entry whose id a cancel list never names survives it exactly.
proof fn lemma_cancel_seq_keeps(b: BookModel, ids: Seq<OrderId>)
    requires
        book_wf(b),
    ensures
        forall|n: int|
            0 <= n < b.index.len() && !ids_contain(ids, (#[trigger] b.index[n]).order_id)
                ==> index_has_entry(cancel_seq(b, ids).index, b.index[n]),
    decreases ids.len(),
{
    if ids.len() == 0 {
        assert forall|n: int|
            0 <= n < b.index.len() && !ids_contain(ids, (#[trigger] b.index[n]).order_id)
                implies index_has_entry(cancel_seq(b, ids).index, b.index[n]) by {
            assert(cancel_seq(b, ids).index[n] == b.index[n]);
        }
    } else {
        let b1 = cancel_spec(b, ids[0]);
        lemma_cancel_wf(b, ids[0]);
        if has_id(b.index, ids[0]) {
            crate::order::lemma_find_id(b.index, ids[0]);
            lemma_remove_id_survivors(b.index, ids[0]);
        }
        lemma_cancel_seq_keeps(b1, ids.drop_first());
        assert(cancel_seq(b, ids) == cancel_seq(b1, ids.drop_first()));
        assert forall|n: int|
            0 <= n < b.index.len() && !ids_contain(ids, (#[trigger] b.index[n]).order_id)
                implies index_has_entry(cancel_seq(b, ids).index, b.index[n]) by {
            let e = b.index[n];
            assert(e.order_id != ids[0]) by {
                if e.order_id == ids[0] {
                    assert(ids_contain(ids, e.order_id));
                }
            }
            assert(index_has_entry(b1.index, e)) by {
                if has_id(b.index, ids[0]) {
                    assert(b1.index == remove_id(b.index, ids[0]));
                } else {
                    assert(b1 == b);
                    assert(b1.index[n] == e);
                }
            }
            let m = choose|m: int| 0 <= m < b1.index.len() && (#[trigger] b1.index[m]) == e;
            assert(!ids_contain(ids.drop_first(), e.order_id)) by {
                if ids_contain(ids.drop_first(), e.order_id) {
                    let j = choose|j: int|
                        0 <= j < ids.drop_first().len() && ids.drop_first()[j] == e.order_id;
                    assert(ids[j + 1] == e.order_id);
                    assert(ids_contain(ids, e.order_id));
                }
            }
            assert(index_has_entry(cancel_seq(b1, ids.drop_first()).index, b1.index[m]));
        }
    }
}

fn is_gfd(o: &Order) -> (r: bool)
    ensures
        r == (o.order_type is GoodForDay),
{
    o.order_type == OrderType::GoodForDay
}

impl Orderbook {
    /// The ids of every live day-bound order, in index (arrival) order: what
    /// a day-boundary scan collects before cancelling each through the
    /// normal path.
    pub fn good_for_day_ids(&self) -> (r: Vec<OrderId>)
        ensures
            r@ == gfd_ids(self@.index),
    {
        let mut out: Vec<OrderId> = Vec::new();
        let n = self.orders.len();
        let mut k: usize = 0;
        proof {
            assert(self@.index.take(0) =~= Seq::<Order>::empty());
        }
        while k < n
            invariant
                n == self@.index.len(),
                k <= n,
                self@.index == self.orders@,
                out@ == gfd_ids(self@.index.take(k as int)),
            decreases n - k,
        {
            proof {
                lemma_gfd_ids_take(self@.index, k as int);
            }
            if is_gfd(self.orders.at(k)) {
                out.push(self.orders.at(k).order_id);
            }
            k = k + 1;
        }
        proof {
            assert(self@.index.take(n as int) =~= self@.index);
        }
        out
    }

    /// Expires the day-bound orders: collects every live good-for-day id and
    /// cancels each through the normal cancel path. All other orders and the
    /// trade ledger are untouched, and pruning twice is the same as pruning
    /// once.
    pub fn prune_good_for_day_orders(&mut self)
        requires
            old(self).wf(),
        ensures
            final(self).wf(),
            final(self)@ == prune_spec(old(self)@),
    {
        let ids = self.good_for_day_ids();
        let ghost b0 = self@;
        proof {
            assert(ids@.take(0) =~= Seq::<OrderId>::empty());
        }
        let n = ids.len();
        let mut j: usize = 0;
        while j < n
            invariant
                self.wf(),
                n == ids@.len(),
                j <= n,
                book_wf(b0),
                ids@ == gfd_ids(b0.index),
                self@ == cancel_seq(b0, ids@.take(j as int)),
            decreases n - j,
        {
            proof {
                lemma_cancel_seq_push(b0, ids@.take(j as int), ids@[j as int]);
                assert(ids@.take(j + 1 as int) =~= ids@.take(j as int).push(ids@[j as int]));
                if !has_id(self@.index, ids@[j as int]) {
                    assert(cancel_spec(self@, ids@[j as int]) == self@);
                }
            }
            let _ = self.cancel_order(ids[j]);
            j = j + 1;
        }
        proof {
            assert(ids@.take(n as int) =~= ids@);
        }
    }
}

/// Law: matching is price-time priority. A matching step trades between the
/// two orders at the heads of the best levels' FIFO queues — the
/// earliest-submitted at the best prices — and every later order resting at
/// the same price is left untouched by the step.
pub proof fn lemma_price_time_priority(b: BookModel)
    requires
        book_wf(b),
        can_step(b),
    ensures
        match_step(b).trades == b.trades.push(step_trade(b)),
        step_trade(b).bid_trade.order_id == b.bids[0].orders[0].order_id,
        step_trade(b).ask_trade.order_id == b.asks[0].orders[0].order_id,
        b.asks[0].orders.len() > 1 ==> {
            let na = match_step(b).asks;
            &&& na.len() > 0
            &&& na[0].price == b.asks[0].price
            &&& forall|k: int|
                1 <= k < b.asks[0].orders.len() ==> (#[trigger] b.asks[0].orders[k]) == (
                if b.asks[0].orders[0].remaining_quantity.0 == step_fill(b).0 {
                    na[0].orders[k - 1]
                } else {
                    na[0].orders[k]
                })
        },
        b.bids[0].orders.len() > 1 ==> {
            let nb = match_step(b).bids;
            &&& nb.len() > 0
            &&& nb[0].price == b.bids[0].price
            &&& forall|k: int|
                1 <= k < b.bids[0].orders.len() ==> (#[trigger] b.bids[0].orders[k]) == (
                if b.bids[0].orders[0].remaining_quantity.0 == step_fill(b).0 {
                    nb[0].orders[k - 1]
                } else {
                    nb[0].orders[k]
                })
        },
{
    let f = step_fill(b).0;
    if b.asks[0].orders.len() > 1 {
        let na = match_step(b).asks;
        if b.asks[0].orders[0].remaining_quantity.0 == f {
            assert(na == b.asks.update(
                0,
                LevelModel { price: b.asks[0].price, orders: b.asks[0].orders.drop_first() },
            ));
            assert(forall|k: int|
                1 <= k < b.asks[0].orders.len() ==> (#[trigger] b.asks[0].orders[k]) == na[0].orders[k - 1]);
        } else {
            assert(forall|k: int|
                1 <= k < b.asks[0].orders.len() ==> (#[trigger] b.asks[0].orders[k]) == na[0].orders[k]);
        }
    }
    if b.bids[0].orders.len() > 1 {
        let nb = match_step(b).bids;
        if b.bids[0].orders[0].remaining_quantity.0 == f {
            assert(nb == b.bids.update(
                0,
                LevelModel { price: b.bids[0].price, orders: b.bids[0].orders.drop_first() },
            ));
            assert(forall|k: int|
                1 <= k < b.bids[0].orders.len() ==> (#[trigger] b.bids[0].orders[k]) == nb[0].orders[k - 1]);
        } else {
            assert(forall|k: int|
                1 <= k < b.bids[0].orders.len() ==> (#[trigger] b.bids[0].orders[k]) == nb[0].orders[k]);
        }
    }
}

/// Law: matching never leaves the book in a crossed state — after a whole
/// matching pass, the best bid is strictly below the best ask or a side is
/// empty, and the book invariant holds.
pub proof fn lemma_match_never_crossed(b: BookModel)
    requires
        book_wf(b),
    ensures
        book_wf(match_orders_spec(b)),
        !crossed(match_orders_spec(b)),
{
    lemma_match_rec_props(b);
    lemma_cancel_seq_props(match_rec(b), sweep_ids(match_rec(b)));
}

/// Law: a fill-and-kill order submitted with no currently crossable opposing
/// price is refused with `CantMatch`; together with `add_order`'s contract,
/// such an order never enters the book.
pub proof fn lemma_fak_rejected(b: BookModel, order: Order)
    requires
        order.order_type is FillAndKill,
        !has_id(b.index, order.order_id),
        !spec_can_match(b, order.side, order.price),
    ensures
        admit_error(b, order) == Some(OrderError::CantMatch),
{
}

/// Law: cancelling a live order removes it from the book-wide index and from
/// every price level, leaves no empty level behind, and a second cancel of
/// the same id finds nothing live (so `cancel_order` then fails with
/// `OrderNotFound` and changes nothing).
pub proof fn lemma_cancel_removes(b: BookModel, id: OrderId)
    requires
        book_wf(b),
        has_id(b.index, id),
    ensures
        !has_id(cancel_spec(b, id).index, id),
        forall|p: Price| !side_has_id(cancel_spec(b, id).bids, p, id),
        forall|p: Price| !side_has_id(cancel_spec(b, id).asks, p, id),
        forall|i: int|
            0 <= i < cancel_spec(b, id).bids.len() ==> (#[trigger] cancel_spec(b, id).bids[
                i
            ]).orders.len() > 0,
        forall|i: int|
            0 <= i < cancel_spec(b, id).asks.len() ==> (#[trigger] cancel_spec(b, id).asks[
                i
            ]).orders.len() > 0,
        cancel_spec(cancel_spec(b, id), id) == cancel_spec(b, id),
{
    lemma_cancel_wf(b, id);
    crate::order::lemma_find_id(b.index, id);
    lemma_remove_id_keeps(b.index, id);
    let c = cancel_spec(b, id);
    assert(!has_id(c.index, id)) by {
        if has_id(c.index, id) {
            let n = choose|n: int| 0 <= n < c.index.len() && (#[trigger] c.index[n]).order_id == id;
            assert(c.index[n].order_id != id);
        }
    }
    assert forall|p: Price| !side_has_id(c.bids, p, id) by {
        if side_has_id(c.bids, p, id) {
            let i = choose|i: int|
                0 <= i < c.bids.len() && (#[trigger] c.bids[i]).price == p && has_id(
                    c.bids[i].orders,
                    id,
                );
            let k = choose|k: int|
                0 <= k < c.bids[i].orders.len() && (#[trigger] c.bids[i].orders[k]).order_id == id;
            assert(index_has_like(c.index, c.bids[i].orders[k]));
            let n = choose|n: int|
                0 <= n < c.index.len() && same_static(#[trigger] c.index[n], c.bids[i].orders[k]);
            assert(c.index[n].order_id == id);
            assert(has_id(c.index, id));
        }
    }
    assert forall|p: Price| !side_has_id(c.asks, p, id) by {
        if side_has_id(c.asks, p, id) {
            let i = choose|i: int|
                0 <= i < c.asks.len() && (#[trigger] c.asks[i]).price == p && has_id(
                    c.asks[i].orders,
                    id,
                );
            let k = choose|k: int|
                0 <= k < c.asks[i].orders.len() && (#[trigger] c.asks[i].orders[k]).order_id == id;
            assert(index_has_like(c.index, c.asks[i].orders[k]));
            let n = choose|n: int|
                0 <= n < c.index.len() && same_static(#[trigger] c.index[n], c.asks[i].orders[k]);
            assert(c.index[n].order_id == id);
            assert(has_id(c.index, id));
        }
    }
    assert forall|i: int| 0 <= i < c.bids.len() implies (#[trigger] c.bids[i]).orders.len() > 0 by {
        assert(level_wf(c.bids[i], Side::Buy));
    }
    assert forall|i: int| 0 <= i < c.asks.len() implies (#[trigger] c.asks[i]).orders.len() > 0 by {
        assert(level_wf(c.asks[i], Side::Sell));
    }
}

/// Law: pruning removes exactly the day-bound orders. Afterwards no
/// good-for-day order is live anywhere in the book, every live order of any
/// other type survives unchanged in the index, the trade ledger is
/// untouched, and pruning a second time changes nothing.
pub proof fn lemma_prune_exact(b: BookModel)
    requires
        book_wf(b),
    ensures
        book_wf(prune_spec(b)),
        forall|n: int|
            0 <= n < prune_spec(b).index.len() ==> !((#[trigger] prune_spec(b).index[
                n
            ]).order_type is GoodForDay),
        forall|i: int, k: int|
            0 <= i < prune_spec(b).bids.len() && 0 <= k < prune_spec(b).bids[i].orders.len() ==> !((
            #[trigger] prune_spec(b).bids[i].orders[k]).order_type is GoodForDay),
        forall|i: int, k: int|
            0 <= i < prune_spec(b).asks.len() && 0 <= k < prune_spec(b).asks[i].orders.len() ==> !((
            #[trigger] prune_spec(b).asks[i].orders[k]).order_type is GoodForDay),
        forall|n: int|
            0 <= n < b.index.len() && !((#[trigger] b.index[n]).order_type is GoodForDay)
                ==> index_has_entry(prune_spec(b).index, b.index[n]),
        prune_spec(b).trades == b.trades,
        prune_spec(prune_spec(b)) == prune_spec(b),
{
    let ids = gfd_ids(b.index);
    let p = prune_spec(b);
    lemma_gfd_ids_complete(b.index);
    lemma_gfd_ids_members(b.index);
    lemma_cancel_seq_props(b, ids);
    lemma_cancel_seq_removes_gfd(b, ids);
    lemma_cancel_seq_keeps(b, ids);
    // an order of another type is never named by the collected ids
    assert forall|n: int|
        0 <= n < b.index.len() && !((#[trigger] b.index[n]).order_type is GoodForDay)
            implies index_has_entry(p.index, b.index[n]) by {
        let e = b.index[n];
        if ids_contain(ids, e.order_id) {
            let j = choose|j: int| 0 <= j < ids.len() && ids[j] == e.order_id;
            assert(gfd_entry_with_id(b.index, ids[j]));
            let n2 = choose|n2: int|
                0 <= n2 < b.index.len() && (#[trigger] b.index[n2]).order_type is GoodForDay
                    && b.index[n2].order_id == ids[j];
            assert(n2 != n);
            assert(b.index[n2].order_id == b.index[n].order_id);
            assert(false);
        }
    }
    // nothing day-bound rests in any level either
    assert forall|i: int, k: int|
        0 <= i < p.bids.len() && 0 <= k < p.bids[i].orders.len() implies !((#[trigger] p.bids[
        i
    ].orders[k]).order_type is GoodForDay) by {
        let o = p.bids[i].orders[k];
        assert(index_has_like(p.index, o));
        let n = choose|n: int| 0 <= n < p.index.len() && same_static(#[trigger] p.index[n], o);
        assert(!(p.index[n].order_type is GoodForDay));
    }
    assert forall|i: int, k: int|
        0 <= i < p.asks.len() && 0 <= k < p.asks[i].orders.len() implies !((#[trigger] p.asks[
        i
    ].orders[k]).order_type is GoodForDay) by {
        let o = p.asks[i].orders[k];
        assert(index_has_like(p.index, o));
        let n = choose|n: int| 0 <= n < p.index.len() && same_static(#[trigger] p.index[n], o);
        assert(!(p.index[n].order_type is GoodForDay));
    }
    // pruning again collects nothing
    lemma_gfd_ids_empty(p.index);
    assert(prune_spec(p) == cancel_seq(p, Seq::<OrderId>::empty()));
}

} // verus!
