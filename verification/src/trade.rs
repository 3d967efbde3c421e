//! The append-only record of executions.

use vstd::prelude::*;

use crate::types::{OrderId, Price, Quantity};

verus! {

/// One side's view of an execution.
#[derive(Debug, PartialEq, Eq, Structural, Clone, Copy)]
pub struct TradeInfo {
    pub order_id: OrderId,
    pub price: Price,
    pub quantity: Quantity,
}

/// One execution: both sides share the execution price and quantity.
#[derive(Debug, PartialEq, Eq, Structural, Clone, Copy)]
pub struct Trade {
    pub bid_trade: TradeInfo,
    pub ask_trade: TradeInfo,
}

/// The trade ledger, in execution order. Trades are appended only by the
/// matching algorithm and are immutable thereafter; the owner may clear the
/// whole ledger.
#[derive(Debug, PartialEq, Eq, Clone)]
pub struct Trades(Vec<Trade>);

impl View for Trades {
    type V = Seq<Trade>;

    closed spec fn view(&self) -> Seq<Trade> {
        self.0@
    }
}

impl Default for Trades {
    fn default() -> (r: Trades)
        ensures
            r@ == Seq::<Trade>::empty(),
    {
        Trades::new()
    }
}

impl TradeInfo {
    /// Records one side of an execution.
    pub fn new(order_id: OrderId, price: Price, quantity: Quantity) -> (r: TradeInfo)
        ensures
            r == (TradeInfo { order_id, price, quantity }),
    {
        TradeInfo { order_id, price, quantity }
    }

    /// The execution price.
    pub fn price(&self) -> (r: Price)
        ensures
            r == self.price,
    {
        self.price
    }

    /// The executed quantity.
    pub fn quantity(&self) -> (r: Quantity)
        ensures
            r == self.quantity,
    {
        self.quantity
    }

    /// The id of the order this side filled.
    pub fn order_id(&self) -> (r: OrderId)
        ensures
            r == self.order_id,
    {
        self.order_id
    }
}

impl Trades {
    /// An empty ledger.
    pub fn new() -> (r: Trades)
        ensures
            r@ == Seq::<Trade>::empty(),
    {
        Trades(Vec::new())
    }

    /// Whether the ledger holds no trades.
    pub fn is_empty(&self) -> (r: bool)
        ensures
            r == (self@.len() == 0),
    {
        self.0.len() == 0
    }

    /// How many trades the ledger holds.
    pub fn len(&self) -> (r: usize)
        ensures
            r == self@.len(),
    {
        self.0.len()
    }

    /// Appends a trade.
    pub fn push(&mut self, trade: Trade)
        ensures
            final(self)@ == old(self)@.push(trade),
    {
        self.0.push(trade);
    }

    /// The trade at position `i`, oldest first.
    pub fn at(&self, i: usize) -> (r: &Trade)
        requires
            i < self@.len(),
        ensures
            *r == self@[i as int],
    {
        &self.0[i]
    }

    /// Empties the ledger.
    pub fn clear(&mut self)
        ensures
            final(self)@ == Seq::<Trade>::empty(),
    {
        self.0.clear();
    }

    /// The most recent trade, if any.
    pub fn last(&self) -> (r: Option<&Trade>)
        ensures
            self@.len() == 0 ==> r is None,
            self@.len() > 0 ==> (r matches Some(t) && *t == self@.last()),
    {
        if self.0.len() == 0 {
            None
        } else {
            Some(&self.0[self.0.len() - 1])
        }
    }

    /// The trades in execution order as a fresh vector.
    pub fn to_vec(&self) -> (r: Vec<Trade>)
        ensures
            r@ == self@,
    {
        let n = self.0.len();
        let mut out: Vec<Trade> = Vec::new();
        let mut i: usize = 0;
        while i < n
            invariant
                n == self@.len(),
                i <= n,
                out@ == self@.take(i as int),
            decreases n - i,
        {
            out.push(self.0[i]);
            proof {
                assert(out@ =~= self@.take(i + 1 as int));
            }
            i = i + 1;
        }
        proof {
            assert(out@ =~= self@);
        }
        out
    }
}

} // verus!
