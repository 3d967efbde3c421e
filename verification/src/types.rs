//! Primitive domain values: prices, quantities, order identifiers, and the
//! closed enumerations of order lifetime policy and book side.

use vstd::prelude::*;

verus! {

/// Lifetime policy of an order, dispatched over at admission and cleanup.
#[derive(Debug, PartialEq, Eq, Structural, Clone, Copy)]
pub enum OrderType {
    /// Rests until explicitly cancelled.
    GoodTillCancelled,
    /// Admitted only if immediately crossable; any remainder after a
    /// matching pass is cancelled.
    FillAndKill,
    /// Admitted only if the full quantity is currently fillable.
    FillOrKill,
    /// Rests like a standing order but is expired at the day boundary.
    GoodForDay,
    /// Carries a sentinel price so that it crosses any opposing level.
    Market,
}

/// The side of the book an order belongs to.
#[derive(Debug, PartialEq, Eq, Structural, Clone, Copy)]
pub enum Side {
    Buy,
    Sell,
}

/// An unsigned, totally ordered price. The minimum and maximum values are
/// reserved as sentinels for market-order encoding.
#[derive(Debug, PartialEq, Eq, Structural, Clone, Copy, PartialOrd, Ord, Hash)]
pub struct Price(pub u32);

/// An unsigned order quantity.
#[derive(Debug, PartialEq, Eq, Structural, Clone, Copy, PartialOrd, Ord, Hash)]
pub struct Quantity(pub u32);

/// An opaque order identifier, unique among live orders in one book.
#[derive(Debug, PartialEq, Eq, Structural, Clone, Copy, Hash)]
pub struct OrderId(pub u64);

impl Price {
    /// Wraps a raw price value.
    pub fn new(value: u32) -> (r: Self)
        ensures
            r.0 == value,
    {
        Price(value)
    }

    /// The maximum representable price: the sentinel for buy-side market
    /// orders (willing to pay anything).
    pub fn max() -> (r: Self)
        ensures
            r.0 == u32::MAX,
    {
        Price(u32::MAX)
    }

    /// The minimum representable price: the sentinel for sell-side market
    /// orders (willing to accept anything).
    pub fn min() -> (r: Self)
        ensures
            r.0 == 0,
    {
        Price(0)
    }
}

impl OrderId {
    /// Wraps a raw identifier value.
    pub fn new(value: u64) -> (r: Self)
        ensures
            r.0 == value,
    {
        OrderId(value)
    }
}

impl Quantity {
    /// Subtraction saturating at zero: quantity arithmetic must never
    /// produce a negative value.
    pub fn saturating_sub(self, other: Self) -> (r: Self)
        ensures
            r.0 == if self.0 >= other.0 {
                self.0 - other.0
            } else {
                0
            },
    {
        if self.0 >= other.0 {
            Quantity(self.0 - other.0)
        } else {
            Quantity(0)
        }
    }
}

} // verus!
