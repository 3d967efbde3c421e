//! The failure taxonomy of the book. Every failure is a structured result
//! returned to the caller; no recovery is attempted internally, and a failed
//! operation leaves the book unchanged.

use vstd::prelude::*;

verus! {

/// Why an order operation was refused.
#[derive(Debug, PartialEq, Eq, Structural, Clone, Copy)]
pub enum OrderError {
    /// A fill was attempted for more than the order's remaining quantity
    /// (defensive; unreachable from the matching algorithm itself).
    FillOverflow,
    /// A submission reused a live order id.
    IdExists,
    /// A fill-and-kill order was submitted with no currently crossable
    /// opposing price.
    CantMatch,
    /// A cancel or modify targeted an unknown or already-removed order id.
    OrderNotFound,
    /// A fill-or-kill order was submitted without sufficient aggregate
    /// crossable opposing quantity.
    CantFullyFill,
    /// A market order was submitted against an empty opposing side.
    NoLiquidity,
}

} // verus!
