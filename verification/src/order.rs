//! A single order and the FIFO order queue.
//!
//! `Orders` is an ordered collection with id-based lookup; it serves both as
//! a per-price-level queue and as the book-wide order index. Lookup and
//! delete are linear scans, acceptable because price levels are shallow.

use vstd::prelude::*;

use crate::error::OrderError;
use crate::types::{OrderId, OrderType, Price, Quantity, Side};

verus! {

/// A resting or incoming order and its fill state.
#[derive(Debug, PartialEq, Eq, Structural, Clone, Copy)]
pub struct Order {
    pub order_id: OrderId,
    pub order_type: OrderType,
    pub side: Side,
    pub price: Price,
    pub initial_quantity: Quantity,
    pub remaining_quantity: Quantity,
}

/// The price a constructed order actually carries: market orders get a
/// sentinel in place of whatever price was supplied.
pub open spec fn effective_price(order_type: OrderType, side: Side, price: Price) -> Price {
    if order_type is Market {
        match side {
            Side::Buy => Price(u32::MAX),
            Side::Sell => Price(0),
        }
    } else {
        price
    }
}

impl Order {
    /// Creates an order with its full quantity remaining. The caller-supplied
    /// price of a market order is discarded in favour of the sentinel that
    /// makes it cross any opposing level.
    pub fn new(
        order_id: OrderId,
        order_type: OrderType,
        side: Side,
        price: Price,
        initial_quantity: Quantity,
    ) -> (r: Order)
        ensures
            r == (Order {
                order_id,
                order_type,
                side,
                price: effective_price(order_type, side, price),
                initial_quantity,
                remaining_quantity: initial_quantity,
            }),
    {
        let effective = if order_type == OrderType::Market {
            match side {
                Side::Buy => Price::max(),
                Side::Sell => Price::min(),
            }
        } else {
            price
        };
        Order {
            order_id,
            order_type,
            side,
            price: effective,
            initial_quantity,
            remaining_quantity: initial_quantity,
        }
    }

    /// How much of the order has been filled so far.
    pub fn filled_quantity(&self) -> (r: Quantity)
        ensures
            r.0 == if self.initial_quantity.0 >= self.remaining_quantity.0 {
                self.initial_quantity.0 - self.remaining_quantity.0
            } else {
                0
            },
    {
        self.initial_quantity.saturating_sub(self.remaining_quantity)
    }

    /// Decreases the remaining quantity by `quantity`; refuses a fill for
    /// more than is remaining and then leaves the order unchanged.
    pub fn fill(&mut self, quantity: Quantity) -> (r: Result<(), OrderError>)
        ensures
            quantity.0 > old(self).remaining_quantity.0 ==> {
                &&& r == Err::<(), OrderError>(OrderError::FillOverflow)
                &&& *final(self) == *old(self)
            },
            quantity.0 <= old(self).remaining_quantity.0 ==> {
                &&& r == Ok::<(), OrderError>(())
                &&& final(self).remaining_quantity.0 == old(self).remaining_quantity.0
                    - quantity.0
                &&& final(self).order_id == old(self).order_id
                &&& final(self).order_type == old(self).order_type
                &&& final(self).side == old(self).side
                &&& final(self).price == old(self).price
                &&& final(self).initial_quantity == old(self).initial_quantity
            },
    {
        if quantity.0 > self.remaining_quantity.0 {
            return Err(OrderError::FillOverflow);
        }
        self.remaining_quantity = Quantity(self.remaining_quantity.0 - quantity.0);
        Ok(())
    }

    /// Whether nothing remains to fill.
    pub fn is_filled(&self) -> (r: bool)
        ensures
            r == (self.remaining_quantity.0 == 0),
    {
        self.remaining_quantity.0 == 0
    }
}

/// Whether some entry of `s` carries `id`.
pub open spec fn has_id(s: Seq<Order>, id: OrderId) -> bool {
    exists|n: int| 0 <= n < s.len() && (#[trigger] s[n]).order_id == id
}

/// The position of the first entry of `s` carrying `id`, or -1 if none does.
pub open spec fn find_id(s: Seq<Order>, id: OrderId) -> int
    decreases s.len(),
{
    if s.len() == 0 {
        -1
    } else if s[0].order_id == id {
        0
    } else {
        let r = find_id(s.drop_first(), id);
        if r < 0 {
            -1
        } else {
            r + 1
        }
    }
}

/// `s` with the first entry carrying `id` removed; `s` itself if none does.
pub open spec fn remove_id(s: Seq<Order>, id: OrderId) -> Seq<Order> {
    if has_id(s, id) {
        s.remove(find_id(s, id))
    } else {
        s
    }
}

/// `s` with the remaining quantity of the first entry carrying `id`
/// overwritten by `q`; `s` itself if none does.
pub open spec fn set_remaining(s: Seq<Order>, id: OrderId, q: Quantity) -> Seq<Order> {
    if has_id(s, id) {
        let n = find_id(s, id);
        s.update(
            n,
            Order {
                order_id: s[n].order_id,
                order_type: s[n].order_type,
                side: s[n].side,
                price: s[n].price,
                initial_quantity: s[n].initial_quantity,
                remaining_quantity: q,
            },
        )
    } else {
        s
    }
}

/// `find_id` finds the first match: a valid position carrying `id` with no
/// earlier match, exactly when `has_id` holds.
pub proof fn lemma_find_id(s: Seq<Order>, id: OrderId)
    ensures
        has_id(s, id) <==> 0 <= find_id(s, id),
        has_id(s, id) ==> {
            &&& find_id(s, id) < s.len()
            &&& s[find_id(s, id)].order_id == id
            &&& forall|k: int| 0 <= k < find_id(s, id) ==> (#[trigger] s[k]).order_id != id
        },
    decreases s.len(),
{
    if s.len() == 0 {
    } else if s[0].order_id == id {
    } else {
        let t = s.drop_first();
        lemma_find_id(t, id);
        assert(forall|j: int| 0 <= j < t.len() ==> #[trigger] t[j] == s[j + 1]);
        if has_id(s, id) {
            let n = choose|n: int| 0 <= n < s.len() && (#[trigger] s[n]).order_id == id;
            assert(t[n - 1] == s[n]);
            assert(has_id(t, id));
        }
        if has_id(t, id) {
            let m = choose|m: int| 0 <= m < t.len() && (#[trigger] t[m]).order_id == id;
            assert(s[m + 1] == t[m]);
            assert(has_id(s, id));
            let f = find_id(t, id);
            assert(forall|k: int| 1 <= k < f + 1 ==> (#[trigger] s[k]).order_id == t[k - 1].order_id);
        }
    }
}

/// A FIFO queue of orders with id-based lookup: first inserted, first
/// matched or evicted among equal price.
#[derive(Debug, PartialEq, Eq, Clone)]
pub struct Orders(Vec<Order>);

impl View for Orders {
    type V = Seq<Order>;

    closed spec fn view(&self) -> Seq<Order> {
        self.0@
    }
}

impl Default for Orders {
    fn default() -> (r: Orders)
        ensures
            r@ == Seq::<Order>::empty(),
    {
        Orders::new()
    }
}

impl Orders {
    /// An empty queue.
    pub fn new() -> (r: Self)
        ensures
            r@ == Seq::<Order>::empty(),
    {
        Orders(Vec::new())
    }

    /// How many orders the queue holds.
    pub fn len(&self) -> (r: usize)
        ensures
            r == self@.len(),
    {
        self.0.len()
    }

    /// Whether the queue holds no orders.
    pub fn is_empty(&self) -> (r: bool)
        ensures
            r == (self@.len() == 0),
    {
        self.0.len() == 0
    }

    /// The order at position `i`, front first.
    pub fn at(&self, i: usize) -> (r: &Order)
        requires
            i < self@.len(),
        ensures
            *r == self@[i as int],
    {
        &self.0[i]
    }

    /// Appends an order at the tail.
    pub fn push_back(&mut self, order: Order)
        ensures
            final(self)@ == old(self)@.push(order),
    {
        self.0.push(order);
    }

    /// Removes and returns the front order, if any.
    pub fn pop(&mut self) -> (r: Option<Order>)
        ensures
            old(self)@.len() == 0 ==> r is None && final(self)@ == old(self)@,
            old(self)@.len() > 0 ==> {
                &&& r == Some(old(self)@[0])
                &&& final(self)@ == old(self)@.drop_first()
            },
    {
        if self.0.len() == 0 {
            None
        } else {
            let o = self.0.remove(0);
            proof {
                assert(self@ =~= old(self)@.drop_first());
            }
            Some(o)
        }
    }

    /// The front order, if any.
    pub fn front(&self) -> (r: Option<&Order>)
        ensures
            self@.len() == 0 ==> r is None,
            self@.len() > 0 ==> (r matches Some(o) && *o == self@[0]),
    {
        if self.0.len() == 0 {
            None
        } else {
            Some(&self.0[0])
        }
    }


    /// A mutable reference to the front order, if any.
    pub fn front_mut(&mut self) -> (r: Option<&mut Order>)
        ensures
            old(self)@.len() == 0 ==> r is None && final(self)@ == old(self)@,
            old(self)@.len() > 0 ==> (r matches Some(o) && *o == old(self)@[0] && final(self)@
                == old(self)@.update(0, *final(o))),
    {
        if self.0.len() == 0 {
            None
        } else {
            Some(&mut self.0[0])
        }
    }

    /// The first order carrying `order_id`, if any.
    pub fn get(&self, order_id: OrderId) -> (r: Option<&Order>)
        ensures
            !has_id(self@, order_id) ==> r is None,
            has_id(self@, order_id) ==> (r matches Some(o) && *o == self@[find_id(
                self@,
                order_id,
            )]),
    {
        proof {
            lemma_find_id(self@, order_id);
        }
        let n = self.0.len();
        let mut i: usize = 0;
        while i < n
            invariant
                n == self@.len(),
                i <= n,
                forall|k: int| 0 <= k < i ==> (#[trigger] self@[k]).order_id != order_id,
                !has_id(self@, order_id) ==> find_id(self@, order_id) == -1,
                has_id(self@, order_id) ==> {
                    &&& 0 <= find_id(self@, order_id) < self@.len()
                    &&& self@[find_id(self@, order_id)].order_id == order_id
                    &&& forall|k: int|
                        0 <= k < find_id(self@, order_id) ==> (#[trigger] self@[k]).order_id
                            != order_id
                },
            decreases n - i,
        {
            if self.0[i].order_id == order_id {
                assert(has_id(self@, order_id));
                assert(find_id(self@, order_id) == i);
                return Some(&self.0[i]);
            }
            i = i + 1;
        }
        assert(!has_id(self@, order_id));
        None
    }


    /// A mutable reference to the first order carrying `order_id`, if any.
    pub fn get_mut(&mut self, order_id: OrderId) -> (r: Option<&mut Order>)
        ensures
            !has_id(old(self)@, order_id) ==> r is None && final(self)@ == old(self)@,
            has_id(old(self)@, order_id) ==> (r matches Some(o) && *o == old(self)@[find_id(
                old(self)@,
                order_id,
            )] && final(self)@ == old(self)@.update(find_id(old(self)@, order_id), *final(o))),
    {
        proof {
            lemma_find_id(self@, order_id);
        }
        let n = self.0.len();
        let mut i: usize = 0;
        while i < n
            invariant
                self@ == old(self)@,
                n == self@.len(),
                i <= n,
                forall|k: int| 0 <= k < i ==> (#[trigger] self@[k]).order_id != order_id,
                !has_id(self@, order_id) ==> find_id(self@, order_id) == -1,
                has_id(self@, order_id) ==> {
                    &&& 0 <= find_id(self@, order_id) < self@.len()
                    &&& self@[find_id(self@, order_id)].order_id == order_id
                    &&& forall|k: int|
                        0 <= k < find_id(self@, order_id) ==> (#[trigger] self@[k]).order_id
                            != order_id
                },
            decreases n - i,
        {
            if self.0[i].order_id == order_id {
                assert(has_id(self@, order_id));
                assert(find_id(self@, order_id) == i);
                return Some(&mut self.0[i]);
            }
            i = i + 1;
        }
        assert(!has_id(self@, order_id));
        None
    }

    /// Whether the queue holds an order carrying `order_id`.
    pub fn contains(&self, order_id: OrderId) -> (r: bool)
        ensures
            r == has_id(self@, order_id),
    {
        self.get(order_id).is_some()
    }

    /// Removes the first order carrying `order_id`; a no-op if absent.
    pub fn delete(&mut self, order_id: OrderId)
        ensures
            final(self)@ == remove_id(old(self)@, order_id),
    {
        proof {
            lemma_find_id(self@, order_id);
        }
        let n = self.0.len();
        let mut i: usize = 0;
        while i < n
            invariant
                self@ == old(self)@,
                n == self@.len(),
                i <= n,
                forall|k: int| 0 <= k < i ==> (#[trigger] self@[k]).order_id != order_id,
                !has_id(self@, order_id) ==> find_id(self@, order_id) == -1,
                has_id(self@, order_id) ==> {
                    &&& 0 <= find_id(self@, order_id) < self@.len()
                    &&& self@[find_id(self@, order_id)].order_id == order_id
                    &&& forall|k: int|
                        0 <= k < find_id(self@, order_id) ==> (#[trigger] self@[k]).order_id
                            != order_id
                },
            decreases n - i,
        {
            if self.0[i].order_id == order_id {
                assert(has_id(self@, order_id));
                assert(find_id(self@, order_id) == i);
                self.0.remove(i);
                return ;
            }
            i = i + 1;
        }
        assert(!has_id(self@, order_id));
    }

    /// Overwrites the remaining quantity of the first order carrying
    /// `order_id`, preserving its queue position; a no-op if absent.
    pub fn update_quantity(&mut self, order_id: OrderId, quantity: Quantity)
        ensures
            final(self)@ == set_remaining(old(self)@, order_id, quantity),
    {
        proof {
            lemma_find_id(self@, order_id);
        }
        let n = self.0.len();
        let mut i: usize = 0;
        while i < n
            invariant
                self@ == old(self)@,
                n == self@.len(),
                i <= n,
                forall|k: int| 0 <= k < i ==> (#[trigger] self@[k]).order_id != order_id,
                !has_id(self@, order_id) ==> find_id(self@, order_id) == -1,
                has_id(self@, order_id) ==> {
                    &&& 0 <= find_id(self@, order_id) < self@.len()
                    &&& self@[find_id(self@, order_id)].order_id == order_id
                    &&& forall|k: int|
                        0 <= k < find_id(self@, order_id) ==> (#[trigger] self@[k]).order_id
                            != order_id
                },
            decreases n - i,
        {
            if self.0[i].order_id == order_id {
                assert(has_id(self@, order_id));
                assert(find_id(self@, order_id) == i);
                let updated = Order {
                    order_id: self.0[i].order_id,
                    order_type: self.0[i].order_type,
                    side: self.0[i].side,
                    price: self.0[i].price,
                    initial_quantity: self.0[i].initial_quantity,
                    remaining_quantity: quantity,
                };
                let _ = self.0.remove(i);
                self.0.insert(i, updated);
                proof {
                    assert(self@ =~= set_remaining(old(self)@, order_id, quantity));
                }
                return ;
            }
            i = i + 1;
        }
        assert(!has_id(self@, order_id));
    }

    /// The orders in queue order, front first, as a fresh vector.
    pub fn to_vec(&self) -> (r: Vec<Order>)
        ensures
            r@ == self@,
    {
        let n = self.0.len();
        let mut out: Vec<Order> = Vec::new();
        let mut i: usize = 0;
        while i < n
            invariant
                n == self@.len(),
                i <= n,
                out@ == self@.take(i as int),
            decreases n - i,
        {
            out.push(self.0[i]);
            proof {
                assert(out@ =~= self@.take(i + 1 as int));
            }
            i = i + 1;
        }
        proof {
            assert(out@ =~= self@);
        }
        out
    }
}

} // verus!
