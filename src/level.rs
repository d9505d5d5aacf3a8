//! One price level: the orders resting at one price on one side, with their
//! aggregate size kept in step.
use std::collections::HashMap;

use vstd::prelude::*;

use crate::order::{Order, OrderBookError};

verus! {

/// The sum of the sizes of the orders in `m`.
pub open spec fn map_total(m: Map<u64, Order>) -> int
    decreases m.len(),
{
    if m.dom().finite() && exists|k: u64| m.contains_key(k) {
        let k = choose|k: u64| m.contains_key(k);
        m[k].size + map_total(m.remove(k))
    } else {
        0
    }
}

/// Taking one order out of a finite map takes its size out of the sum.
pub proof fn lemma_map_total_remove(m: Map<u64, Order>, k: u64)
    requires
        m.dom().finite(),
        m.contains_key(k),
    ensures
        map_total(m) == m[k].size + map_total(m.remove(k)),
    decreases m.len(),
{
    let j = choose|j: u64| m.contains_key(j);
    if j != k {
        lemma_map_total_remove(m.remove(j), k);
        lemma_map_total_remove(m.remove(k), j);
        assert(m.remove(j).remove(k) =~= m.remove(k).remove(j));
    }
}

/// Putting an order under key `k` replaces the size that `k` had, if any.
pub proof fn lemma_map_total_insert(m: Map<u64, Order>, k: u64, o: Order)
    requires
        m.dom().finite(),
    ensures
        map_total(m.insert(k, o)) == map_total(m) + o.size - (if m.contains_key(k) {
            m[k].size as int
        } else {
            0
        }),
{
    lemma_map_total_remove(m.insert(k, o), k);
    assert(m.insert(k, o).remove(k) =~= m.remove(k));
    if m.contains_key(k) {
        lemma_map_total_remove(m, k);
    } else {
        assert(m.remove(k) =~= m);
    }
}

/// The sum of a finite map of orders lies between zero and the largest size
/// times the number of orders.
pub proof fn lemma_map_total_bounds(m: Map<u64, Order>)
    requires
        m.dom().finite(),
    ensures
        0 <= map_total(m) <= m.len() * (u64::MAX as int),
    decreases m.len(),
{
    if exists|k: u64| m.contains_key(k) {
        let k = choose|k: u64| m.contains_key(k);
        lemma_map_total_bounds(m.remove(k));
        assert(m.len() * (u64::MAX as int) == m.remove(k).len() * (u64::MAX as int)
            + u64::MAX) by (nonlinear_arith)
            requires
                m.len() == m.remove(k).len() + 1,
        ;
    }
}

/// The orders resting at one price, keyed by their identifiers, with their
/// total size kept alongside.
#[derive(Debug)]
pub struct OrderLevel {
    price: i64,
    orders: HashMap<u64, Order>,
    total: u128,
}

impl View for OrderLevel {
    type V = Map<u64, Order>;

    /// The resting orders, keyed by identifier.
    closed spec fn view(&self) -> Map<u64, Order> {
        self.orders@
    }
}

impl OrderLevel {
    /// The price that this level stands for.
    pub closed spec fn spec_price(&self) -> i64 {
        self.price
    }

    /// Each order is stored under its own identifier, and the kept total is
    /// the sum of the orders' sizes.
    pub closed spec fn wf(&self) -> bool {
        &&& self.orders@.dom().finite()
        &&& forall|id: u64| #[trigger] self.orders@.contains_key(id) ==> self.orders@[id].order_id == id
        &&& self.total == map_total(self.orders@)
    }

    /// A level at `price` with no orders.
    pub fn new(price: i64) -> (r: OrderLevel)
        ensures
            r.wf(),
            r.spec_price() == price,
            r@ == Map::<u64, Order>::empty(),
    {
        let r = OrderLevel { price, orders: HashMap::new(), total: 0 };
        assert(!exists|k: u64| r.orders@.contains_key(k));
        r
    }

    /// The price that this level stands for.
    pub fn price(&self) -> (r: i64)
        ensures
            r == self.spec_price(),
    {
        self.price
    }

    /// The sum of the sizes of the orders at this level.
    pub fn total_qty(&self) -> (r: u64)
        requires
            self.wf(),
            map_total(self@) <= u64::MAX,
        ensures
            r == map_total(self@),
    {
        self.total as u64
    }

    /// Puts `order` at this level, replacing any order with the same identifier.
    pub fn add_order(&mut self, order: Order)
        requires
            old(self).wf(),
        ensures
            final(self).wf(),
            final(self).spec_price() == old(self).spec_price(),
            final(self)@ == old(self)@.insert(order.order_id, order),
    {
        let ghost before = self.orders@;
        let prev = self.orders.insert(order.order_id, order);
        proof {
            lemma_map_total_insert(before, order.order_id, order);
            lemma_map_total_bounds(self.orders@);
            assert(self.orders@.len() == self.orders.len());
            assert(self.orders@.len() * (u64::MAX as int) <= (usize::MAX as int) * (u64::MAX as int))
                by (nonlinear_arith)
                requires
                    self.orders@.len() <= usize::MAX,
            ;
        }
        match prev {
            Some(p) => {
                proof {
                    lemma_map_total_remove(before, order.order_id);
                    lemma_map_total_bounds(before.remove(order.order_id));
                }
                self.total = self.total - p.size as u128 + order.size as u128;
            },
            None => {
                self.total = self.total + order.size as u128;
            },
        }
    }

    /// Takes the order with identifier `order_id` out of this level and returns
    /// it; does nothing when there is none.
    pub fn remove_order(&mut self, order_id: u64) -> (r: Option<Order>)
        requires
            old(self).wf(),
        ensures
            final(self).wf(),
            final(self).spec_price() == old(self).spec_price(),
            final(self)@ == old(self)@.remove(order_id),
            r == old(self)@.get(order_id),
    {
        let ghost before = self.orders@;
        let r = self.orders.remove(&order_id);
        match r {
            Some(o) => {
                proof {
                    lemma_map_total_remove(before, order_id);
                    lemma_map_total_bounds(self.orders@);
                }
                self.total = self.total - o.size as u128;
            },
            None => {
                assert(self.orders@ =~= before);
            },
        }
        r
    }

    /// Sets the remaining size of the order with identifier `order_id` to
    /// `new_size`, in place.
    pub fn modify_order(&mut self, order_id: u64, new_size: u64) -> (r: Result<(), OrderBookError>)
        requires
            old(self).wf(),
        ensures
            final(self).wf(),
            final(self).spec_price() == old(self).spec_price(),
            old(self)@.contains_key(order_id) ==> r is Ok && final(self)@ == old(self)@.insert(
                order_id,
                old(self)@[order_id].with_size(new_size),
            ),
            !old(self)@.contains_key(order_id) ==> r == Err::<(), OrderBookError>(
                OrderBookError::OrderNotFound(order_id),
            ) && final(self)@ == old(self)@,
    {
        match self.orders.get(&order_id) {
            None => Err(OrderBookError::OrderNotFound(order_id)),
            Some(o) => {
                let updated = Order {
                    order_id: o.order_id,
                    side: o.side,
                    price: o.price,
                    size: new_size,
                };
                self.add_order(updated);
                Ok(())
            },
        }
    }

    /// The order with identifier `order_id`, if it rests at this level.
    pub fn get_order(&self, order_id: u64) -> (r: Option<&Order>)
        requires
            self.wf(),
        ensures
            match r {
                Some(o) => self@.contains_key(order_id) && *o == self@[order_id],
                None => !self@.contains_key(order_id),
            },
    {
        self.orders.get(&order_id)
    }

    /// Whether no order rests at this level.
    pub fn is_empty(&self) -> (r: bool)
        requires
            self.wf(),
        ensures
            r == (self@.len() == 0),
    {
        proof {
            if self@.len() == 0 {
                assert(self@.dom() =~= Set::<u64>::empty());
            }
        }
        self.orders.is_empty()
    }

    /// The number of orders at this level.
    pub fn order_count(&self) -> (r: usize)
        requires
            self.wf(),
        ensures
            r == self@.len(),
    {
        self.orders.len()
    }
}

} // verus!
