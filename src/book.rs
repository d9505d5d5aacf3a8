//! The two-sided order book: price levels for bids and asks, kept sorted by
//! price, and an index from order identifier to where the order rests.
use std::collections::HashMap;

use vstd::prelude::*;

use crate::level::{map_total, OrderLevel};
use crate::order::{Order, OrderBookError, Side};

verus! {

/// The orders of `m` that rest on `side` at `price`.
pub open spec fn level_of(m: Map<u64, Order>, side: Side, price: i64) -> Map<u64, Order> {
    Map::new(
        |id: u64| m.contains_key(id) && m[id].side == side && m[id].price == price,
        |id: u64| m[id],
    )
}

/// Whether some order of `m` rests on `side` at `price`.
pub open spec fn has_level(m: Map<u64, Order>, side: Side, price: i64) -> bool {
    exists|id: u64| #[trigger] level_of(m, side, price).contains_key(id)
}

/// The sum of the sizes of the orders of `m` on `side` at `price`.
pub open spec fn level_total(m: Map<u64, Order>, side: Side, price: i64) -> int {
    map_total(level_of(m, side, price))
}

/// The number of orders of `m` on `side` at `price`.
pub open spec fn level_count(m: Map<u64, Order>, side: Side, price: i64) -> nat {
    level_of(m, side, price).len()
}

/// Whether price `a` is better than price `b` on `side`: higher for bids,
/// lower for asks.
pub open spec fn ranks_above(side: Side, a: i64, b: i64) -> bool {
    match side {
        Side::Bid => a > b,
        Side::Ask => a < b,
    }
}

/// Whether `price` is the best price present on `side`.
pub open spec fn is_best(m: Map<u64, Order>, side: Side, price: i64) -> bool {
    &&& has_level(m, side, price)
    &&& forall|q: i64| #[trigger] has_level(m, side, q) && q != price ==> ranks_above(side, price, q)
}

/// Whether the total size of every level on `side` fits in a `u64`.
pub open spec fn totals_fit(m: Map<u64, Order>, side: Side) -> bool {
    forall|p: i64| #[trigger] has_level(m, side, p) ==> level_total(m, side, p) <= u64::MAX
}

/// Whether `r` lists, best first, the `n` best levels of `side` (all of them
/// when there are fewer), each as its price and total size.
pub open spec fn is_top_levels(m: Map<u64, Order>, side: Side, n: nat, r: Seq<(i64, u64)>) -> bool {
    &&& r.len() <= n
    &&& forall|i: int|
        0 <= i < r.len() ==> has_level(m, side, #[trigger] r[i].0) && r[i].1 == level_total(
            m,
            side,
            r[i].0,
        )
    &&& forall|i: int, j: int|
        #![trigger r[i].0, r[j].0]
        0 <= i < j < r.len() ==> ranks_above(side, r[i].0, r[j].0)
    &&& forall|p: i64|
        #[trigger] has_level(m, side, p) && (forall|i: int| 0 <= i < r.len() ==> r[i].0 != p) ==> {
            &&& r.len() == n
            &&& forall|i: int| 0 <= i < r.len() ==> ranks_above(side, #[trigger] r[i].0, p)
        }
}

/// Whether the prices of `levels` strictly increase.
pub open spec fn prices_increasing(levels: Seq<OrderLevel>) -> bool {
    forall|i: int, j: int|
        #![trigger levels[i].spec_price(), levels[j].spec_price()]
        0 <= i < j < levels.len() ==> levels[i].spec_price() < levels[j].spec_price()
}

/// Whether `levels` holds the orders of `m` on `side`: one non-empty level per
/// price present, sorted by increasing price, each holding exactly the orders
/// of `m` on that side at its price.
pub open spec fn side_wf(levels: Seq<OrderLevel>, m: Map<u64, Order>, side: Side) -> bool {
    &&& forall|i: int|
        #![trigger levels[i]]
        0 <= i < levels.len() ==> {
            &&& levels[i].wf()
            &&& levels[i]@ == level_of(m, side, levels[i].spec_price())
            &&& levels[i]@.len() > 0
        }
    &&& prices_increasing(levels)
    &&& forall|id: u64|
        #[trigger] m.contains_key(id) && m[id].side == side ==> exists|i: int|
            0 <= i < levels.len() && #[trigger] levels[i].spec_price() == m[id].price
}

/// A finite map has a key exactly when its length is positive.
proof fn lemma_len_positive(m: Map<u64, Order>)
    requires
        m.dom().finite(),
    ensures
        m.len() > 0 <==> exists|id: u64| m.contains_key(id),
{
    if m.len() > 0 {
        if !exists|id: u64| m.contains_key(id) {
            assert(m.dom() =~= Set::<u64>::empty());
        }
    } else {
        if exists|id: u64| m.contains_key(id) {
            let id = choose|id: u64| m.contains_key(id);
            assert(m.dom().remove(id).len() + 1 == m.len());
        }
    }
}

/// The orders at one place in a finite map form a finite map.
proof fn lemma_level_finite(m: Map<u64, Order>, side: Side, price: i64)
    requires
        m.dom().finite(),
    ensures
        level_of(m, side, price).dom().finite(),
{
    assert(level_of(m, side, price).dom().subset_of(m.dom()));
    vstd::set_lib::lemma_set_subset_finite(m.dom(), level_of(m, side, price).dom());
}

/// Levels kept for `side` stay right when only orders of other sides change.
proof fn lemma_side_wf_other(levels: Seq<OrderLevel>, m1: Map<u64, Order>, m2: Map<u64, Order>, side: Side)
    requires
        side_wf(levels, m1, side),
        forall|id: u64| #[trigger] m2.contains_key(id) && m2[id].side == side ==> m1.contains_key(id) && m1[id] == m2[id],
        forall|id: u64| #[trigger] m1.contains_key(id) && m1[id].side == side ==> m2.contains_key(id) && m1[id] == m2[id],
    ensures
        side_wf(levels, m2, side),
{
    assert forall|p: i64| level_of(m1, side, p) =~= level_of(m2, side, p) by {}
    assert forall|i: int| 0 <= i < levels.len() implies #[trigger] levels[i]@ == level_of(m2, side, levels[i].spec_price()) by {
        assert(level_of(m1, side, levels[i].spec_price()) =~= level_of(m2, side, levels[i].spec_price()));
    }
    assert forall|id: u64| #[trigger] m2.contains_key(id) && m2[id].side == side implies exists|i: int|
            0 <= i < levels.len() && #[trigger] levels[i].spec_price() == m2[id].price by {
        assert(m1.contains_key(id));
    }
}

/// Where `price` stands among `levels`: `Ok` with the index of its level, or
/// `Err` with the index at which a level for it would go.
fn find_level(levels: &Vec<OrderLevel>, price: i64) -> (r: Result<usize, usize>)
    requires
        prices_increasing(levels@),
    ensures
        match r {
            Ok(i) => i < levels@.len() && levels@[i as int].spec_price() == price,
            Err(i) => {
                &&& i <= levels@.len()
                &&& forall|j: int| 0 <= j < i ==> #[trigger] levels@[j].spec_price() < price
                &&& forall|j: int| i <= j < levels@.len() ==> #[trigger] levels@[j].spec_price() > price
            },
        },
{
    let mut lo: usize = 0;
    let mut hi: usize = levels.len();
    while lo < hi
        invariant
            lo <= hi <= levels@.len(),
            prices_increasing(levels@),
            forall|j: int| 0 <= j < lo ==> #[trigger] levels@[j].spec_price() < price,
            forall|j: int| hi <= j < levels@.len() ==> #[trigger] levels@[j].spec_price() > price,
        decreases hi - lo,
    {
        let mid = lo + (hi - lo) / 2;
        let p = levels[mid].price();
        if p == price {
            return Ok(mid);
        } else if p < price {
            assert forall|j: int| 0 <= j <= mid implies #[trigger] levels@[j].spec_price() < price by {
                if j < mid {
                    assert(levels@[j].spec_price() < levels@[mid as int].spec_price());
                }
            }
            lo = mid + 1;
        } else {
            assert forall|j: int| mid <= j < levels@.len() implies #[trigger] levels@[j].spec_price() > price by {
                if j > mid {
                    assert(levels@[mid as int].spec_price() < levels@[j].spec_price());
                }
            }
            hi = mid;
        }
    }
    Err(lo)
}

/// Puts `order`, whose identifier is new to `m`, into the levels of its side,
/// making a level for its price if there is none.
fn add_to_side(levels: &mut Vec<OrderLevel>, order: Order, Ghost(m): Ghost<Map<u64, Order>>)
    requires
        side_wf(old(levels)@, m, order.side),
        m.dom().finite(),
        !m.contains_key(order.order_id),
    ensures
        side_wf(final(levels)@, m.insert(order.order_id, order), order.side),
{
    let ghost m2 = m.insert(order.order_id, order);
    let ghost side = order.side;
    let ghost before = levels@;
    assert(level_of(m2, side, order.price) =~= level_of(m, side, order.price).insert(order.order_id, order));
    assert forall|p: i64| p != order.price implies level_of(m2, side, p) =~= level_of(m, side, p) by {}
    match find_level(levels, order.price) {
        Ok(i) => {
            levels[i].add_order(order);
            proof {
                lemma_level_finite(m2, side, order.price);
                assert(levels@[i as int]@.contains_key(order.order_id));
                lemma_len_positive(levels@[i as int]@);
                assert forall|j: int| 0 <= j < levels@.len() && j != i implies #[trigger] levels@[j] == before[j] by {}
                assert forall|id: u64| #[trigger] m2.contains_key(id) && m2[id].side == side implies exists|k: int|
                        0 <= k < levels@.len() && #[trigger] levels@[k].spec_price() == m2[id].price by {
                    if id == order.order_id {
                        assert(levels@[i as int].spec_price() == m2[id].price);
                    } else {
                        assert(m.contains_key(id));
                        let k = choose|k: int| 0 <= k < before.len() && #[trigger] before[k].spec_price() == m[id].price;
                        assert(levels@[k].spec_price() == m2[id].price);
                    }
                }
            }
        },
        Err(i) => {
            proof {
                assert(level_of(m, side, order.price) =~= Map::<u64, Order>::empty()) by {
                    if exists|id: u64| level_of(m, side, order.price).contains_key(id) {
                        let id = choose|id: u64| level_of(m, side, order.price).contains_key(id);
                        let k = choose|k: int| 0 <= k < before.len() && #[trigger] before[k].spec_price() == m[id].price;
                        assert(before[k].spec_price() == order.price);
                    }
                }
            }
            let mut level = OrderLevel::new(order.price);
            level.add_order(order);
            levels.insert(i, level);
            proof {
                lemma_len_positive(levels@[i as int]@);
                assert(levels@[i as int]@.contains_key(order.order_id));
                assert forall|j: int| 0 <= j < i implies #[trigger] levels@[j] == before[j] by {}
                assert forall|j: int| i < j < levels@.len() implies #[trigger] levels@[j] == before[j - 1] by {}
                assert(levels@[i as int]@ =~= level_of(m2, side, order.price));
                assert forall|a: int, b: int|
                    #![trigger levels@[a].spec_price(), levels@[b].spec_price()]
                    0 <= a < b < levels@.len() implies levels@[a].spec_price() < levels@[b].spec_price() by {
                    if b < i {
                    } else if b == i {
                        assert(before[a].spec_price() < order.price);
                    } else if a < i {
                        assert(before[a].spec_price() < before[b - 1].spec_price());
                    } else if a == i {
                        assert(before[b - 1].spec_price() > order.price);
                    } else {
                        assert(before[a - 1].spec_price() < before[b - 1].spec_price());
                    }
                }
                assert forall|id: u64| #[trigger] m2.contains_key(id) && m2[id].side == side implies exists|k: int|
                        0 <= k < levels@.len() && #[trigger] levels@[k].spec_price() == m2[id].price by {
                    if id == order.order_id {
                        assert(levels@[i as int].spec_price() == m2[id].price);
                    } else {
                        assert(m.contains_key(id));
                        let k = choose|k: int| 0 <= k < before.len() && #[trigger] before[k].spec_price() == m[id].price;
                        if k < i {
                            assert(levels@[k].spec_price() == m2[id].price);
                        } else {
                            assert(levels@[k + 1].spec_price() == m2[id].price);
                        }
                    }
                }
            }
        },
    }
}

/// Takes the order `order_id`, which rests in `m` on `side` at `price`, out
/// of the levels of that side, dropping its level if that leaves it empty.
fn remove_from_side(
    levels: &mut Vec<OrderLevel>,
    order_id: u64,
    price: i64,
    Ghost(m): Ghost<Map<u64, Order>>,
    Ghost(side): Ghost<Side>,
) -> (r: Option<Order>)
    requires
        side_wf(old(levels)@, m, side),
        m.dom().finite(),
        m.contains_key(order_id),
        m[order_id].side == side,
        m[order_id].price == price,
    ensures
        side_wf(final(levels)@, m.remove(order_id), side),
        r == Some(m[order_id]),
{
    let ghost m2 = m.remove(order_id);
    let ghost before = levels@;
    assert(level_of(m2, side, price) =~= level_of(m, side, price).remove(order_id));
    assert forall|p: i64| p != price implies level_of(m2, side, p) =~= level_of(m, side, p) by {}
    match find_level(levels, price) {
        Ok(i) => {
            let r = levels[i].remove_order(order_id);
            let ghost mid = levels@;
            assert forall|j: int| 0 <= j < levels@.len() && j != i implies #[trigger] levels@[j] == before[j] by {}
            if levels[i].is_empty() {
                levels.remove(i);
                proof {
                    assert forall|j: int| 0 <= j < i implies #[trigger] levels@[j] == before[j] by {}
                    assert forall|j: int| i <= j < levels@.len() implies #[trigger] levels@[j] == before[j + 1] by {}
                    assert forall|a: int, b: int|
                        #![trigger levels@[a].spec_price(), levels@[b].spec_price()]
                        0 <= a < b < levels@.len() implies levels@[a].spec_price() < levels@[b].spec_price() by {
                        if b < i {
                        } else if a < i {
                            assert(before[a].spec_price() < before[b + 1].spec_price());
                        } else {
                            assert(before[a + 1].spec_price() < before[b + 1].spec_price());
                        }
                    }
                    assert forall|id: u64| #[trigger] m2.contains_key(id) && m2[id].side == side implies exists|k: int|
                            0 <= k < levels@.len() && #[trigger] levels@[k].spec_price() == m2[id].price by {
                        let k = choose|k: int| 0 <= k < before.len() && #[trigger] before[k].spec_price() == m[id].price;
                        if k == i {
                            lemma_level_finite(m2, side, price);
                            assert(mid[i as int]@ =~= level_of(m2, side, price));
                            assert(mid[i as int]@.contains_key(id));
                            lemma_len_positive(mid[i as int]@);
                        } else if k < i {
                            assert(levels@[k].spec_price() == m2[id].price);
                        } else {
                            assert(levels@[k - 1].spec_price() == m2[id].price);
                        }
                    }
                }
            } else {
                proof {
                    assert forall|id: u64| #[trigger] m2.contains_key(id) && m2[id].side == side implies exists|k: int|
                            0 <= k < levels@.len() && #[trigger] levels@[k].spec_price() == m2[id].price by {
                        let k = choose|k: int| 0 <= k < before.len() && #[trigger] before[k].spec_price() == m[id].price;
                        assert(levels@[k].spec_price() == m2[id].price);
                    }
                }
            }
            r
        },
        Err(i) => {
            proof {
                let k = choose|k: int| 0 <= k < before.len() && #[trigger] before[k].spec_price() == m[order_id].price;
                assert(before[k].spec_price() == price);
            }
            None
        },
    }
}

/// Sets the size of the order `order_id`, which rests in `m` on `side` at
/// `price`, to `new_size`, leaving it where it is.
fn modify_in_side(
    levels: &mut Vec<OrderLevel>,
    order_id: u64,
    price: i64,
    new_size: u64,
    Ghost(m): Ghost<Map<u64, Order>>,
    Ghost(side): Ghost<Side>,
)
    requires
        side_wf(old(levels)@, m, side),
        m.dom().finite(),
        m.contains_key(order_id),
        m[order_id].side == side,
        m[order_id].price == price,
    ensures
        side_wf(final(levels)@, m.insert(order_id, m[order_id].with_size(new_size)), side),
{
    let ghost m2 = m.insert(order_id, m[order_id].with_size(new_size));
    let ghost before = levels@;
    assert(level_of(m2, side, price) =~= level_of(m, side, price).insert(order_id, m[order_id].with_size(new_size)));
    assert forall|p: i64| p != price implies level_of(m2, side, p) =~= level_of(m, side, p) by {}
    match find_level(levels, price) {
        Ok(i) => {
            let _ = levels[i].modify_order(order_id, new_size);
            proof {
                lemma_level_finite(m2, side, price);
                assert(levels@[i as int]@.contains_key(order_id));
                lemma_len_positive(levels@[i as int]@);
                assert forall|j: int| 0 <= j < levels@.len() && j != i implies #[trigger] levels@[j] == before[j] by {}
                assert forall|id: u64| #[trigger] m2.contains_key(id) && m2[id].side == side implies exists|k: int|
                        0 <= k < levels@.len() && #[trigger] levels@[k].spec_price() == m2[id].price by {
                    assert(m.contains_key(id));
                    let k = choose|k: int| 0 <= k < before.len() && #[trigger] before[k].spec_price() == m[id].price;
                    assert(levels@[k].spec_price() == m2[id].price);
                }
            }
        },
        Err(_) => {
            proof {
                let k = choose|k: int| 0 <= k < before.len() && #[trigger] before[k].spec_price() == m[order_id].price;
                assert(before[k].spec_price() == price);
            }
        },
    }
}

/// A level kept for `side` stands for a price present on that side, with the
/// total and count of the orders there.
pub proof fn lemma_level_present(levels: Seq<OrderLevel>, m: Map<u64, Order>, side: Side, i: int)
    requires
        side_wf(levels, m, side),
        m.dom().finite(),
        0 <= i < levels.len(),
    ensures
        has_level(m, side, levels[i].spec_price()),
        level_total(m, side, levels[i].spec_price()) == map_total(levels[i]@),
        level_count(m, side, levels[i].spec_price()) == levels[i]@.len(),
{
    let p = levels[i].spec_price();
    lemma_level_finite(m, side, p);
    lemma_len_positive(levels[i]@);
    let id = choose|id: u64| levels[i]@.contains_key(id);
    assert(level_of(m, side, p).contains_key(id));
}

/// Every price present on `side` has its level among those kept.
pub proof fn lemma_level_kept(levels: Seq<OrderLevel>, m: Map<u64, Order>, side: Side, p: i64)
    requires
        side_wf(levels, m, side),
        has_level(m, side, p),
    ensures
        exists|k: int| 0 <= k < levels.len() && #[trigger] levels[k].spec_price() == p,
{
    let id = choose|id: u64| #[trigger] level_of(m, side, p).contains_key(id);
    assert(m.contains_key(id) && m[id].side == side);
}

/// The limit order book of one instrument.
pub struct OrderBook {
    /// Bid levels, by increasing price.
    bids: Vec<OrderLevel>,
    /// Ask levels, by increasing price.
    asks: Vec<OrderLevel>,
    /// Where each resting order is: its side and price.
    order_index: HashMap<u64, (Side, i64)>,
    /// Every resting order, by identifier.
    orders: Ghost<Map<u64, Order>>,
}

impl View for OrderBook {
    type V = Map<u64, Order>;

    /// Every resting order, by identifier.
    closed spec fn view(&self) -> Map<u64, Order> {
        self.orders@
    }
}

impl OrderBook {
    /// The levels of `side`, by increasing price.
    pub closed spec fn spec_levels(&self, side: Side) -> Seq<OrderLevel> {
        match side {
            Side::Bid => self.bids@,
            Side::Ask => self.asks@,
        }
    }

    /// The index from order identifier to side and price.
    pub closed spec fn index_view(&self) -> Map<u64, (Side, i64)> {
        self.order_index@
    }

    /// The index agrees with the resting orders, and each side's levels hold
    /// exactly the orders of that side.
    pub closed spec fn wf(&self) -> bool {
        &&& self.orders@.dom().finite()
        &&& forall|id: u64| #[trigger]
            self.orders@.contains_key(id) ==> self.orders@[id].order_id == id
        &&& self.order_index@.dom() == self.orders@.dom()
        &&& forall|id: u64| #[trigger]
            self.orders@.contains_key(id) ==> self.order_index@[id] == (
                self.orders@[id].side,
                self.orders@[id].price,
            )
        &&& side_wf(self.bids@, self.orders@, Side::Bid)
        &&& side_wf(self.asks@, self.orders@, Side::Ask)
    }

    /// An empty book.
    pub fn new() -> (r: OrderBook)
        ensures
            r.wf(),
            r@ == Map::<u64, Order>::empty(),
    {
        OrderBook {
            bids: Vec::new(),
            asks: Vec::new(),
            order_index: HashMap::new(),
            orders: Ghost(Map::empty()),
        }
    }

    /// The levels of `side`, by increasing price.
    pub fn levels(&self, side: Side) -> (r: &Vec<OrderLevel>)
        requires
            self.wf(),
        ensures
            r@ == self.spec_levels(side),
            side_wf(r@, self@, side),
            self@.dom().finite(),
    {
        match side {
            Side::Bid => &self.bids,
            Side::Ask => &self.asks,
        }
    }

    /// The levels of `side`, for changing them.
    fn levels_mut(&mut self, side: Side) -> (r: &mut Vec<OrderLevel>)
        ensures
            r@ == old(self).spec_levels(side),
            final(self).spec_levels(side) == final(r)@,
            final(self).spec_levels(side.opposite()) == old(self).spec_levels(side.opposite()),
            final(self).order_index@ == old(self).order_index@,
            final(self).orders == old(self).orders,
    {
        match side {
            Side::Bid => &mut self.bids,
            Side::Ask => &mut self.asks,
        }
    }

    /// Adds `order` to the book. An order already resting under the same
    /// identifier is taken out first, wherever it rests, so the order may move
    /// to another price or side.
    pub fn add_order(&mut self, order: Order)
        requires
            old(self).wf(),
        ensures
            final(self).wf(),
            final(self)@ == old(self)@.insert(order.order_id, order),
    {
        self.remove_order(order.order_id);
        let ghost m = self.orders@;
        let ghost m2 = m.insert(order.order_id, order);
        add_to_side(self.levels_mut(order.side), order, Ghost(m));
        self.order_index.insert(order.order_id, (order.side, order.price));
        self.orders = Ghost(m2);
        proof {
            lemma_side_wf_other(self.spec_levels(order.side.opposite()), m, m2, order.side.opposite());
            assert(self.order_index@.dom() =~= m2.dom());
        }
    }

    /// Takes the order `order_id` out of the book and returns it, dropping its
    /// level if that leaves it empty. Does nothing when no such order rests.
    pub fn remove_order(&mut self, order_id: u64) -> (r: Option<Order>)
        requires
            old(self).wf(),
        ensures
            final(self).wf(),
            final(self)@ == old(self)@.remove(order_id),
            r == old(self)@.get(order_id),
    {
        let ghost m = self.orders@;
        match self.order_index.remove(&order_id) {
            None => {
                assert(m.remove(order_id) =~= m);
                None
            },
            Some((side, price)) => {
                let ghost m2 = m.remove(order_id);
                let r = remove_from_side(self.levels_mut(side), order_id, price, Ghost(m), Ghost(side));
                self.orders = Ghost(m2);
                proof {
                    lemma_side_wf_other(self.spec_levels(side.opposite()), m, m2, side.opposite());
                    assert(self.order_index@.dom() =~= m2.dom());
                }
                r
            },
        }
    }

    /// The order `order_id`, if it rests in the book.
    pub fn get_order(&self, order_id: u64) -> (r: Option<&Order>)
        requires
            self.wf(),
        ensures
            match r {
                Some(o) => self@.contains_key(order_id) && *o == self@[order_id],
                None => !self@.contains_key(order_id),
            },
    {
        let (side, price) = match self.order_index.get(&order_id) {
            Some(loc) => *loc,
            None => return None,
        };
        let levels = self.levels(side);
        let ghost m = self.orders@;
        match find_level(levels, price) {
            Ok(i) => {
                assert(level_of(m, side, price).contains_key(order_id));
                levels[i].get_order(order_id)
            },
            Err(_) => {
                proof {
                    let k = choose|k: int| 0 <= k < levels@.len() && #[trigger] levels@[k].spec_price() == m[order_id].price;
                    assert(levels@[k].spec_price() == price);
                }
                None
            },
        }
    }

    /// Sets the remaining size of the order `order_id` to `new_size`, leaving
    /// it at its price and side. A size of zero leaves the order resting.
    pub fn modify_order(&mut self, order_id: u64, new_size: u64) -> (r: Result<(), OrderBookError>)
        requires
            old(self).wf(),
        ensures
            final(self).wf(),
            old(self)@.contains_key(order_id) ==> r is Ok && final(self)@ == old(self)@.insert(
                order_id,
                old(self)@[order_id].with_size(new_size),
            ),
            !old(self)@.contains_key(order_id) ==> r == Err::<(), OrderBookError>(
                OrderBookError::OrderNotFound(order_id),
            ) && final(self)@ == old(self)@,
    {
        let (side, price) = match self.order_index.get(&order_id) {
            Some(loc) => *loc,
            None => return Err(OrderBookError::OrderNotFound(order_id)),
        };
        let ghost m = self.orders@;
        let ghost m2 = m.insert(order_id, m[order_id].with_size(new_size));
        modify_in_side(self.levels_mut(side), order_id, price, new_size, Ghost(m), Ghost(side));
        self.orders = Ghost(m2);
        proof {
            lemma_side_wf_other(self.spec_levels(side.opposite()), m, m2, side.opposite());
            assert(self.order_index@.dom() =~= m2.dom());
        }
        Ok(())
    }

    /// Takes `fill_quantity` off the order `order_id`. The order leaves the
    /// book when nothing of it remains. Fails, changing nothing, when there is
    /// no such order or when it has less than `fill_quantity` left.
    pub fn fill_order(&mut self, order_id: u64, fill_quantity: u64) -> (r: Result<(), OrderBookError>)
        requires
            old(self).wf(),
        ensures
            final(self).wf(),
            !old(self)@.contains_key(order_id) ==> r == Err::<(), OrderBookError>(
                OrderBookError::OrderNotFound(order_id),
            ) && final(self)@ == old(self)@,
            old(self)@.contains_key(order_id) && fill_quantity > old(self)@[order_id].size ==> r
                == Err::<(), OrderBookError>(
                OrderBookError::FillQuantityExceedsOrderSize(
                    fill_quantity,
                    old(self)@[order_id].size,
                ),
            ) && final(self)@ == old(self)@,
            old(self)@.contains_key(order_id) && fill_quantity == old(self)@[order_id].size ==> r
                is Ok && final(self)@ == old(self)@.remove(order_id),
            old(self)@.contains_key(order_id) && fill_quantity < old(self)@[order_id].size ==> r
                is Ok && final(self)@ == old(self)@.insert(
                order_id,
                old(self)@[order_id].with_size((old(self)@[order_id].size - fill_quantity) as u64),
            ),
    {
        let current_size = match self.get_order(order_id) {
            Some(o) => o.size,
            None => return Err(OrderBookError::OrderNotFound(order_id)),
        };
        if current_size < fill_quantity {
            return Err(OrderBookError::FillQuantityExceedsOrderSize(fill_quantity, current_size));
        }
        let new_size = current_size - fill_quantity;
        if new_size == 0 {
            self.remove_order(order_id);
            Ok(())
        } else {
            self.modify_order(order_id, new_size)
        }
    }
    /// The best bid: the highest bid price present, with the total size
    /// resting there; `None` when there are no bids.
    pub fn best_bid(&self) -> (r: Option<(i64, u64)>)
        requires
            self.wf(),
            totals_fit(self@, Side::Bid),
        ensures
            match r {
                None => forall|p: i64| !has_level(self@, Side::Bid, p),
                Some((p, t)) => is_best(self@, Side::Bid, p) && t == level_total(self@, Side::Bid, p),
            },
    {
        let levels = &self.bids;
        let ghost m = self.orders@;
        let n = levels.len();
        if n == 0 {
            proof {
                assert forall|p: i64| !has_level(m, Side::Bid, p) by {
                    if has_level(m, Side::Bid, p) {
                        lemma_level_kept(levels@, m, Side::Bid, p);
                    }
                }
            }
            None
        } else {
            let level = &levels[n - 1];
            proof {
                lemma_level_present(levels@, m, Side::Bid, n - 1);
                assert forall|q: i64| #[trigger] has_level(m, Side::Bid, q) && q != level.spec_price() implies ranks_above(Side::Bid, level.spec_price(), q) by {
                    lemma_level_kept(levels@, m, Side::Bid, q);
                    let k = choose|k: int| 0 <= k < levels@.len() && #[trigger] levels@[k].spec_price() == q;
                    assert(levels@[k].spec_price() < levels@[n - 1].spec_price());
                }
            }
            Some((level.price(), level.total_qty()))
        }
    }

    /// The best ask: the lowest ask price present, with the total size
    /// resting there; `None` when there are no asks.
    pub fn best_ask(&self) -> (r: Option<(i64, u64)>)
        requires
            self.wf(),
            totals_fit(self@, Side::Ask),
        ensures
            match r {
                None => forall|p: i64| !has_level(self@, Side::Ask, p),
                Some((p, t)) => is_best(self@, Side::Ask, p) && t == level_total(self@, Side::Ask, p),
            },
    {
        let levels = &self.asks;
        let ghost m = self.orders@;
        if levels.len() == 0 {
            proof {
                assert forall|p: i64| !has_level(m, Side::Ask, p) by {
                    if has_level(m, Side::Ask, p) {
                        lemma_level_kept(levels@, m, Side::Ask, p);
                    }
                }
            }
            None
        } else {
            let level = &levels[0];
            proof {
                lemma_level_present(levels@, m, Side::Ask, 0);
                assert forall|q: i64| #[trigger] has_level(m, Side::Ask, q) && q != level.spec_price() implies ranks_above(Side::Ask, level.spec_price(), q) by {
                    lemma_level_kept(levels@, m, Side::Ask, q);
                    let k = choose|k: int| 0 <= k < levels@.len() && #[trigger] levels@[k].spec_price() == q;
                    assert(levels@[0].spec_price() < levels@[k].spec_price());
                }
            }
            Some((level.price(), level.total_qty()))
        }
    }

    /// Up to `n` bid levels, highest price first, each as its price and the
    /// total size resting there.
    pub fn top_n_bids(&self, n: usize) -> (r: Vec<(i64, u64)>)
        requires
            self.wf(),
            totals_fit(self@, Side::Bid),
        ensures
            is_top_levels(self@, Side::Bid, n as nat, r@),
    {
        let levels = &self.bids;
        let ghost m = self.orders@;
        let len = levels.len();
        let mut r: Vec<(i64, u64)> = Vec::new();
        let mut i: usize = 0;
        while i < n && i < len
            invariant
                i <= len,
                i <= n,
                len == levels@.len(),
                side_wf(levels@, m, Side::Bid),
                totals_fit(m, Side::Bid),
                m.dom().finite(),
                r@.len() == i,
                forall|k: int|
                    0 <= k < i ==> (#[trigger] r@[k]).0 == levels@[len - 1 - k].spec_price() && r@[k].1
                        == map_total(levels@[len - 1 - k]@),
            decreases len - i,
        {
            let level = &levels[len - 1 - i];
            proof {
                lemma_level_present(levels@, m, Side::Bid, len - 1 - i);
            }
            r.push((level.price(), level.total_qty()));
            i += 1;
        }
        proof {
            assert forall|k: int| 0 <= k < r@.len() implies has_level(m, Side::Bid, #[trigger] r@[k].0)
                && r@[k].1 == level_total(m, Side::Bid, r@[k].0) by {
                lemma_level_present(levels@, m, Side::Bid, len - 1 - k);
            }
            assert forall|a: int, b: int| #![trigger r@[a].0, r@[b].0] 0 <= a < b < r@.len() implies ranks_above(Side::Bid, r@[a].0, r@[b].0) by {
                assert(levels@[len - 1 - b].spec_price() < levels@[len - 1 - a].spec_price());
            }
            assert forall|p: i64| #[trigger] has_level(m, Side::Bid, p) && (forall|k: int| 0 <= k < r@.len() ==> r@[k].0 != p) implies {
                &&& r@.len() == n
                &&& forall|k: int| 0 <= k < r@.len() ==> ranks_above(Side::Bid, #[trigger] r@[k].0, p)
            } by {
                lemma_level_kept(levels@, m, Side::Bid, p);
                let j = choose|j: int| 0 <= j < levels@.len() && #[trigger] levels@[j].spec_price() == p;
                if j >= len - i {
                    assert(r@[len - 1 - j].0 == p);
                }
                assert forall|k: int| 0 <= k < r@.len() implies ranks_above(Side::Bid, #[trigger] r@[k].0, p) by {
                    assert(levels@[j].spec_price() < levels@[len - 1 - k].spec_price());
                }
            }
        }
        r
    }

    /// Up to `n` ask levels, lowest price first, each as its price and the
    /// total size resting there.
    pub fn top_n_asks(&self, n: usize) -> (r: Vec<(i64, u64)>)
        requires
            self.wf(),
            totals_fit(self@, Side::Ask),
        ensures
            is_top_levels(self@, Side::Ask, n as nat, r@),
    {
        let levels = &self.asks;
        let ghost m = self.orders@;
        let len = levels.len();
        let mut r: Vec<(i64, u64)> = Vec::new();
        let mut i: usize = 0;
        while i < n && i < len
            invariant
                i <= len,
                i <= n,
                len == levels@.len(),
                side_wf(levels@, m, Side::Ask),
                totals_fit(m, Side::Ask),
                m.dom().finite(),
                r@.len() == i,
                forall|k: int|
                    0 <= k < i ==> (#[trigger] r@[k]).0 == levels@[k].spec_price() && r@[k].1
                        == map_total(levels@[k]@),
            decreases len - i,
        {
            let level = &levels[i];
            proof {
                lemma_level_present(levels@, m, Side::Ask, i as int);
            }
            r.push((level.price(), level.total_qty()));
            i += 1;
        }
        proof {
            assert forall|k: int| 0 <= k < r@.len() implies has_level(m, Side::Ask, #[trigger] r@[k].0)
                && r@[k].1 == level_total(m, Side::Ask, r@[k].0) by {
                lemma_level_present(levels@, m, Side::Ask, k);
            }
            assert forall|a: int, b: int| #![trigger r@[a].0, r@[b].0] 0 <= a < b < r@.len() implies ranks_above(Side::Ask, r@[a].0, r@[b].0) by {
                assert(levels@[a].spec_price() < levels@[b].spec_price());
            }
            assert forall|p: i64| #[trigger] has_level(m, Side::Ask, p) && (forall|k: int| 0 <= k < r@.len() ==> r@[k].0 != p) implies {
                &&& r@.len() == n
                &&& forall|k: int| 0 <= k < r@.len() ==> ranks_above(Side::Ask, #[trigger] r@[k].0, p)
            } by {
                lemma_level_kept(levels@, m, Side::Ask, p);
                let j = choose|j: int| 0 <= j < levels@.len() && #[trigger] levels@[j].spec_price() == p;
                if j < i {
                    assert(r@[j].0 == p);
                }
                assert forall|k: int| 0 <= k < r@.len() implies ranks_above(Side::Ask, #[trigger] r@[k].0, p) by {
                    assert(levels@[k].spec_price() < levels@[j].spec_price());
                }
            }
        }
        r
    }
}

/// In a well-formed book, every identifier in the index leads to a level on
/// the recorded side at the recorded price, and that level holds the order
/// with its current size; every kept level holds exactly the orders of its
/// side at its price, and no kept level is empty.
pub proof fn lemma_index_consistency(book: &OrderBook)
    requires
        book.wf(),
    ensures
        book.index_view().dom() == book@.dom(),
        forall|id: u64| #[trigger]
            book.index_view().contains_key(id) ==> exists|i: int|
                #![trigger book.spec_levels(book.index_view()[id].0)[i]]
                {
                    let side = book.index_view()[id].0;
                    let price = book.index_view()[id].1;
                    &&& 0 <= i < book.spec_levels(side).len()
                    &&& book.spec_levels(side)[i].spec_price() == price
                    &&& book.spec_levels(side)[i]@.contains_key(id)
                    &&& book.spec_levels(side)[i]@[id] == book@[id]
                },
        forall|side: Side, i: int|
            0 <= i < book.spec_levels(side).len() ==> {
                &&& (#[trigger] book.spec_levels(side)[i])@.len() > 0
                &&& book.spec_levels(side)[i]@ == level_of(
                    book@,
                    side,
                    book.spec_levels(side)[i].spec_price(),
                )
            },
{
    assert forall|id: u64| #[trigger] book.index_view().contains_key(id) implies exists|i: int|
        #![trigger book.spec_levels(book.index_view()[id].0)[i]]
        {
            let side = book.index_view()[id].0;
            let price = book.index_view()[id].1;
            &&& 0 <= i < book.spec_levels(side).len()
            &&& book.spec_levels(side)[i].spec_price() == price
            &&& book.spec_levels(side)[i]@.contains_key(id)
            &&& book.spec_levels(side)[i]@[id] == book@[id]
        } by {
        let m = book@;
        let side = m[id].side;
        let levels = book.spec_levels(side);
        assert(m.contains_key(id));
        let k = choose|k: int| 0 <= k < levels.len() && #[trigger] levels[k].spec_price() == m[id].price;
        assert(level_of(m, side, m[id].price).contains_key(id));
        assert(levels[k]@.contains_key(id));
        assert(book.index_view()[id].0 == side);
        assert(book.spec_levels(book.index_view()[id].0)[k] == levels[k]);
    }
}

/// Adding, resizing or removing the order `id`, when it rests (if at all) on
/// the side of `o`, leaves every level of the other side as it was: which
/// prices are present there, and the total and count at each. The best price
/// and the top levels of that side are stated over these alone.
pub proof fn lemma_side_independence(m: Map<u64, Order>, id: u64, o: Order)
    requires
        m.contains_key(id) ==> m[id].side == o.side,
    ensures
        forall|p: i64|
            #![trigger level_of(m.insert(id, o), o.side.opposite(), p)]
            level_of(m.insert(id, o), o.side.opposite(), p) == level_of(m, o.side.opposite(), p)
            && has_level(m.insert(id, o), o.side.opposite(), p) == has_level(m, o.side.opposite(), p)
            && level_total(m.insert(id, o), o.side.opposite(), p) == level_total(m, o.side.opposite(), p)
            && level_count(m.insert(id, o), o.side.opposite(), p) == level_count(m, o.side.opposite(), p),
        forall|p: i64|
            #![trigger level_of(m.remove(id), o.side.opposite(), p)]
            level_of(m.remove(id), o.side.opposite(), p) == level_of(m, o.side.opposite(), p)
            && has_level(m.remove(id), o.side.opposite(), p) == has_level(m, o.side.opposite(), p)
            && level_total(m.remove(id), o.side.opposite(), p) == level_total(m, o.side.opposite(), p)
            && level_count(m.remove(id), o.side.opposite(), p) == level_count(m, o.side.opposite(), p),
{
    let other = o.side.opposite();
    assert(other != o.side);
    assert forall|p: i64| #[trigger] level_of(m.insert(id, o), other, p) == level_of(m, other, p) by {
        assert(level_of(m.insert(id, o), other, p) =~= level_of(m, other, p));
    }
    assert forall|p: i64| #[trigger] level_of(m.remove(id), other, p) == level_of(m, other, p) by {
        assert(level_of(m.remove(id), other, p) =~= level_of(m, other, p));
    }
}

} // verus!
