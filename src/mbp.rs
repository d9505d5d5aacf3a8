//! The market-by-price view: each price level of a book summed up.
use std::collections::BTreeMap;

use vstd::prelude::*;
use vstd::std_specs::cmp::OrdSpec;
use vstd::std_specs::iter::IteratorSpec;

use crate::book::{
    has_level, lemma_level_kept, lemma_level_present, level_count, level_total, side_wf, totals_fit,
    OrderBook,
};
use crate::level::{map_total, OrderLevel};
use crate::order::{Order, Side};

verus! {

/// The aggregates of one price level.
#[derive(Debug, Clone, Copy, PartialEq, Eq, Structural)]
pub struct OrderLevelSummary {
    pub price: i64,
    pub total_quantity: u64,
    pub order_count: usize,
}

impl OrderLevelSummary {
    /// The summary of `level`: its price, the sum of its orders' sizes and the
    /// number of its orders.
    pub fn from_level(level: &OrderLevel) -> (r: OrderLevelSummary)
        requires
            level.wf(),
            map_total(level@) <= u64::MAX,
        ensures
            r.price == level.spec_price(),
            r.total_quantity == map_total(level@),
            r.order_count == level@.len(),
    {
        OrderLevelSummary {
            price: level.price(),
            total_quantity: level.total_qty(),
            order_count: level.order_count(),
        }
    }
}

/// The summaries of the levels of `side` in a book holding the orders `m`,
/// keyed by price.
pub open spec fn summaries(m: Map<u64, Order>, side: Side) -> Map<i64, OrderLevelSummary> {
    Map::new(
        |p: i64| has_level(m, side, p),
        |p: i64|
            OrderLevelSummary {
                price: p,
                total_quantity: level_total(m, side, p) as u64,
                order_count: level_count(m, side, p) as usize,
            },
    )
}

/// Whether `rows` lists the summaries of `m` for `side`, one row per price,
/// by increasing price: side, price, total size and order count.
pub open spec fn lists_side(rows: Seq<(Side, i64, u64, usize)>, side: Side, m: Map<i64, OrderLevelSummary>) -> bool {
    &&& forall|i: int|
        0 <= i < rows.len() ==> {
            &&& (#[trigger] rows[i]).0 == side
            &&& m.contains_key(rows[i].1)
            &&& rows[i].2 == m[rows[i].1].total_quantity
            &&& rows[i].3 == m[rows[i].1].order_count
        }
    &&& forall|i: int, j: int| #![trigger rows[i], rows[j]] 0 <= i < j < rows.len() ==> rows[i].1 < rows[j].1
    &&& forall|p: i64| #[trigger] m.contains_key(p) ==> exists|i: int| 0 <= i < rows.len() && #[trigger] rows[i].1 == p
}

/// Appends to `rows` one row per entry of `levels`, by increasing price.
fn push_side(rows: &mut Vec<(Side, i64, u64, usize)>, side: Side, levels: &BTreeMap<i64, OrderLevelSummary>)
    ensures
        final(rows)@.len() >= old(rows)@.len(),
        final(rows)@.subrange(0, old(rows)@.len() as int) == old(rows)@,
        lists_side(final(rows)@.subrange(old(rows)@.len() as int, final(rows)@.len() as int), side, levels@),
{
    let ghost start = rows@.len();
    let ghost v = vstd::std_specs::btree::spec_btree_map_iter(levels).remaining();
    for (price, summary) in it: levels.iter()
        invariant
            it.seq() == v,
            rows@.len() == start + it.index(),
            rows@.subrange(0, start as int) == old(rows)@,
            forall|i: int| 0 <= i < it.index() ==> #[trigger] rows@[start + i] == (side, *it.seq()[i].0, it.seq()[i].1.total_quantity, it.seq()[i].1.order_count),
    {
        rows.push((side, *price, summary.total_quantity, summary.order_count));
    }
    proof {
        let listed = rows@.subrange(start as int, rows@.len() as int);
        assert forall|i: int| 0 <= i < listed.len() implies #[trigger] listed[i] == (side, *v[i].0, v[i].1.total_quantity, v[i].1.order_count) by {
            assert(listed[i] == rows@[start + i]);
        }
        let keys = v.map_values(|kv: (&i64, &OrderLevelSummary)| *kv.0);
        assert(listed.len() == v.len());
        assert(vstd::std_specs::btree::increasing_seq(keys));
        assert forall|i: int| 0 <= i < listed.len() implies {
            &&& (#[trigger] listed[i]).0 == side
            &&& levels@.contains_key(listed[i].1)
            &&& listed[i].2 == levels@[listed[i].1].total_quantity
            &&& listed[i].3 == levels@[listed[i].1].order_count
        } by {
            assert(listed[i] == rows@[start + i]);
            assert(levels@.contains_key(*v[i].0));
        }
        assert forall|i: int, j: int| #![trigger listed[i], listed[j]] 0 <= i < j < listed.len() implies listed[i].1 < listed[j].1 by {
            assert(listed[i] == rows@[start + i]);
            assert(listed[j] == rows@[start + j]);
            assert(keys[i] == *v[i].0);
            assert(keys[j] == *v[j].0);
            assert(vstd::laws_cmp::obeys_cmp::<i64>());
            assert(keys[i].cmp_spec(&keys[j]) is Less);
        }
        assert forall|p: i64| #[trigger] levels@.contains_key(p) implies exists|i: int| 0 <= i < listed.len() && #[trigger] listed[i].1 == p by {
            assert(v.contains((&p, &levels@[p])));
            let i = choose|i: int| 0 <= i < v.len() && v[i] == (&p, &levels@[p]);
            assert(listed[i] == rows@[start + i]);
        }
    }
}

/// Every level of a book, summed up, by side and price.
#[derive(Debug)]
pub struct MarketByPrice {
    pub bids: BTreeMap<i64, OrderLevelSummary>,
    pub asks: BTreeMap<i64, OrderLevelSummary>,
}

/// Summaries of `levels`, which hold the orders of `m` on `side`, keyed by price.
fn summarize_side(levels: &Vec<OrderLevel>, Ghost(m): Ghost<Map<u64, Order>>, Ghost(side): Ghost<Side>) -> (r: BTreeMap<i64, OrderLevelSummary>)
    requires
        side_wf(levels@, m, side),
        m.dom().finite(),
        totals_fit(m, side),
    ensures
        r@ == summaries(m, side),
{
    let mut r: BTreeMap<i64, OrderLevelSummary> = BTreeMap::new();
    let mut i: usize = 0;
    while i < levels.len()
        invariant
            i <= levels@.len(),
            side_wf(levels@, m, side),
            m.dom().finite(),
            totals_fit(m, side),
            r@ == summaries(m, side).restrict(Set::new(|p: i64| exists|k: int| 0 <= k < i && #[trigger] levels@[k].spec_price() == p)),
        decreases levels@.len() - i,
    {
        let level = &levels[i];
        proof {
            lemma_level_present(levels@, m, side, i as int);
        }
        let summary = OrderLevelSummary::from_level(level);
        r.insert(level.price(), summary);
        i += 1;
        proof {
            assert(r@ =~= summaries(m, side).restrict(Set::new(|p: i64| exists|k: int| 0 <= k < i && #[trigger] levels@[k].spec_price() == p)));
        }
    }
    proof {
        assert forall|p: i64| has_level(m, side, p) implies exists|k: int| 0 <= k < i && #[trigger] levels@[k].spec_price() == p by {
            lemma_level_kept(levels@, m, side, p);
        }
        assert(r@ =~= summaries(m, side));
    }
    r
}

impl MarketByPrice {
    /// A view with no levels.
    pub fn new() -> (r: MarketByPrice)
        ensures
            r.bids@ == Map::<i64, OrderLevelSummary>::empty(),
            r.asks@ == Map::<i64, OrderLevelSummary>::empty(),
    {
        MarketByPrice { bids: BTreeMap::new(), asks: BTreeMap::new() }
    }

    /// The summaries of every level of `book`, on each side, keyed by price.
    pub fn from_book(book: &OrderBook) -> (r: MarketByPrice)
        requires
            book.wf(),
            totals_fit(book@, Side::Bid),
            totals_fit(book@, Side::Ask),
        ensures
            r.bids@ == summaries(book@, Side::Bid),
            r.asks@ == summaries(book@, Side::Ask),
    {
        let bids = summarize_side(book.levels(Side::Bid), Ghost(book@), Ghost(Side::Bid));
        let asks = summarize_side(book.levels(Side::Ask), Ghost(book@), Ghost(Side::Ask));
        MarketByPrice { bids, asks }
    }
    /// One row per level, the bids first and then the asks, each side by
    /// increasing price: side, price, total size and order count.
    pub fn level_rows(&self) -> (r: Vec<(Side, i64, u64, usize)>)
        ensures
            exists|nb: int|
                0 <= nb <= r@.len() && lists_side(r@.subrange(0, nb), Side::Bid, self.bids@)
                    && lists_side(r@.subrange(nb, r@.len() as int), Side::Ask, self.asks@),
    {
        let mut rows: Vec<(Side, i64, u64, usize)> = Vec::new();
        push_side(&mut rows, Side::Bid, &self.bids);
        let ghost nb = rows@.len() as int;
        let ghost bid_rows = rows@;
        push_side(&mut rows, Side::Ask, &self.asks);
        proof {
            assert(rows@.subrange(0, nb) =~= bid_rows.subrange(0, nb));
        }
        rows
    }
}

} // verus!
