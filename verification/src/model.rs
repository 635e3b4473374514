//! The abstract order book: for each side, a map from price to the queue
//! of orders resting at that price (oldest first). Contracts of the book
//! and the engine are stated over this model.
use crate::price_level::qty_sum;
use crate::types::{Order, OrderId, Price, Side};
use vstd::prelude::*;

verus! {

/// Both sides of a book: price (in ticks) to the FIFO queue at that price.
pub struct BookView {
    pub bids: Map<u64, Seq<Order>>,
    pub asks: Map<u64, Seq<Order>>,
}

impl BookView {
    pub open spec fn side(self, s: Side) -> Map<u64, Seq<Order>> {
        match s {
            Side::Buy => self.bids,
            Side::Sell => self.asks,
        }
    }

    pub open spec fn set_side(self, s: Side, m: Map<u64, Seq<Order>>) -> BookView {
        match s {
            Side::Buy => BookView { bids: m, asks: self.asks },
            Side::Sell => BookView { bids: self.bids, asks: m },
        }
    }
}

/// The empty book.
pub open spec fn empty_view() -> BookView {
    BookView { bids: Map::empty(), asks: Map::empty() }
}

pub open spec fn opposite(s: Side) -> Side {
    match s {
        Side::Buy => Side::Sell,
        Side::Sell => Side::Buy,
    }
}

/// Price `a` has priority over price `b` on side `s`: higher bids and lower
/// asks come first.
pub open spec fn better(s: Side, a: u64, b: u64) -> bool {
    match s {
        Side::Buy => a > b,
        Side::Sell => a < b,
    }
}

/// `p` is the best price present on side `s` of the map.
pub open spec fn is_best(m: Map<u64, Seq<Order>>, s: Side, p: u64) -> bool {
    &&& m.contains_key(p)
    &&& forall|q: u64| #[trigger] m.contains_key(q) && q != p ==> better(s, p, q)
}

/// The best price on side `s` (highest bid, lowest ask), if any.
pub open spec fn best(m: Map<u64, Seq<Order>>, s: Side) -> Option<u64> {
    if exists|p: u64| is_best(m, s, p) {
        Some(choose|p: u64| is_best(m, s, p))
    } else {
        None
    }
}

/// The resting quantity at price `p` (zero where no level exists).
pub open spec fn level_qty(m: Map<u64, Seq<Order>>, p: u64) -> nat {
    if m.contains_key(p) {
        qty_sum(m[p])
    } else {
        0
    }
}

/// Appends `o` at the back of the queue at `p`, creating the level if needed.
pub open spec fn push_order(m: Map<u64, Seq<Order>>, p: u64, o: Order) -> Map<u64, Seq<Order>> {
    m.insert(
        p,
        if m.contains_key(p) {
            m[p].push(o)
        } else {
            seq![o]
        },
    )
}

/// Removes the `i`-th order of the queue at `p`, dropping the level once it is empty.
pub open spec fn remove_at(m: Map<u64, Seq<Order>>, p: u64, i: int) -> Map<u64, Seq<Order>> {
    let q = m[p].remove(i);
    if q.len() == 0 {
        m.remove(p)
    } else {
        m.insert(p, q)
    }
}

/// Takes `fill` off the front order at `p`; a front order left with nothing
/// leaves the queue, and an emptied level leaves the map.
pub open spec fn fill_front(m: Map<u64, Seq<Order>>, p: u64, fill: u64) -> Map<u64, Seq<Order>> {
    let f = m[p][0];
    let rest = (f.remaining_qty.0 - fill) as u64;
    if rest == 0 {
        remove_at(m, p, 0)
    } else {
        m.insert(p, m[p].update(0, Order { remaining_qty: crate::types::Qty(rest), ..f }))
    }
}

/// An order may rest on side `s` at price `p`.
pub open spec fn order_ok(o: Order, s: Side, p: u64) -> bool {
    &&& o.side == s
    &&& o.price == Some(Price(p))
    &&& o.remaining_qty.0 > 0
}

/// A well-formed side: finitely many non-empty levels whose orders belong there.
pub open spec fn side_wf(m: Map<u64, Seq<Order>>, s: Side) -> bool {
    &&& m.dom().finite()
    &&& forall|p: u64| #[trigger] m.contains_key(p) ==> m[p].len() > 0
    &&& forall|p: u64, i: int|
        #![trigger m[p][i]]
        m.contains_key(p) && 0 <= i < m[p].len() ==> order_ok(m[p][i], s, p)
}

/// Position `(s, p, i)` holds an order.
pub open spec fn at(v: BookView, s: Side, p: u64, i: int) -> bool {
    v.side(s).contains_key(p) && 0 <= i < v.side(s)[p].len()
}

/// No two resting orders share an id.
pub open spec fn ids_unique(v: BookView) -> bool {
    forall|s1: Side, p1: u64, i1: int, s2: Side, p2: u64, i2: int|
        #![trigger v.side(s1)[p1][i1], v.side(s2)[p2][i2]]
        at(v, s1, p1, i1) && at(v, s2, p2, i2) && v.side(s1)[p1][i1].id == v.side(s2)[p2][i2].id
            ==> s1 == s2 && p1 == p2 && i1 == i2
}

/// A well-formed book.
pub open spec fn view_wf(v: BookView) -> bool {
    &&& side_wf(v.bids, Side::Buy)
    &&& side_wf(v.asks, Side::Sell)
    &&& ids_unique(v)
}

/// Some resting order carries `id`.
pub open spec fn has_order(v: BookView, id: OrderId) -> bool {
    exists|s: Side, p: u64, i: int| #[trigger] at(v, s, p, i) && v.side(s)[p][i].id == id
}

/// Where the resting order with `id` sits.
pub open spec fn locate(v: BookView, id: OrderId) -> (Side, u64, int) {
    choose|s: Side, p: u64, i: int| #[trigger] at(v, s, p, i) && v.side(s)[p][i].id == id
}

/// The resting order with `id`.
pub open spec fn order_of(v: BookView, id: OrderId) -> Order {
    let (s, p, i) = locate(v, id);
    v.side(s)[p][i]
}

/// The book without the resting order `id`.
pub open spec fn without(v: BookView, id: OrderId) -> BookView {
    let (s, p, i) = locate(v, id);
    v.set_side(s, remove_at(v.side(s), p, i))
}

/// `keys` lists every price of the map exactly once, best first.
pub open spec fn enumerates(m: Map<u64, Seq<Order>>, s: Side, keys: Seq<u64>) -> bool {
    &&& forall|i: int, j: int| 0 <= i < j < keys.len() ==> better(s, #[trigger] keys[i], #[trigger] keys[j])
    &&& forall|i: int| 0 <= i < keys.len() ==> m.contains_key(#[trigger] keys[i])
    &&& forall|p: u64| #[trigger] m.contains_key(p) ==> keys.contains(p)
}

/// `r` lists the first `n` levels of the side, best first, as (price, total
/// remaining quantity): every level left out is worse than all listed ones.
pub open spec fn depth_ok(m: Map<u64, Seq<Order>>, s: Side, n: nat, r: Seq<(Price, crate::types::Qty)>) -> bool {
    &&& r.len() <= n
    &&& forall|i: int, j: int| 0 <= i < j < r.len() ==> better(s, (#[trigger] r[i]).0.0, (#[trigger] r[j]).0.0)
    &&& forall|i: int|
        0 <= i < r.len() ==> m.contains_key((#[trigger] r[i]).0.0) && r[i].1.0 == qty_sum(m[r[i].0.0])
    &&& forall|p: u64| #[trigger]
        m.contains_key(p) ==> (exists|i: int| 0 <= i < r.len() && (#[trigger] r[i]).0.0 == p) || (r.len()
            == n && forall|i: int| 0 <= i < r.len() ==> better(s, (#[trigger] r[i]).0.0, p))
}

/// The best price is unique.
pub proof fn lemma_best_unique(m: Map<u64, Seq<Order>>, s: Side, p: u64)
    requires
        is_best(m, s, p),
    ensures
        best(m, s) == Some(p),
{
    let c = choose|q: u64| is_best(m, s, q);
    assert(is_best(m, s, c));
    if c != p {
        assert(better(s, p, c));
        assert(better(s, c, p));
    }
}

/// A side with no price has no best price.
pub proof fn lemma_best_none(m: Map<u64, Seq<Order>>, s: Side)
    requires
        m.dom().is_empty(),
    ensures
        best(m, s) is None,
{
}

/// A finite, non-empty side has a best price.
pub proof fn lemma_best_exists(m: Map<u64, Seq<Order>>, s: Side)
    requires
        m.dom().finite(),
        !m.dom().is_empty(),
    ensures
        best(m, s) is Some,
        is_best(m, s, best(m, s)->0),
    decreases m.dom().len(),
{
    let k = m.dom().choose();
    assert(m.contains_key(k));
    let m2 = m.remove(k);
    assert(m2.dom() =~= m.dom().remove(k));
    if m2.dom().is_empty() {
        assert(is_best(m, s, k));
    } else {
        lemma_best_exists(m2, s);
        let b = best(m2, s)->0;
        if better(s, k, b) {
            assert(is_best(m, s, k));
        } else {
            assert(is_best(m, s, b));
        }
    }
    let w = choose|p: u64| is_best(m, s, p);
    lemma_best_unique(m, s, w);
}

} // verus!
