//! The order book: price levels on both sides, the arena that holds every
//! resting order, and an index from order id to arena node.
use crate::arena::{arena_view, slab_get, slab_with_capacity};
use crate::model::{
    at, best, better, enumerates, has_order, is_best, level_qty, locate, order_of, order_ok,
    push_order, remove_at, fill_front, side_wf, view_wf, without, BookView, lemma_best_unique,
    lemma_best_none, ids_unique,
};
use crate::price_level::{qty_sum, Level, NodeId, OrderNode};
use crate::sorted::{entries, first_key};
use crate::types::{FillResult, Order, OrderId, Price, Qty, Side};
use slab::Slab;
use std::collections::BTreeMap;
use std::collections::HashMap;
use vstd::prelude::*;

verus! {

broadcast use vstd::std_specs::btree::group_btree_axioms, vstd::std_specs::hash::group_hash_axioms;

/// The map key under which a level at price `p` is stored on side `s`:
/// asks by price, bids by `u64::MAX - price`, so that in both maps the
/// smallest key is the best price.
pub open spec fn key_of(s: Side, p: u64) -> u64 {
    match s {
        Side::Buy => (u64::MAX - p) as u64,
        Side::Sell => p,
    }
}

/// `key_of` undoes itself.
pub proof fn lemma_key_of_involution(s: Side, p: u64)
    ensures
        key_of(s, key_of(s, p)) == p,
{
}

fn side_key(s: Side, p: u64) -> (k: u64)
    ensures
        k == key_of(s, p),
{
    match s {
        Side::Buy => u64::MAX - p,
        Side::Sell => p,
    }
}

pub open spec fn levels_of(bids: Map<u64, Level>, asks: Map<u64, Level>, s: Side) -> Map<u64, Level> {
    match s {
        Side::Buy => bids,
        Side::Sell => asks,
    }
}

/// A level stored on side `s` for price `p`: well-formed, non-empty, and
/// holding only orders that may rest there.
pub open spec fn level_ok(l: Level, a: Map<usize, OrderNode>, s: Side, p: u64) -> bool {
    &&& l.wf(a)
    &&& l.level_price() == Price(p)
    &&& l.ids().len() > 0
    &&& forall|i: int| 0 <= i < l.ids().len() ==> order_ok(#[trigger] l.orders(a)[i], s, p)
}

/// Node `n` of the arena sits in the level of its order's side and price.
pub open spec fn placed(
    bids: Map<u64, Level>,
    asks: Map<u64, Level>,
    a: Map<usize, OrderNode>,
    n: usize,
) -> bool {
    let o = a[n].spec_order();
    let k = key_of(o.side, o.price.unwrap().0);
    &&& o.price is Some
    &&& levels_of(bids, asks, o.side).contains_key(k)
    &&& levels_of(bids, asks, o.side)[k].ids().contains(NodeId(n))
}

/// The levels of both sides are sound and cover the arena.
pub open spec fn levels_wf(
    bids: Map<u64, Level>,
    asks: Map<u64, Level>,
    a: Map<usize, OrderNode>,
) -> bool {
    &&& forall|s: Side, k: u64| #[trigger]
        levels_of(bids, asks, s).contains_key(k) ==> level_ok(
            levels_of(bids, asks, s)[k],
            a,
            s,
            key_of(s, k),
        )
    &&& forall|n: usize| #[trigger] a.contains_key(n) ==> placed(bids, asks, a, n)
}

/// The id index finds exactly the arena nodes, by their orders' ids.
pub open spec fn index_wf(a: Map<usize, OrderNode>, idx: Map<u64, NodeId>) -> bool {
    &&& forall|id: u64| #[trigger]
        idx.contains_key(id) ==> a.contains_key(idx[id].0) && a[idx[id].0].spec_order().id.0 == id
    &&& forall|n: usize| #[trigger]
        a.contains_key(n) ==> idx.contains_key(a[n].spec_order().id.0) && idx[a[n].spec_order().id.0]
            == NodeId(n)
}

/// The book invariant over its parts.
pub open spec fn parts_wf(
    bids: Map<u64, Level>,
    asks: Map<u64, Level>,
    a: Map<usize, OrderNode>,
    idx: Map<u64, NodeId>,
) -> bool {
    &&& levels_wf(bids, asks, a)
    &&& index_wf(a, idx)
}

/// The queues of one side, keyed by price.
pub open spec fn side_view_of(lv: Map<u64, Level>, a: Map<usize, OrderNode>, s: Side) -> Map<
    u64,
    Seq<Order>,
> {
    Map::new(|p: u64| lv.contains_key(key_of(s, p)), |p: u64| lv[key_of(s, p)].orders(a))
}

pub open spec fn view_of(bids: Map<u64, Level>, asks: Map<u64, Level>, a: Map<usize, OrderNode>) -> BookView {
    BookView { bids: side_view_of(bids, a, Side::Buy), asks: side_view_of(asks, a, Side::Sell) }
}

/// The order book. Each side maps a key (see `key_of`) to its price level;
/// every resting order lives in `arena`; `order_index` finds an order's
/// node from its id.
pub struct OrderBook {
    arena: Slab<OrderNode>,
    bids: BTreeMap<u64, Level>,
    asks: BTreeMap<u64, Level>,
    order_index: HashMap<u64, NodeId>,
}

impl View for OrderBook {
    type V = BookView;

    closed spec fn view(&self) -> BookView {
        view_of(self.bids@, self.asks@, arena_view(self.arena))
    }
}

/// A well-formed book's view is well-formed.
pub proof fn lemma_parts_view_wf(
    bids: Map<u64, Level>,
    asks: Map<u64, Level>,
    a: Map<usize, OrderNode>,
    idx: Map<u64, NodeId>,
)
    requires
        parts_wf(bids, asks, a, idx),
        bids.dom().finite(),
        asks.dom().finite(),
    ensures
        view_wf(view_of(bids, asks, a)),
{
    let v = view_of(bids, asks, a);
    assert forall|s: Side| side_wf(#[trigger] v.side(s), s) by {
        let lv = levels_of(bids, asks, s);
        let m = v.side(s);
        assert(m == side_view_of(lv, a, s));
        let f = |k: u64| key_of(s, k);
        assert(m.dom() =~= lv.dom().map(f)) by {
            assert forall|p: u64| m.dom().contains(p) implies lv.dom().map(f).contains(p) by {
                lemma_key_of_involution(s, p);
                assert(lv.dom().contains(key_of(s, p)));
                assert(f(key_of(s, p)) == p);
            }
            assert forall|p: u64| lv.dom().map(f).contains(p) implies m.dom().contains(p) by {
                let k = choose|k: u64| lv.dom().contains(k) && f(k) == p;
                lemma_key_of_involution(s, k);
            }
        }
        lv.dom().lemma_map_finite(f);
        assert forall|p: u64| #[trigger] m.contains_key(p) implies m[p].len() > 0 by {
            lemma_key_of_involution(s, p);
            assert(lv.contains_key(key_of(s, p)));
        }
        assert forall|p: u64, i: int| m.contains_key(p) && 0 <= i < m[p].len() implies order_ok(
            #[trigger] m[p][i],
            s,
            p,
        ) by {
            lemma_key_of_involution(s, p);
            let l = lv[key_of(s, p)];
            assert(level_ok(l, a, s, key_of(s, key_of(s, p))));
            assert(m[p][i] == l.orders(a)[i]);
        }
    }
    assert(side_wf(v.side(Side::Buy), Side::Buy));
    assert(side_wf(v.side(Side::Sell), Side::Sell));
    assert forall|s1: Side, p1: u64, i1: int, s2: Side, p2: u64, i2: int|
        at(v, s1, p1, i1) && at(v, s2, p2, i2) && #[trigger] v.side(s1)[p1][i1].id == #[trigger] v.side(
            s2,
        )[p2][i2].id implies s1 == s2 && p1 == p2 && i1 == i2 by {
        let l1 = levels_of(bids, asks, s1)[key_of(s1, p1)];
        let l2 = levels_of(bids, asks, s2)[key_of(s2, p2)];
        lemma_key_of_involution(s1, p1);
        lemma_key_of_involution(s2, p2);
        assert(level_ok(l1, a, s1, p1));
        assert(level_ok(l2, a, s2, p2));
        let n1 = l1.ids()[i1].0;
        let n2 = l2.ids()[i2].0;
        l1.lemma_ids_in_arena(a, i1);
        l2.lemma_ids_in_arena(a, i2);
        assert(v.side(s1)[p1][i1] == a[n1].spec_order());
        assert(v.side(s2)[p2][i2] == a[n2].spec_order());
        assert(idx[a[n1].spec_order().id.0] == NodeId(n1));
        assert(idx[a[n2].spec_order().id.0] == NodeId(n2));
        assert(n1 == n2);
        assert(order_ok(l1.orders(a)[i1], s1, p1));
        assert(order_ok(l2.orders(a)[i2], s2, p2));
        l1.lemma_ids_distinct(a);
        if i1 != i2 {
            assert(l1.ids()[i1] != l1.ids()[i2]);
        }
    }
}

/// The node at position `i` of the queue at `p` on side `s` is in the arena
/// and holds that order, and the index maps the order's id to it.
pub proof fn lemma_position_node(
    bids: Map<u64, Level>,
    asks: Map<u64, Level>,
    a: Map<usize, OrderNode>,
    idx: Map<u64, NodeId>,
    s: Side,
    p: u64,
    i: int,
)
    requires
        parts_wf(bids, asks, a, idx),
        at(view_of(bids, asks, a), s, p, i),
    ensures
        levels_of(bids, asks, s).contains_key(key_of(s, p)),
        ({
            let l = levels_of(bids, asks, s)[key_of(s, p)];
            let n = l.ids()[i].0;
            &&& 0 <= i < l.ids().len()
            &&& a.contains_key(n)
            &&& a[n].spec_order() == view_of(bids, asks, a).side(s)[p][i]
            &&& idx.contains_key(a[n].spec_order().id.0)
            &&& idx[a[n].spec_order().id.0] == l.ids()[i]
        }),
{
    let l = levels_of(bids, asks, s)[key_of(s, p)];
    lemma_key_of_involution(s, p);
    assert(level_ok(l, a, s, p));
    l.lemma_ids_in_arena(a, i);
}

/// A node belongs to at most one level.
pub proof fn lemma_disjoint(
    bids: Map<u64, Level>,
    asks: Map<u64, Level>,
    a: Map<usize, OrderNode>,
    s1: Side,
    k1: u64,
    s2: Side,
    k2: u64,
    n: usize,
)
    requires
        levels_wf(bids, asks, a),
        levels_of(bids, asks, s1).contains_key(k1),
        levels_of(bids, asks, s2).contains_key(k2),
        s1 != s2 || k1 != k2,
        levels_of(bids, asks, s1)[k1].ids().contains(NodeId(n)),
    ensures
        !levels_of(bids, asks, s2)[k2].ids().contains(NodeId(n)),
{
    let l1 = levels_of(bids, asks, s1)[k1];
    let l2 = levels_of(bids, asks, s2)[k2];
    assert(level_ok(l1, a, s1, key_of(s1, k1)));
    assert(level_ok(l2, a, s2, key_of(s2, k2)));
    let i1 = choose|i: int| 0 <= i < l1.ids().len() && l1.ids()[i] == NodeId(n);
    if l2.ids().contains(NodeId(n)) {
        let i2 = choose|i: int| 0 <= i < l2.ids().len() && l2.ids()[i] == NodeId(n);
        assert(order_ok(l1.orders(a)[i1], s1, key_of(s1, k1)));
        assert(order_ok(l2.orders(a)[i2], s2, key_of(s2, k2)));
        lemma_key_of_involution(s1, k1);
        lemma_key_of_involution(s2, k2);
    }
}

/// Replacing (or dropping) the level under key `k` on side `s`, while the
/// arena changes only at that level's nodes, keeps every other level and
/// gives the expected view.
pub proof fn lemma_replace_level(
    bids0: Map<u64, Level>,
    asks0: Map<u64, Level>,
    a0: Map<usize, OrderNode>,
    bids1: Map<u64, Level>,
    asks1: Map<u64, Level>,
    a1: Map<usize, OrderNode>,
    s: Side,
    k: u64,
    newl: Option<Level>,
)
    requires
        levels_wf(bids0, asks0, a0),
        levels_of(bids1, asks1, s) == (match newl {
            Some(l1) => levels_of(bids0, asks0, s).insert(k, l1),
            None => levels_of(bids0, asks0, s).remove(k),
        }),
        levels_of(bids1, asks1, crate::model::opposite(s)) == levels_of(bids0, asks0, crate::model::opposite(s)),
        forall|n: usize|
            #![trigger a1[n]]
            a0.contains_key(n) && !(levels_of(bids0, asks0, s).contains_key(k) && levels_of(
                bids0,
                asks0,
                s,
            )[k].ids().contains(NodeId(n))) ==> a1.contains_key(n) && a1[n] == a0[n],
        newl matches Some(l1) ==> level_ok(l1, a1, s, key_of(s, k)),
        forall|n: usize| #[trigger]
            a1.contains_key(n) ==> (newl matches Some(l1) && l1.ids().contains(NodeId(n))) || (
            a0.contains_key(n) && !(levels_of(bids0, asks0, s).contains_key(k) && levels_of(
                bids0,
                asks0,
                s,
            )[k].ids().contains(NodeId(n)))),
    ensures
        levels_wf(bids1, asks1, a1),
        view_of(bids1, asks1, a1) == view_of(bids0, asks0, a0).set_side(
            s,
            match newl {
                Some(l1) => view_of(bids0, asks0, a0).side(s).insert(key_of(s, k), l1.orders(a1)),
                None => view_of(bids0, asks0, a0).side(s).remove(key_of(s, k)),
            },
        ),
{
    let lv0 = levels_of(bids0, asks0, s);
    let in_old = |n: usize| lv0.contains_key(k) && lv0[k].ids().contains(NodeId(n));
    // every other level keeps its nodes and its queue
    assert forall|s2: Side, k2: u64|
        (s2 != s || k2 != k) && #[trigger] levels_of(bids0, asks0, s2).contains_key(k2) implies ({
        let l = levels_of(bids0, asks0, s2)[k2];
        &&& level_ok(l, a1, s2, key_of(s2, k2))
        &&& l.orders(a1) == l.orders(a0)
    }) by {
        let l = levels_of(bids0, asks0, s2)[k2];
        assert(level_ok(l, a0, s2, key_of(s2, k2)));
        assert forall|i: int| #![trigger l.ids()[i]] 0 <= i < l.ids().len() implies a1.contains_key(
            l.ids()[i].0,
        ) && a1[l.ids()[i].0] == a0[l.ids()[i].0] by {
            l.lemma_ids_in_arena(a0, i);
            let n = l.ids()[i].0;
            assert(NodeId(n) == l.ids()[i]);
            assert(l.ids().contains(NodeId(n)));
            if lv0.contains_key(k) {
                lemma_disjoint(bids0, asks0, a0, s2, k2, s, k, n);
                assert(!lv0[k].ids().contains(NodeId(n)));
            }
            assert(a0.contains_key(n));
            assert(!(lv0.contains_key(k) && lv0[k].ids().contains(NodeId(n))));
            assert(a1[n] == a0[n]);
            assert(a1.contains_key(n));
        }
        l.lemma_frame(a0, a1);
    }
    assert forall|s2: Side, k2: u64| #[trigger]
        levels_of(bids1, asks1, s2).contains_key(k2) implies level_ok(
        levels_of(bids1, asks1, s2)[k2],
        a1,
        s2,
        key_of(s2, k2),
    ) by {
        if s2 == s && k2 == k {
        } else {
            assert(levels_of(bids1, asks1, s2)[k2] == levels_of(bids0, asks0, s2)[k2]);
        }
    }
    assert forall|n: usize| #[trigger] a1.contains_key(n) implies placed(bids1, asks1, a1, n) by {
        let in_new = match newl {
            Some(l1) => l1.ids().contains(NodeId(n)),
            None => false,
        };
        if in_new {
            let l1 = newl->0;
            let i = choose|i: int| 0 <= i < l1.ids().len() && l1.ids()[i] == NodeId(n);
            assert(order_ok(l1.orders(a1)[i], s, key_of(s, k)));
            lemma_key_of_involution(s, k);
        } else {
            assert(a0.contains_key(n) && !in_old(n));
            assert(placed(bids0, asks0, a0, n));
            let o = a0[n].spec_order();
            let k2 = key_of(o.side, o.price.unwrap().0);
            assert(levels_of(bids0, asks0, o.side).contains_key(k2));
            if o.side == s && k2 == k {
                assert(in_old(n));
            }
            assert(levels_of(bids1, asks1, o.side)[k2] == levels_of(bids0, asks0, o.side)[k2]);
        }
    }
    let v0 = view_of(bids0, asks0, a0);
    let v1 = view_of(bids1, asks1, a1);
    let target = match newl {
        Some(l1) => v0.side(s).insert(key_of(s, k), l1.orders(a1)),
        None => v0.side(s).remove(key_of(s, k)),
    };
    assert(v1.side(s) =~= target) by {
        assert forall|p: u64| #[trigger] v1.side(s).contains_key(p) <==> target.contains_key(p) by {
            lemma_key_of_involution(s, p);
            lemma_key_of_involution(s, k);
        }
        assert forall|p: u64| #[trigger] v1.side(s).contains_key(p) implies v1.side(s)[p]
            == target[p] by {
            lemma_key_of_involution(s, p);
            lemma_key_of_involution(s, k);
            if key_of(s, p) != k {
                assert(levels_of(bids0, asks0, s).contains_key(key_of(s, p)));
            }
        }
    }
    let o = crate::model::opposite(s);
    assert(v1.side(o) =~= v0.side(o)) by {
        assert forall|p: u64| #[trigger] v1.side(o).contains_key(p) implies v1.side(o)[p]
            == v0.side(o)[p] by {
            assert(levels_of(bids0, asks0, o).contains_key(key_of(o, p)));
        }
    }
    match s {
        Side::Buy => {
            assert(v1 == v0.set_side(s, target));
        },
        Side::Sell => {
            assert(v1 == v0.set_side(s, target));
        },
    }
}

/// An id in the index belongs to a resting order of the view, at the
/// position of the indexed node.
pub proof fn lemma_index_has_order(
    bids: Map<u64, Level>,
    asks: Map<u64, Level>,
    a: Map<usize, OrderNode>,
    idx: Map<u64, NodeId>,
    id: OrderId,
)
    requires
        parts_wf(bids, asks, a, idx),
        idx.contains_key(id.0),
    ensures
        has_order(view_of(bids, asks, a), id),
        a.contains_key(idx[id.0].0),
        a[idx[id.0].0].spec_order().id == id,
{
    let v = view_of(bids, asks, a);
    let n = idx[id.0].0;
    assert(placed(bids, asks, a, n));
    let o = a[n].spec_order();
    let s = o.side;
    let k = key_of(s, o.price.unwrap().0);
    let l = levels_of(bids, asks, s)[k];
    let i = choose|i: int| 0 <= i < l.ids().len() && l.ids()[i] == NodeId(n);
    let p = key_of(s, k);
    lemma_key_of_involution(s, k);
    assert(v.side(s).contains_key(p));
    assert(v.side(s)[p] == l.orders(a));
    assert(v.side(s)[p][i] == o);
    assert(o.id == id);
    assert(at(v, s, p, i));
}

/// A resting order of the view has its id in the index.
pub proof fn lemma_has_order_index(
    bids: Map<u64, Level>,
    asks: Map<u64, Level>,
    a: Map<usize, OrderNode>,
    idx: Map<u64, NodeId>,
    id: OrderId,
)
    requires
        parts_wf(bids, asks, a, idx),
        has_order(view_of(bids, asks, a), id),
    ensures
        idx.contains_key(id.0),
{
    let v = view_of(bids, asks, a);
    let (s, p, i) = choose|s: Side, p: u64, i: int| #[trigger] at(v, s, p, i) && v.side(s)[p][i].id == id;
    lemma_position_node(bids, asks, a, idx, s, p, i);
}

/// Appends `order` to the level under `key` in `tree` (creating the level
/// for price `p` if there is none) and returns the new node.
fn push_into(
    tree: &mut BTreeMap<u64, Level>,
    arena: &mut Slab<OrderNode>,
    key: u64,
    p: Price,
    order: Order,
) -> (nid: NodeId)
    requires
        old(tree)@.contains_key(key) ==> {
            &&& old(tree)@[key].wf(arena_view(*old(arena)))
            &&& old(tree)@[key].level_price() == p
            &&& old(tree)@[key].total() + order.remaining_qty.0 <= u64::MAX
        },
    ensures
        final(tree)@.contains_key(key),
        final(tree)@ == old(tree)@.insert(key, final(tree)@[key]),
        ({
            let a0 = arena_view(*old(arena));
            let a1 = arena_view(*final(arena));
            let l1 = final(tree)@[key];
            let ids0 = if old(tree)@.contains_key(key) {
                old(tree)@[key].ids()
            } else {
                Seq::empty()
            };
            let q0 = if old(tree)@.contains_key(key) {
                old(tree)@[key].orders(a0)
            } else {
                Seq::empty()
            };
            &&& l1.wf(a1)
            &&& l1.level_price() == p
            &&& l1.ids() == ids0.push(nid)
            &&& l1.orders(a1) == q0.push(order)
            &&& !a0.contains_key(nid.0)
            &&& a1.dom() == a0.dom().insert(nid.0)
            &&& forall|n: usize|
                #![trigger a1[n]]
                a0.contains_key(n) && !ids0.contains(NodeId(n)) ==> a1[n] == a0[n]
            &&& forall|n: usize|
                #![trigger a1[n]]
                a0.contains_key(n) ==> a1[n].spec_order() == a0[n].spec_order()
        }),
{
    let ghost a0 = arena_view(*arena);
    let mut level = match tree.remove(&key) {
        Some(l) => l,
        None => Level::new(p),
    };
    let ghost l0 = level;
    let nid = level.push_back(arena, order);
    let ghost a1 = arena_view(*arena);
    proof {
        assert forall|n: usize| #![trigger a1[n]] a0.contains_key(n) implies a1[n].spec_order()
            == a0[n].spec_order() by {
            if l0.ids().contains(NodeId(n)) {
                let i = choose|i: int| 0 <= i < l0.ids().len() && l0.ids()[i] == NodeId(n);
                assert(level.orders(a1)[i] == l0.orders(a0)[i]);
                assert(level.ids()[i] == NodeId(n));
            }
        }
        if !old(tree)@.contains_key(key) {
            assert(l0.orders(a0) =~= Seq::<Order>::empty());
            assert(l0.ids() =~= Seq::<NodeId>::empty());
        }
    }
    tree.insert(key, level);
    proof {
        assert(tree@ =~= old(tree)@.insert(key, level));
    }
    nid
}

/// Removing node `n` from the arena and its order's id from the index keeps
/// the index exact, when every other node keeps its order's id.
pub proof fn lemma_index_remove(
    a0: Map<usize, OrderNode>,
    i0: Map<u64, NodeId>,
    a1: Map<usize, OrderNode>,
    n: usize,
)
    requires
        index_wf(a0, i0),
        a0.contains_key(n),
        a1.dom() == a0.dom().remove(n),
        forall|m: usize| #[trigger] a1.contains_key(m) ==> a1[m].spec_order().id == a0[m].spec_order().id,
    ensures
        index_wf(a1, i0.remove(a0[n].spec_order().id.0)),
{
    let d = a0[n].spec_order().id.0;
    let i1 = i0.remove(d);
    assert forall|id: u64| #[trigger] i1.contains_key(id) implies a1.contains_key(i1[id].0)
        && a1[i1[id].0].spec_order().id.0 == id by {
        assert(a0.contains_key(i0[id].0));
        if i0[id].0 == n {
            assert(a0[n].spec_order().id.0 == id);
        }
        assert(a1.contains_key(i0[id].0));
    }
    assert forall|m: usize| #[trigger] a1.contains_key(m) implies i1.contains_key(
        a1[m].spec_order().id.0,
    ) && i1[a1[m].spec_order().id.0] == NodeId(m) by {
        assert(a0.contains_key(m));
        assert(i0[a0[m].spec_order().id.0] == NodeId(m));
        if a0[m].spec_order().id.0 == d {
            assert(i0[d] == NodeId(n));
        }
    }
}

/// The index stays exact when the arena keeps its keys and every node keeps
/// its order's id.
pub proof fn lemma_index_same(a0: Map<usize, OrderNode>, i0: Map<u64, NodeId>, a1: Map<usize, OrderNode>)
    requires
        index_wf(a0, i0),
        a1.dom() == a0.dom(),
        forall|m: usize| #[trigger] a1.contains_key(m) ==> a1[m].spec_order().id == a0[m].spec_order().id,
    ensures
        index_wf(a1, i0),
{
    assert forall|id: u64| #[trigger] i0.contains_key(id) implies a1.contains_key(i0[id].0)
        && a1[i0[id].0].spec_order().id.0 == id by {
        assert(a0.contains_key(i0[id].0));
    }
    assert forall|m: usize| #[trigger] a1.contains_key(m) implies i0.contains_key(
        a1[m].spec_order().id.0,
    ) && i0[a1[m].spec_order().id.0] == NodeId(m) by {
        assert(a0.contains_key(m));
    }
}

/// Unlinks node `nid` from the level under `key`, dropping the level once it
/// holds no quantity.
fn remove_from(
    tree: &mut BTreeMap<u64, Level>,
    arena: &mut Slab<OrderNode>,
    key: u64,
    nid: NodeId,
) -> (r: Option<Order>)
    requires
        old(tree)@.contains_key(key),
        old(tree)@[key].wf(arena_view(*old(arena))),
        old(tree)@[key].ids().contains(nid),
        forall|i: int|
            0 <= i < old(tree)@[key].ids().len() ==> (#[trigger] old(tree)@[key].orders(
                arena_view(*old(arena)),
            )[i]).remaining_qty.0 > 0,
    ensures
        ({
            let a0 = arena_view(*old(arena));
            let a1 = arena_view(*final(arena));
            let l0 = old(tree)@[key];
            let i = l0.ids().index_of(nid);
            let q = l0.orders(a0).remove(i);
            &&& 0 <= i < l0.ids().len()
            &&& l0.ids()[i] == nid
            &&& r == Some(l0.orders(a0)[i])
            &&& a0.contains_key(nid.0)
            &&& a1.dom() == a0.dom().remove(nid.0)
            &&& forall|n: usize|
                #![trigger a1[n]]
                a0.contains_key(n) && !l0.ids().contains(NodeId(n)) ==> a1[n] == a0[n]
            &&& forall|n: usize| #[trigger] a1.contains_key(n) ==> a1[n].spec_order() == a0[n].spec_order()
            &&& q.len() == 0 ==> final(tree)@ == old(tree)@.remove(key)
            &&& q.len() > 0 ==> {
                &&& final(tree)@.contains_key(key)
                &&& final(tree)@ == old(tree)@.insert(key, final(tree)@[key])
                &&& final(tree)@[key].wf(a1)
                &&& final(tree)@[key].level_price() == l0.level_price()
                &&& final(tree)@[key].ids() == l0.ids().remove(i)
                &&& final(tree)@[key].orders(a1) == q
            }
        }),
{
    let ghost a0 = arena_view(*arena);
    let ghost t0 = tree@;
    let mut level = match tree.remove(&key) {
        Some(l) => l,
        None => {
            return None;
        },
    };
    let ghost l0 = level;
    proof {
        let i = l0.ids().index_of(nid);
        assert(l0.ids()[i] == nid);
        l0.lemma_ids_in_arena(a0, i);
    }
    let r = level.remove(arena, nid);
    let ghost a1 = arena_view(*arena);
    proof {
        let i = l0.ids().index_of(nid);
        let q = l0.orders(a0).remove(i);
        assert forall|n: usize| #[trigger] a1.contains_key(n) implies a1[n].spec_order()
            == a0[n].spec_order() by {
            if l0.ids().contains(NodeId(n)) {
                let j = choose|j: int| 0 <= j < l0.ids().len() && l0.ids()[j] == NodeId(n);
                l0.lemma_ids_distinct(a0);
                assert(j != i);
                let jj = if j < i {
                    j
                } else {
                    j - 1
                };
                assert(level.ids()[jj] == NodeId(n));
                assert(level.orders(a1)[jj] == q[jj]);
            }
        }
        if q.len() > 0 {
            assert(q[0].remaining_qty.0 > 0);
            crate::price_level::lemma_qty_sum_bound(q, 0);
        } else {
            assert(q =~= Seq::<Order>::empty());
        }
    }
    if !level.is_empty() {
        tree.insert(key, level);
        proof {
            assert(tree@ =~= t0.insert(key, level));
        }
    } else {
        proof {
            assert(tree@ =~= t0.remove(key));
        }
    }
    r
}

/// Fills up to `qty` from the front order of the level under `key`,
/// dropping the level once it holds no quantity.
fn consume_in(
    tree: &mut BTreeMap<u64, Level>,
    arena: &mut Slab<OrderNode>,
    key: u64,
    qty: Qty,
) -> (r: Option<(OrderId, Qty, bool)>)
    requires
        old(tree)@.contains_key(key),
        old(tree)@[key].wf(arena_view(*old(arena))),
        old(tree)@[key].ids().len() > 0,
        forall|i: int|
            0 <= i < old(tree)@[key].ids().len() ==> (#[trigger] old(tree)@[key].orders(
                arena_view(*old(arena)),
            )[i]).remaining_qty.0 > 0,
    ensures
        ({
            let a0 = arena_view(*old(arena));
            let a1 = arena_view(*final(arena));
            let l0 = old(tree)@[key];
            let q0 = l0.orders(a0);
            let f = q0[0];
            let fill = if f.remaining_qty.0 <= qty.0 {
                f.remaining_qty.0
            } else {
                qty.0
            };
            let full = f.remaining_qty.0 == fill;
            let q1 = if full {
                q0.drop_first()
            } else {
                q0.update(0, Order { remaining_qty: Qty((f.remaining_qty.0 - fill) as u64), ..f })
            };
            &&& r == Some((f.id, Qty(fill), full))
            &&& a0.contains_key(l0.ids()[0].0)
            &&& full ==> a1.dom() == a0.dom().remove(l0.ids()[0].0)
            &&& !full ==> a1.dom() == a0.dom()
            &&& forall|n: usize|
                #![trigger a1[n]]
                a0.contains_key(n) && !l0.ids().contains(NodeId(n)) ==> a1[n] == a0[n]
            &&& forall|n: usize| #[trigger]
                a1.contains_key(n) ==> a1[n].spec_order().id == a0[n].spec_order().id
            &&& forall|n: usize| #[trigger]
                a1.contains_key(n) && n != l0.ids()[0].0 ==> a1[n].spec_order() == a0[n].spec_order()
            &&& q1.len() == 0 ==> final(tree)@ == old(tree)@.remove(key)
            &&& q1.len() > 0 ==> {
                &&& final(tree)@.contains_key(key)
                &&& final(tree)@ == old(tree)@.insert(key, final(tree)@[key])
                &&& final(tree)@[key].wf(a1)
                &&& final(tree)@[key].level_price() == l0.level_price()
                &&& final(tree)@[key].orders(a1) == q1
                &&& full ==> final(tree)@[key].ids() == l0.ids().drop_first()
                &&& !full ==> final(tree)@[key].ids() == l0.ids()
            }
        }),
{
    let ghost a0 = arena_view(*arena);
    let ghost t0 = tree@;
    let mut level = match tree.remove(&key) {
        Some(l) => l,
        None => {
            return None;
        },
    };
    let ghost l0 = level;
    proof {
        l0.lemma_ids_in_arena(a0, 0);
    }
    let r = level.consume_qty(qty, arena);
    let ghost a1 = arena_view(*arena);
    proof {
        let q0 = l0.orders(a0);
        let f = q0[0];
        let fill = if f.remaining_qty.0 <= qty.0 {
            f.remaining_qty.0
        } else {
            qty.0
        };
        let full = f.remaining_qty.0 == fill;
        l0.lemma_ids_distinct(a0);
        assert forall|n: usize| #[trigger] a1.contains_key(n) implies a1[n].spec_order().id
            == a0[n].spec_order().id && (n != l0.ids()[0].0 ==> a1[n].spec_order()
            == a0[n].spec_order()) by {
            if l0.ids().contains(NodeId(n)) {
                let j = choose|j: int| 0 <= j < l0.ids().len() && l0.ids()[j] == NodeId(n);
                if full {
                    assert(j != 0);
                    assert(level.ids()[j - 1] == NodeId(n));
                    assert(level.orders(a1)[j - 1] == q0[j]);
                } else {
                    assert(level.ids()[j] == NodeId(n));
                    assert(level.orders(a1)[j] == q0.update(
                        0,
                        Order { remaining_qty: Qty((f.remaining_qty.0 - fill) as u64), ..f },
                    )[j]);
                }
            }
        }
        let q1 = level.orders(a1);
        if q1.len() > 0 {
            assert(q1[0].remaining_qty.0 > 0) by {
                if full {
                    assert(q1[0] == q0[1]);
                }
            }
            crate::price_level::lemma_qty_sum_bound(q1, 0);
        } else {
            assert(q1 =~= Seq::<Order>::empty());
        }
    }
    if !level.is_empty() {
        tree.insert(key, level);
        proof {
            assert(tree@ =~= t0.insert(key, level));
        }
    } else {
        proof {
            assert(tree@ =~= t0.remove(key));
        }
    }
    r
}

impl OrderBook {
    /// The book invariant.
    pub closed spec fn wf(&self) -> bool {
        parts_wf(self.bids@, self.asks@, arena_view(self.arena), self.order_index@)
    }

    /// The list nodes in the book's arena, by key.
    pub closed spec fn arena_nodes(&self) -> Map<usize, OrderNode> {
        arena_view(self.arena)
    }

    /// The view of a well-formed book is well-formed.
    pub proof fn lemma_view_wf(&self)
        requires
            self.wf(),
        ensures
            view_wf(self@),
    {
        lemma_parts_view_wf(self.bids@, self.asks@, arena_view(self.arena), self.order_index@);
    }

    /// An empty book; the arena is created with room for a thousand orders.
    pub fn new() -> (b: OrderBook)
        ensures
            b.wf(),
            b@ == crate::model::empty_view(),
    {
        let b = OrderBook {
            arena: slab_with_capacity(1000),
            bids: BTreeMap::new(),
            asks: BTreeMap::new(),
            order_index: HashMap::new(),
        };
        assert(b@.bids =~= Map::empty());
        assert(b@.asks =~= Map::empty());
        b
    }
}

impl OrderBook {
    /// The highest bid price, if any.
    pub fn best_bid(&self) -> (r: Option<Price>)
        ensures
            r == (match best(self@.bids, Side::Buy) {
                Some(p) => Some(Price(p)),
                None => None,
            }),
            r matches Some(p) ==> is_best(self@.bids, Side::Buy, p.0),
    {
        match first_key(&self.bids) {
            Some(k) => {
                let p = u64::MAX - k;
                proof {
                    let m = self@.bids;
                    lemma_key_of_involution(Side::Buy, p);
                    assert(m.contains_key(p));
                    assert forall|q: u64| #[trigger] m.contains_key(q) && q != p implies better(
                        Side::Buy,
                        p,
                        q,
                    ) by {
                        assert(self.bids@.contains_key(key_of(Side::Buy, q)));
                    }
                    lemma_best_unique(m, Side::Buy, p);
                }
                Some(Price(p))
            },
            None => {
                proof {
                    assert forall|q: u64| !#[trigger] self@.bids.contains_key(q) by {
                        if self@.bids.contains_key(q) {
                            assert(self.bids@.contains_key(key_of(Side::Buy, q)));
                        }
                    }
                    assert(self@.bids.dom() =~= Set::empty());
                    lemma_best_none(self@.bids, Side::Buy);
                }
                None
            },
        }
    }

    /// The lowest ask price, if any.
    pub fn best_ask(&self) -> (r: Option<Price>)
        ensures
            r == (match best(self@.asks, Side::Sell) {
                Some(p) => Some(Price(p)),
                None => None,
            }),
            r matches Some(p) ==> is_best(self@.asks, Side::Sell, p.0),
    {
        match first_key(&self.asks) {
            Some(k) => {
                proof {
                    let m = self@.asks;
                    assert(m.contains_key(k));
                    assert forall|q: u64| #[trigger] m.contains_key(q) && q != k implies better(
                        Side::Sell,
                        k,
                        q,
                    ) by {
                        assert(self.asks@.contains_key(q));
                    }
                    lemma_best_unique(m, Side::Sell, k);
                }
                Some(Price(k))
            },
            None => {
                proof {
                    assert forall|q: u64| !#[trigger] self@.asks.contains_key(q) by {
                        if self@.asks.contains_key(q) {
                            assert(self.asks@.contains_key(q));
                        }
                    }
                    assert(self@.asks.dom() =~= Set::empty());
                    lemma_best_none(self@.asks, Side::Sell);
                }
                None
            },
        }
    }

    /// The distance from the best bid up to the best ask, when both exist
    /// and the ask is strictly above the bid.
    pub fn spread(&self) -> (r: Option<Price>)
        ensures
            r == (match (best(self@.bids, Side::Buy), best(self@.asks, Side::Sell)) {
                (Some(b), Some(a)) => if a > b {
                    Some(Price((a - b) as u64))
                } else {
                    None
                },
                _ => None,
            }),
    {
        let bid = match self.best_bid() {
            Some(b) => b,
            None => {
                return None;
            },
        };
        let ask = match self.best_ask() {
            Some(a) => a,
            None => {
                return None;
            },
        };
        if ask.0 > bid.0 {
            return Some(ask - bid);
        }
        None
    }

    /// Rests `order` at the back of the queue at its price on its side.
    /// The caller (the engine) makes sure it does not cross the book. The
    /// order must have quantity left and a fresh id: a level counts as empty
    /// once its total is zero and is then dropped, so an order without
    /// quantity would be stranded in the arena and the index, and the index
    /// holds one node per id.
    pub fn insert_resting(&mut self, order: Order)
        requires
            old(self).wf(),
            order.price is Some,
            order.remaining_qty.0 > 0,
            !has_order(old(self)@, order.id),
            level_qty(old(self)@.side(order.side), order.price.unwrap().0) + order.remaining_qty.0
                <= u64::MAX,
        ensures
            final(self).wf(),
            final(self)@ == old(self)@.set_side(
                order.side,
                push_order(old(self)@.side(order.side), order.price.unwrap().0, order),
            ),
    {
        let ghost b0 = self.bids@;
        let ghost s0 = self.asks@;
        let ghost a0 = arena_view(self.arena);
        let ghost i0 = self.order_index@;
        let ghost v0 = self@;
        let p = order.price.unwrap();
        let side = order.side;
        let id = order.id;
        let key = side_key(side, p.0);
        proof {
            lemma_key_of_involution(side, p.0);
            if i0.contains_key(id.0) {
                lemma_index_has_order(b0, s0, a0, i0, id);
            }
            let lv = levels_of(b0, s0, side);
            if lv.contains_key(key) {
                assert(level_ok(lv[key], a0, side, p.0));
                assert(v0.side(side).contains_key(p.0));
                assert(v0.side(side)[p.0] == lv[key].orders(a0));
            }
        }
        let nodeid: NodeId;
        if side == Side::Sell {
            nodeid = push_into(&mut self.asks, &mut self.arena, key, p, order);
        } else {
            nodeid = push_into(&mut self.bids, &mut self.arena, key, p, order);
        }
        let ghost a1 = arena_view(self.arena);
        let ghost l1 = levels_of(self.bids@, self.asks@, side)[key];
        proof {
            let lv0 = levels_of(b0, s0, side);
            let ids0 = if lv0.contains_key(key) {
                lv0[key].ids()
            } else {
                Seq::empty()
            };
            assert forall|i: int| 0 <= i < l1.ids().len() implies order_ok(
                #[trigger] l1.orders(a1)[i],
                side,
                p.0,
            ) by {
                if i < ids0.len() {
                    assert(level_ok(lv0[key], a0, side, p.0));
                    assert(l1.orders(a1)[i] == lv0[key].orders(a0)[i]);
                }
            }
            assert(level_ok(l1, a1, side, key_of(side, key)));
            assert forall|n: usize| #[trigger] a1.contains_key(n) implies (l1.ids().contains(
                NodeId(n),
            )) || (a0.contains_key(n) && !(lv0.contains_key(key) && lv0[key].ids().contains(
                NodeId(n),
            ))) by {
                if n == nodeid.0 {
                    assert(l1.ids()[l1.ids().len() - 1] == NodeId(n));
                } else if lv0.contains_key(key) && lv0[key].ids().contains(NodeId(n)) {
                    let i = choose|i: int| 0 <= i < ids0.len() && ids0[i] == NodeId(n);
                    assert(l1.ids()[i] == NodeId(n));
                }
            }
            assert forall|n: usize|
                #![trigger a1[n]]
                a0.contains_key(n) && !(lv0.contains_key(key) && lv0[key].ids().contains(NodeId(n)))
                    implies a1.contains_key(n) && a1[n] == a0[n] by {
                assert(!ids0.contains(NodeId(n)));
            }
            match side {
                Side::Buy => {
                    assert(levels_of(self.bids@, self.asks@, Side::Sell) == levels_of(b0, s0, Side::Sell));
                },
                Side::Sell => {
                    assert(levels_of(self.bids@, self.asks@, Side::Buy) == levels_of(b0, s0, Side::Buy));
                },
            }
            lemma_replace_level(b0, s0, a0, self.bids@, self.asks@, a1, side, key, Some(l1));
        }
        self.order_index.insert(id.0, nodeid);
        proof {
            let i1 = self.order_index@;
            assert(a1[nodeid.0].spec_order() == order) by {
                assert(l1.ids()[l1.ids().len() - 1] == nodeid);
                assert(l1.orders(a1)[l1.ids().len() - 1] == order);
            }
            assert forall|id2: u64| #[trigger] i1.contains_key(id2) implies a1.contains_key(i1[id2].0)
                && a1[i1[id2].0].spec_order().id.0 == id2 by {
                if id2 != id.0 {
                    assert(a0.contains_key(i0[id2].0));
                }
            }
            assert forall|n: usize| #[trigger] a1.contains_key(n) implies i1.contains_key(
                a1[n].spec_order().id.0,
            ) && i1[a1[n].spec_order().id.0] == NodeId(n) by {
                if n != nodeid.0 {
                    assert(a0.contains_key(n));
                    assert(a1[n].spec_order() == a0[n].spec_order());
                    if a0[n].spec_order().id.0 == id.0 {
                        assert(i0.contains_key(id.0));
                    }
                }
            }
            let tgt = push_order(v0.side(side), p.0, order);
            if !v0.side(side).contains_key(p.0) {
                assert(Seq::<Order>::empty().push(order) =~= seq![order]);
            }
            assert(self@.side(side) =~= tgt);
        }
    }

    /// Removes the resting order `id` from its level (dropping the level once
    /// empty) and from the index, and returns it.
    pub fn remove_order(&mut self, id: OrderId) -> (r: Option<Order>)
        requires
            old(self).wf(),
        ensures
            final(self).wf(),
            has_order(old(self)@, id) ==> r == Some(order_of(old(self)@, id)) && final(self)@
                == without(old(self)@, id),
            !has_order(old(self)@, id) ==> r is None && final(self)@ == old(self)@,
    {
        let ghost b0 = self.bids@;
        let ghost s0 = self.asks@;
        let ghost a0 = arena_view(self.arena);
        let ghost i0 = self.order_index@;
        let ghost v0 = self@;
        proof {
            self.lemma_view_wf();
            if has_order(v0, id) {
                lemma_has_order_index(b0, s0, a0, i0, id);
            }
        }
        let nodeid = match self.order_index.get(&id.0) {
            Some(n) => *n,
            None => {
                return None;
            },
        };
        proof {
            lemma_index_has_order(b0, s0, a0, i0, id);
            assert(placed(b0, s0, a0, nodeid.0));
        }
        let (side, price) = match slab_get(&self.arena, nodeid.0) {
            Some(node) => (node.order().side, node.order().price),
            None => {
                return None;
            },
        };
        let price = match price {
            Some(p) => p,
            None => {
                return None;
            },
        };
        let key = side_key(side, price.0);
        let ghost lv0 = levels_of(b0, s0, side);
        let ghost l0 = lv0[key];
        proof {
            assert(level_ok(l0, a0, side, key_of(side, key)));
        }
        let removed = if side == Side::Buy {
            remove_from(&mut self.bids, &mut self.arena, key, nodeid)
        } else {
            remove_from(&mut self.asks, &mut self.arena, key, nodeid)
        };
        let ghost a1 = arena_view(self.arena);
        proof {
            let i = l0.ids().index_of(nodeid);
            let q = l0.orders(a0).remove(i);
            let p = key_of(side, key);
            lemma_key_of_involution(side, price.0);
            let newl = if q.len() > 0 {
                Some(levels_of(self.bids@, self.asks@, side)[key])
            } else {
                None
            };
            if q.len() > 0 {
                let l1 = levels_of(self.bids@, self.asks@, side)[key];
                assert forall|j: int| 0 <= j < l1.ids().len() implies order_ok(
                    #[trigger] l1.orders(a1)[j],
                    side,
                    p,
                ) by {
                    let jj = if j < i {
                        j
                    } else {
                        j + 1
                    };
                    assert(l1.orders(a1)[j] == l0.orders(a0)[jj]);
                }
            }
            assert forall|n: usize| #[trigger] a1.contains_key(n) implies (newl matches Some(l1)
                && l1.ids().contains(NodeId(n))) || (a0.contains_key(n) && !(lv0.contains_key(key)
                && lv0[key].ids().contains(NodeId(n)))) by {
                if l0.ids().contains(NodeId(n)) {
                    let j = choose|j: int| 0 <= j < l0.ids().len() && l0.ids()[j] == NodeId(n);
                    assert(j != i);
                    let jj = if j < i {
                        j
                    } else {
                        j - 1
                    };
                    assert(q.len() > 0);
                    assert(levels_of(self.bids@, self.asks@, side)[key].ids()[jj] == NodeId(n));
                }
            }
            match side {
                Side::Buy => {
                    assert(levels_of(self.bids@, self.asks@, Side::Sell) == levels_of(b0, s0, Side::Sell));
                },
                Side::Sell => {
                    assert(levels_of(self.bids@, self.asks@, Side::Buy) == levels_of(b0, s0, Side::Buy));
                },
            }
            lemma_replace_level(b0, s0, a0, self.bids@, self.asks@, a1, side, key, newl);
            lemma_index_remove(a0, i0, a1, nodeid.0);
            // the removed order sits at the position `locate` picks
            assert(v0.side(side)[p] == l0.orders(a0));
            assert(at(v0, side, p, i));
            assert(v0.side(side)[p][i].id == id);
            let (s2, p2, i2) = locate(v0, id);
            assert(at(v0, s2, p2, i2) && v0.side(s2)[p2][i2].id == id);
            assert(v0.side(s2)[p2][i2].id == v0.side(side)[p][i].id);
            assert(s2 == side && p2 == p && i2 == i);
            if q.len() == 0 {
                assert(v0.side(side)[p].remove(i).len() == 0);
            }
        }
        self.order_index.remove(&id.0);
        removed
    }

    /// Fills up to `qty` against the front order of the best level on
    /// `opposite_side`, at that level's price; the maker leaves the book
    /// (and the index) once fully filled, and an emptied level is dropped.
    pub fn match_at_best(&mut self, opposite_side: Side, qty: Qty) -> (r: Option<FillResult>)
        requires
            old(self).wf(),
        ensures
            final(self).wf(),
            match best(old(self)@.side(opposite_side), opposite_side) {
                None => r is None && final(self)@ == old(self)@,
                Some(p) => {
                    let f = old(self)@.side(opposite_side)[p][0];
                    let fill = if f.remaining_qty.0 <= qty.0 {
                        f.remaining_qty.0
                    } else {
                        qty.0
                    };
                    &&& r == Some(
                        FillResult {
                            maker_order_id: f.id,
                            price: Price(p),
                            filled_qty: Qty(fill),
                            maker_fully_filled: f.remaining_qty.0 == fill,
                        },
                    )
                    &&& final(self)@ == old(self)@.set_side(
                        opposite_side,
                        fill_front(old(self)@.side(opposite_side), p, fill),
                    )
                }
            },
    {
        let ghost b0 = self.bids@;
        let ghost s0 = self.asks@;
        let ghost a0 = arena_view(self.arena);
        let ghost i0 = self.order_index@;
        let ghost v0 = self@;
        let side = opposite_side;
        let first = if side == Side::Buy {
            first_key(&self.bids)
        } else {
            first_key(&self.asks)
        };
        let ghost lv0 = levels_of(b0, s0, side);
        let ghost m0 = v0.side(side);
        let k = match first {
            Some(k) => k,
            None => {
                proof {
                    assert forall|q: u64| !#[trigger] m0.contains_key(q) by {
                        if m0.contains_key(q) {
                            assert(lv0.contains_key(key_of(side, q)));
                        }
                    }
                    assert(m0.dom() =~= Set::empty());
                    lemma_best_none(m0, side);
                }
                return None;
            },
        };
        let price = side_key(side, k);
        let ghost l0 = lv0[k];
        proof {
            lemma_key_of_involution(side, k);
            assert(m0.contains_key(price));
            assert forall|q: u64| #[trigger] m0.contains_key(q) && q != price implies better(
                side,
                price,
                q,
            ) by {
                lemma_key_of_involution(side, q);
                assert(lv0.contains_key(key_of(side, q)));
            }
            lemma_best_unique(m0, side, price);
            assert(level_ok(l0, a0, side, price));
            assert(m0[price] == l0.orders(a0));
        }
        let res = if side == Side::Buy {
            consume_in(&mut self.bids, &mut self.arena, k, qty)
        } else {
            consume_in(&mut self.asks, &mut self.arena, k, qty)
        };
        let (maker_id, filled_amount, filledstatus) = match res {
            Some(t) => t,
            None => {
                return None;
            },
        };
        let ghost a1 = arena_view(self.arena);
        proof {
            let q0 = l0.orders(a0);
            let f = q0[0];
            let fill = filled_amount.0;
            let full = filledstatus;
            let q1 = if full {
                q0.drop_first()
            } else {
                q0.update(0, Order { remaining_qty: Qty((f.remaining_qty.0 - fill) as u64), ..f })
            };
            let newl = if q1.len() > 0 {
                Some(levels_of(self.bids@, self.asks@, side)[k])
            } else {
                None
            };
            if q1.len() > 0 {
                let l1 = levels_of(self.bids@, self.asks@, side)[k];
                assert forall|j: int| 0 <= j < l1.ids().len() implies order_ok(
                    #[trigger] l1.orders(a1)[j],
                    side,
                    price,
                ) by {
                    if full {
                        assert(l1.orders(a1)[j] == q0[j + 1]);
                    } else if j > 0 {
                        assert(l1.orders(a1)[j] == q0[j]);
                    }
                }
            }
            l0.lemma_ids_distinct(a0);
            assert forall|n: usize| #[trigger] a1.contains_key(n) implies (newl matches Some(l1)
                && l1.ids().contains(NodeId(n))) || (a0.contains_key(n) && !(lv0.contains_key(k)
                && lv0[k].ids().contains(NodeId(n)))) by {
                if l0.ids().contains(NodeId(n)) {
                    let j = choose|j: int| 0 <= j < l0.ids().len() && l0.ids()[j] == NodeId(n);
                    if full {
                        assert(j != 0);
                        assert(levels_of(self.bids@, self.asks@, side)[k].ids()[j - 1] == NodeId(n));
                    } else {
                        assert(levels_of(self.bids@, self.asks@, side)[k].ids()[j] == NodeId(n));
                    }
                }
            }
            match side {
                Side::Buy => {
                    assert(levels_of(self.bids@, self.asks@, Side::Sell) == levels_of(b0, s0, Side::Sell));
                },
                Side::Sell => {
                    assert(levels_of(self.bids@, self.asks@, Side::Buy) == levels_of(b0, s0, Side::Buy));
                },
            }
            lemma_replace_level(b0, s0, a0, self.bids@, self.asks@, a1, side, k, newl);
            if full {
                lemma_index_remove(a0, i0, a1, l0.ids()[0].0);
                assert(q0.remove(0) =~= q0.drop_first());
                if q1.len() == 0 {
                    assert(m0[price].remove(0).len() == 0);
                }
            } else {
                lemma_index_same(a0, i0, a1);
            }
        }
        if filledstatus {
            self.order_index.remove(&maker_id.0);
        }
        Some(
            FillResult {
                maker_order_id: maker_id,
                price: Price(price),
                filled_qty: filled_amount,
                maker_fully_filled: filledstatus,
            },
        )
    }

    /// The levels of one side, best price first, each with its price.
    pub fn iter_side(&self, side: Side) -> (r: Vec<(Price, &Level)>)
        requires
            self.wf(),
        ensures
            forall|i: int, j: int|
                0 <= i < j < r@.len() ==> better(side, (#[trigger] r@[i]).0.0, (#[trigger] r@[j]).0.0),
            forall|i: int|
                0 <= i < r@.len() ==> {
                    &&& self@.side(side).contains_key((#[trigger] r@[i]).0.0)
                    &&& r@[i].1.level_price() == r@[i].0
                    &&& r@[i].1.total() == qty_sum(self@.side(side)[r@[i].0.0])
                    &&& r@[i].1.wf(self.arena_nodes())
                    &&& r@[i].1.orders(self.arena_nodes()) == self@.side(side)[r@[i].0.0]
                },
            forall|p: u64| #[trigger]
                self@.side(side).contains_key(p) ==> exists|i: int|
                    0 <= i < r@.len() && (#[trigger] r@[i]).0.0 == p,
    {
        let es = if side == Side::Buy {
            entries(&self.bids)
        } else {
            entries(&self.asks)
        };
        let ghost lv = levels_of(self.bids@, self.asks@, side);
        let ghost a = arena_view(self.arena);
        let ghost m = self@.side(side);
        let mut r: Vec<(Price, &Level)> = Vec::new();
        let mut i: usize = 0;
        while i < es.len()
            invariant
                i <= es@.len(),
                r@.len() == i,
                self.wf(),
                lv == levels_of(self.bids@, self.asks@, side),
                m == self@.side(side),
                a == arena_view(self.arena),
                forall|x: int, y: int| 0 <= x < y < es@.len() ==> (#[trigger] es@[x]).0 < (#[trigger] es@[y]).0,
                forall|x: int| 0 <= x < es@.len() ==> lv.contains_key((#[trigger] es@[x]).0) && *es@[x].1 == lv[es@[x].0],
                forall|x: int| 0 <= x < i ==> (#[trigger] r@[x]).0.0 == key_of(side, es@[x].0) && r@[x].1 == es@[x].1,
            decreases es@.len() - i,
        {
            let (k, l) = es[i];
            r.push((Price(side_key(side, k)), l));
            i = i + 1;
        }
        proof {
            assert forall|x: int, y: int| 0 <= x < y < r@.len() implies better(
                side,
                (#[trigger] r@[x]).0.0,
                (#[trigger] r@[y]).0.0,
            ) by {
                assert(es@[x].0 < es@[y].0);
            }
            assert forall|x: int| 0 <= x < r@.len() implies {
                &&& m.contains_key((#[trigger] r@[x]).0.0)
                &&& r@[x].1.level_price() == r@[x].0
                &&& r@[x].1.total() == qty_sum(m[r@[x].0.0])
                &&& r@[x].1.wf(a)
                &&& r@[x].1.orders(a) == m[r@[x].0.0]
            } by {
                let k = es@[x].0;
                lemma_key_of_involution(side, k);
                assert(level_ok(lv[k], a, side, key_of(side, k)));
            }
            assert forall|p: u64| #[trigger] m.contains_key(p) implies exists|x: int|
                0 <= x < r@.len() && (#[trigger] r@[x]).0.0 == p by {
                lemma_key_of_involution(side, p);
                let k = key_of(side, p);
                assert(lv.contains_key(k));
                let x = choose|x: int| 0 <= x < es@.len() && (#[trigger] es@[x]).0 == k;
                assert(r@[x].0.0 == p);
            }
        }
        r
    }

    /// The first `n` levels of one side, best price first, as (price, total quantity).
    pub fn depth(&self, side: Side, n: usize) -> (r: Vec<(Price, Qty)>)
        requires
            self.wf(),
        ensures
            crate::model::depth_ok(self@.side(side), side, n as nat, r@),
    {
        let levels = self.iter_side(side);
        let mut r: Vec<(Price, Qty)> = Vec::new();
        let mut i: usize = 0;
        while i < levels.len() && i < n
            invariant
                i <= levels@.len(),
                i <= n,
                r@.len() == i,
                forall|x: int| 0 <= x < i ==> (#[trigger] r@[x]).0 == levels@[x].0 && r@[x].1.0
                    == levels@[x].1.total(),
            decreases levels@.len() - i,
        {
            r.push((levels[i].0, levels[i].1.total_qty()));
            i = i + 1;
        }
        proof {
            let m = self@.side(side);
            assert forall|p: u64| #[trigger] m.contains_key(p) implies (exists|x: int|
                0 <= x < r@.len() && (#[trigger] r@[x]).0.0 == p) || (r@.len() == n && forall|x: int|
                0 <= x < r@.len() ==> better(side, (#[trigger] r@[x]).0.0, p)) by {
                let y = choose|y: int| 0 <= y < levels@.len() && (#[trigger] levels@[y]).0.0 == p;
                if y < r@.len() {
                    assert(r@[y].0.0 == p);
                } else {
                    assert(r@.len() == n);
                    assert forall|x: int| 0 <= x < r@.len() implies better(
                        side,
                        (#[trigger] r@[x]).0.0,
                        p,
                    ) by {
                        assert(better(side, levels@[x].0.0, levels@[y].0.0));
                    }
                }
            }
        }
        r
    }

    /// The best level on `side`, if any.
    pub fn best_level(&mut self, side: Side) -> (r: Option<&Level>)
        requires
            old(self).wf(),
        ensures
            *final(self) == *old(self),
            match best(old(self)@.side(side), side) {
                None => r is None,
                Some(p) => r matches Some(l) && l.level_price() == Price(p) && l.total() == qty_sum(
                    old(self)@.side(side)[p],
                ) && l.wf(old(self).arena_nodes()) && l.orders(old(self).arena_nodes()) == old(
                    self,
                )@.side(side)[p],
            },
    {
        let levels = self.iter_side(side);
        if levels.len() == 0 {
            proof {
                let m = self@.side(side);
                assert forall|q: u64| !#[trigger] m.contains_key(q) by {
                    if m.contains_key(q) {
                        let x = choose|x: int| 0 <= x < levels@.len() && (#[trigger] levels@[x]).0.0 == q;
                    }
                }
                assert(m.dom() =~= Set::empty());
                lemma_best_none(m, side);
            }
            return None;
        }
        proof {
            let m = self@.side(side);
            let p = levels@[0].0.0;
            assert forall|q: u64| #[trigger] m.contains_key(q) && q != p implies better(side, p, q) by {
                let y = choose|y: int| 0 <= y < levels@.len() && (#[trigger] levels@[y]).0.0 == q;
                assert(y != 0);
                assert(better(side, levels@[0].0.0, levels@[y].0.0));
            }
            lemma_best_unique(m, side, p);
        }
        Some(levels[0].1)
    }

    /// Drops the level at `price` on `side` if it holds no quantity. Levels
    /// of a well-formed book are never empty, so the book is unchanged.
    pub fn prune_empty(&mut self, side: Side, price: Price)
        requires
            old(self).wf(),
        ensures
            final(self).wf(),
            final(self)@ == old(self)@,
            *final(self) == *old(self),
    {
        let key = side_key(side, price.0);
        let ghost lv = levels_of(self.bids@, self.asks@, side);
        let ghost a = arena_view(self.arena);
        let empty = match side {
            Side::Buy => match self.bids.get(&key) {
                Some(level) => level.is_empty(),
                None => false,
            },
            Side::Sell => match self.asks.get(&key) {
                Some(level) => level.is_empty(),
                None => false,
            },
        };
        proof {
            if lv.contains_key(key) {
                let l = lv[key];
                assert(level_ok(l, a, side, key_of(side, key)));
                assert(l.orders(a)[0].remaining_qty.0 > 0);
                crate::price_level::lemma_qty_sum_bound(l.orders(a), 0);
                assert(!empty);
            }
        }
        if empty {
            match side {
                Side::Buy => {
                    self.bids.remove(&key);
                },
                Side::Sell => {
                    self.asks.remove(&key);
                },
            }
        }
    }

    /// The resting order with `id`, if any.
    pub fn get_order(&self, id: OrderId) -> (r: Option<&Order>)
        requires
            self.wf(),
        ensures
            r is Some <==> has_order(self@, id),
            r matches Some(o) ==> *o == order_of(self@, id),
    {
        proof {
            self.lemma_view_wf();
            if has_order(self@, id) {
                lemma_has_order_index(self.bids@, self.asks@, arena_view(self.arena), self.order_index@, id);
            }
        }
        match self.order_index.get(&id.0) {
            Some(nodeid) => {
                proof {
                    let v = self@;
                    lemma_index_has_order(self.bids@, self.asks@, arena_view(self.arena), self.order_index@, id);
                    let (s, p, i) = locate(v, id);
                    lemma_position_node(self.bids@, self.asks@, arena_view(self.arena), self.order_index@, s, p, i);
                }
                match slab_get(&self.arena, nodeid.0) {
                    Some(node) => Some(node.order()),
                    None => None,
                }
            },
            None => None,
        }
    }
}

/// The side a taker matches against.
fn opposite_side(side: Side) -> (r: Side)
    ensures
        r == crate::model::opposite(side),
{
    if side == Side::Buy {
        Side::Sell
    } else {
        Side::Buy
    }
}

} // verus!
