//! A market-data book: the aggregate quantity at each price on both sides,
//! as published by an exchange's depth feed (a snapshot, then diffs).
use crate::book::{key_of, lemma_key_of_involution};
use crate::model::better;
use crate::sorted::{entries, first_key};
use crate::types::{Price, Qty, Side, Timestamp};
use std::collections::BTreeMap;
use vstd::prelude::*;

verus! {

broadcast use vstd::std_specs::btree::group_btree_axioms;

/// An incremental depth update covering update ids
/// `first_update_id ..= final_update_id`; a quantity of zero removes the level.
#[derive(Debug, Clone)]
pub struct DepthUpdate {
    pub first_update_id: u64,
    pub final_update_id: u64,
    pub bids: Vec<(Price, Qty)>,
    pub asks: Vec<(Price, Qty)>,
}

/// A full depth snapshot as of `last_update_id`.
#[derive(Debug, Clone)]
pub struct Snapshot {
    pub last_update_id: u64,
    pub bids: Vec<(Price, Qty)>,
    pub asks: Vec<(Price, Qty)>,
}

/// A public trade print.
#[derive(Debug, Clone)]
pub struct TradeTick {
    pub price: Price,
    pub qty: Qty,
    pub timestamp: Timestamp,
    pub is_buyer_maker: bool,
}

/// What can go wrong on the feed connection.
#[derive(Debug)]
pub enum WsError {
    InvalidUrl(String),
    ConnectionFailed(String),
    SendFailed(String),
    ParseError(String),
}

/// The levels a snapshot side establishes: each listed price with a
/// positive quantity, a later entry for a price replacing an earlier one;
/// entries with quantity zero are skipped.
pub open spec fn snapshot_side(levels: Seq<(Price, Qty)>) -> Map<u64, u64>
    decreases levels.len(),
{
    if levels.len() == 0 {
        Map::empty()
    } else {
        let m = snapshot_side(levels.drop_last());
        let (p, q) = levels.last();
        if q.0 > 0 {
            m.insert(p.0, q.0)
        } else {
            m
        }
    }
}

/// A side after applying a diff's entries in order: a positive quantity
/// sets the level, zero removes it.
pub open spec fn diff_side(m: Map<u64, u64>, levels: Seq<(Price, Qty)>) -> Map<u64, u64>
    decreases levels.len(),
{
    if levels.len() == 0 {
        m
    } else {
        let m1 = diff_side(m, levels.drop_last());
        let (p, q) = levels.last();
        if q.0 > 0 {
            m1.insert(p.0, q.0)
        } else {
            m1.remove(p.0)
        }
    }
}

/// The model of a market book: price to quantity on each side, and the id
/// of the last update applied.
pub struct MarketView {
    pub bids: Map<u64, u64>,
    pub asks: Map<u64, u64>,
    pub last_update_id: u64,
}

impl MarketView {
    pub open spec fn side(self, s: Side) -> Map<u64, u64> {
        match s {
            Side::Buy => self.bids,
            Side::Sell => self.asks,
        }
    }
}

/// The book a snapshot establishes.
pub open spec fn snapshot_view(s: Snapshot) -> MarketView {
    MarketView {
        bids: snapshot_side(s.bids@),
        asks: snapshot_side(s.asks@),
        last_update_id: s.last_update_id,
    }
}

/// The book after a diff.
pub open spec fn diff_view(v: MarketView, u: DepthUpdate) -> MarketView {
    MarketView {
        bids: diff_side(v.bids, u.bids@),
        asks: diff_side(v.asks, u.asks@),
        last_update_id: u.final_update_id,
    }
}

/// `p` is the best price of a quantity map on side `s`.
pub open spec fn is_top(m: Map<u64, u64>, s: Side, p: u64) -> bool {
    &&& m.contains_key(p)
    &&& forall|q: u64| #[trigger] m.contains_key(q) && q != p ==> better(s, p, q)
}

/// `r` lists the first `n` levels of the side, best first: every level left
/// out is worse than all listed ones.
pub open spec fn quote_depth_ok(m: Map<u64, u64>, s: Side, n: nat, r: Seq<(Price, Qty)>) -> bool {
    &&& r.len() <= n
    &&& forall|i: int, j: int| 0 <= i < j < r.len() ==> better(s, (#[trigger] r[i]).0.0, (#[trigger] r[j]).0.0)
    &&& forall|i: int| 0 <= i < r.len() ==> m.contains_key((#[trigger] r[i]).0.0) && r[i].1.0 == m[r[i].0.0]
    &&& forall|p: u64| #[trigger]
        m.contains_key(p) ==> (exists|i: int| 0 <= i < r.len() && (#[trigger] r[i]).0.0 == p) || (r.len()
            == n && forall|i: int| 0 <= i < r.len() ==> better(s, (#[trigger] r[i]).0.0, p))
}

/// The quantities of one side keyed by price.
pub open spec fn quote_side(t: Map<u64, Qty>, s: Side) -> Map<u64, u64> {
    Map::new(|p: u64| t.contains_key(key_of(s, p)), |p: u64| t[key_of(s, p)].0)
}

proof fn lemma_quote_insert(t: Map<u64, Qty>, s: Side, p: u64, q: Qty)
    ensures
        quote_side(t.insert(key_of(s, p), q), s) == quote_side(t, s).insert(p, q.0),
{
    assert forall|x: u64| #![auto] quote_side(t.insert(key_of(s, p), q), s).contains_key(x) <==> quote_side(t, s).insert(p, q.0).contains_key(x) by {
        lemma_key_of_involution(s, x);
        lemma_key_of_involution(s, p);
    }
    assert(quote_side(t.insert(key_of(s, p), q), s) =~= quote_side(t, s).insert(p, q.0));
}

proof fn lemma_quote_remove(t: Map<u64, Qty>, s: Side, p: u64)
    ensures
        quote_side(t.remove(key_of(s, p)), s) == quote_side(t, s).remove(p),
{
    assert forall|x: u64| #![auto] quote_side(t.remove(key_of(s, p)), s).contains_key(x) <==> quote_side(t, s).remove(p).contains_key(x) by {
        lemma_key_of_involution(s, x);
        lemma_key_of_involution(s, p);
    }
    assert(quote_side(t.remove(key_of(s, p)), s) =~= quote_side(t, s).remove(p));
}

/// The market book. Bids are keyed by `u64::MAX - price` and asks by price,
/// so that in both maps the smallest key is the best price; a stored
/// quantity is never zero.
#[derive(Debug, Clone)]
pub struct MarketBook {
    bids: BTreeMap<u64, Qty>,
    asks: BTreeMap<u64, Qty>,
    last_update_id: u64,
}

impl View for MarketBook {
    type V = MarketView;

    closed spec fn view(&self) -> MarketView {
        MarketView {
            bids: quote_side(self.bids@, Side::Buy),
            asks: quote_side(self.asks@, Side::Sell),
            last_update_id: self.last_update_id,
        }
    }
}

/// The last quantity that `levels` gives price `p`, if it lists `p`.
pub open spec fn last_entry(levels: Seq<(Price, Qty)>, p: u64) -> Option<u64>
    decreases levels.len(),
{
    if levels.len() == 0 {
        None
    } else if levels.last().0.0 == p {
        Some(levels.last().1.0)
    } else {
        last_entry(levels.drop_last(), p)
    }
}

/// After a diff, a price it lists holds its last quantity for that price
/// (none, where that is zero), and every other price is as before.
pub proof fn lemma_diff_side_at(m: Map<u64, u64>, levels: Seq<(Price, Qty)>, p: u64)
    ensures
        match last_entry(levels, p) {
            Some(q) => if q > 0 {
                diff_side(m, levels).contains_key(p) && diff_side(m, levels)[p] == q
            } else {
                !diff_side(m, levels).contains_key(p)
            },
            None => diff_side(m, levels).contains_key(p) == m.contains_key(p) && (m.contains_key(p)
                ==> diff_side(m, levels)[p] == m[p]),
        },
    decreases levels.len(),
{
    if levels.len() > 0 {
        lemma_diff_side_at(m, levels.drop_last(), p);
    }
}

/// Applying the same diff twice gives the book that applying it once gives.
pub proof fn lemma_diff_view_idempotent(v: MarketView, u: DepthUpdate)
    ensures
        diff_view(diff_view(v, u), u) == diff_view(v, u),
{
    let once = diff_view(v, u);
    let twice = diff_view(once, u);
    assert forall|p: u64| #[trigger] twice.bids.contains_key(p) == once.bids.contains_key(p) && (
    twice.bids.contains_key(p) ==> twice.bids[p] == once.bids[p]) by {
        lemma_diff_side_at(v.bids, u.bids@, p);
        lemma_diff_side_at(once.bids, u.bids@, p);
    }
    assert forall|p: u64| #[trigger] twice.asks.contains_key(p) == once.asks.contains_key(p) && (
    twice.asks.contains_key(p) ==> twice.asks[p] == once.asks[p]) by {
        lemma_diff_side_at(v.asks, u.asks@, p);
        lemma_diff_side_at(once.asks, u.asks@, p);
    }
    assert(twice.bids =~= once.bids);
    assert(twice.asks =~= once.asks);
}

/// The levels of a quantity map over a finite tree are finitely many.
proof fn lemma_quote_side_finite(t: Map<u64, Qty>, s: Side)
    requires
        t.dom().finite(),
    ensures
        quote_side(t, s).dom().finite(),
{
    let f = |k: u64| key_of(s, k);
    t.dom().lemma_map_finite(f);
    assert forall|p: u64| #[trigger] quote_side(t, s).dom().contains(p) == t.dom().map(f).contains(p) by {
        lemma_key_of_involution(s, p);
        if t.dom().map(f).contains(p) {
            let k = choose|k: u64| t.dom().contains(k) && f(k) == p;
            lemma_key_of_involution(s, k);
        } else {
            if t.contains_key(key_of(s, p)) {
                assert(f(key_of(s, p)) == p);
            }
        }
    }
    assert(quote_side(t, s).dom() =~= t.dom().map(f));
}

/// Two listings of the first `n` levels name the same prices, position by
/// position, up to `k`.
proof fn lemma_quote_depth_agree(
    m: Map<u64, u64>,
    s: Side,
    n: nat,
    r1: Seq<(Price, Qty)>,
    r2: Seq<(Price, Qty)>,
    k: int,
)
    requires
        quote_depth_ok(m, s, n, r1),
        quote_depth_ok(m, s, n, r2),
        0 <= k <= r1.len(),
        k <= r2.len(),
    ensures
        forall|i: int| 0 <= i < k ==> (#[trigger] r1[i]).0.0 == r2[i].0.0,
    decreases k,
{
    if k > 0 {
        lemma_quote_depth_agree(m, s, n, r1, r2, k - 1);
        let i = k - 1;
        let a = r1[i].0.0;
        let b = r2[i].0.0;
        if a != b {
            if better(s, a, b) {
                assert(m.contains_key(a));
                if exists|j: int| 0 <= j < r2.len() && (#[trigger] r2[j]).0.0 == a {
                    let j = choose|j: int| 0 <= j < r2.len() && (#[trigger] r2[j]).0.0 == a;
                    if j < i {
                        assert(r1[j].0.0 == r2[j].0.0);
                        assert(better(s, r1[j].0.0, r1[i].0.0));
                    } else if j > i {
                        assert(better(s, r2[i].0.0, r2[j].0.0));
                    }
                } else {
                    assert(better(s, r2[i].0.0, a));
                }
            } else {
                assert(better(s, b, a));
                assert(m.contains_key(b));
                if exists|j: int| 0 <= j < r1.len() && (#[trigger] r1[j]).0.0 == b {
                    let j = choose|j: int| 0 <= j < r1.len() && (#[trigger] r1[j]).0.0 == b;
                    if j < i {
                        assert(r1[j].0.0 == r2[j].0.0);
                        assert(better(s, r2[j].0.0, r2[i].0.0));
                    } else if j > i {
                        assert(better(s, r1[i].0.0, r1[j].0.0));
                    }
                } else {
                    assert(better(s, r1[i].0.0, b));
                }
            }
        }
    }
}

/// The listing of the first `n` levels is unique.
proof fn lemma_quote_depth_unique(m: Map<u64, u64>, s: Side, n: nat, r1: Seq<(Price, Qty)>, r2: Seq<(Price, Qty)>)
    requires
        quote_depth_ok(m, s, n, r1),
        quote_depth_ok(m, s, n, r2),
    ensures
        r1 == r2,
{
    let k = if r1.len() <= r2.len() {
        r1.len() as int
    } else {
        r2.len() as int
    };
    lemma_quote_depth_agree(m, s, n, r1, r2, k);
    if r1.len() < r2.len() {
        let x = r2[k].0.0;
        assert(m.contains_key(x));
        if exists|j: int| 0 <= j < r1.len() && (#[trigger] r1[j]).0.0 == x {
            let j = choose|j: int| 0 <= j < r1.len() && (#[trigger] r1[j]).0.0 == x;
            assert(r1[j].0.0 == r2[j].0.0);
            assert(better(s, r2[j].0.0, r2[k].0.0));
        }
    } else if r2.len() < r1.len() {
        let x = r1[k].0.0;
        assert(m.contains_key(x));
        if exists|j: int| 0 <= j < r2.len() && (#[trigger] r2[j]).0.0 == x {
            let j = choose|j: int| 0 <= j < r2.len() && (#[trigger] r2[j]).0.0 == x;
            assert(r1[j].0.0 == r2[j].0.0);
            assert(better(s, r1[j].0.0, r1[k].0.0));
        }
    }
    assert forall|i: int| 0 <= i < r1.len() implies r1[i] == r2[i] by {
        assert(r1[i].0.0 == r2[i].0.0);
    }
    assert(r1 =~= r2);
}

/// Depth is a prefix of deeper depth: the listing of the first `n1` levels
/// is the start of the listing of the first `n2 >= n1` levels.
pub proof fn lemma_depth_prefix(
    m: Map<u64, u64>,
    s: Side,
    n1: nat,
    r1: Seq<(Price, Qty)>,
    n2: nat,
    r2: Seq<(Price, Qty)>,
)
    requires
        n1 <= n2,
        quote_depth_ok(m, s, n1, r1),
        quote_depth_ok(m, s, n2, r2),
    ensures
        r1.len() <= r2.len(),
        r1 == r2.take(r1.len() as int),
{
    let k = if n1 <= r2.len() {
        n1 as int
    } else {
        r2.len() as int
    };
    let t = r2.take(k);
    assert forall|p: u64| #[trigger] m.contains_key(p) implies (exists|i: int|
        0 <= i < t.len() && (#[trigger] t[i]).0.0 == p) || (t.len() == n1 && forall|i: int|
        0 <= i < t.len() ==> better(s, (#[trigger] t[i]).0.0, p)) by {
        if exists|j: int| 0 <= j < r2.len() && (#[trigger] r2[j]).0.0 == p {
            let j = choose|j: int| 0 <= j < r2.len() && (#[trigger] r2[j]).0.0 == p;
            if j < k {
                assert(t[j].0.0 == p);
            } else {
                assert forall|i: int| 0 <= i < t.len() implies better(s, (#[trigger] t[i]).0.0, p) by {
                    assert(better(s, r2[i].0.0, r2[j].0.0));
                }
            }
        } else {
            assert forall|i: int| 0 <= i < t.len() implies better(s, (#[trigger] t[i]).0.0, p) by {
                assert(t[i] == r2[i]);
            }
        }
    }
    assert(quote_depth_ok(m, s, n1, t));
    lemma_quote_depth_unique(m, s, n1, r1, t);
}

/// A listing of the first `n` levels of a side with `L` levels has
/// `min(n, L)` entries.
pub proof fn lemma_depth_len(m: Map<u64, u64>, s: Side, n: nat, r: Seq<(Price, Qty)>)
    requires
        m.dom().finite(),
        quote_depth_ok(m, s, n, r),
    ensures
        r.len() == if n <= m.dom().len() {
            n
        } else {
            m.dom().len()
        },
{
    let keys = Seq::new(r.len(), |i: int| r[i].0.0);
    assert(keys.no_duplicates()) by {
        assert forall|i: int, j: int| 0 <= i < keys.len() && 0 <= j < keys.len() && i != j implies keys[i]
            != keys[j] by {
            if i < j {
                assert(better(s, r[i].0.0, r[j].0.0));
            } else {
                assert(better(s, r[j].0.0, r[i].0.0));
            }
        }
    }
    keys.unique_seq_to_set();
    assert(keys.to_set().subset_of(m.dom())) by {
        assert forall|p: u64| #[trigger] keys.to_set().contains(p) implies m.dom().contains(p) by {
            let i = choose|i: int| 0 <= i < keys.len() && keys[i] == p;
            assert(m.contains_key(r[i].0.0));
        }
    }
    vstd::set_lib::lemma_len_subset(keys.to_set(), m.dom());
    if r.len() < n {
        assert(m.dom().subset_of(keys.to_set())) by {
            assert forall|p: u64| #[trigger] m.dom().contains(p) implies keys.to_set().contains(p) by {
                assert(m.contains_key(p));
                let i = choose|i: int| 0 <= i < r.len() && (#[trigger] r[i]).0.0 == p;
                assert(keys[i] == p);
            }
        }
        vstd::set_lib::lemma_len_subset(m.dom(), keys.to_set());
    }
}

/// No level of a quantity map holds zero.
pub open spec fn no_zero_levels(m: Map<u64, u64>) -> bool {
    forall|p: u64| #[trigger] m.contains_key(p) ==> m[p] > 0
}

/// A snapshot side holds no zero level.
pub proof fn lemma_snapshot_side_positive(levels: Seq<(Price, Qty)>)
    ensures
        no_zero_levels(snapshot_side(levels)),
    decreases levels.len(),
{
    if levels.len() > 0 {
        lemma_snapshot_side_positive(levels.drop_last());
    }
}

/// Applying a diff keeps every level positive.
pub proof fn lemma_diff_side_positive(m: Map<u64, u64>, levels: Seq<(Price, Qty)>)
    requires
        no_zero_levels(m),
    ensures
        no_zero_levels(diff_side(m, levels)),
    decreases levels.len(),
{
    if levels.len() > 0 {
        lemma_diff_side_positive(m, levels.drop_last());
    }
}

/// Sets the levels of a snapshot side into an empty tree.
fn load_snapshot_side(tree: &mut BTreeMap<u64, Qty>, s: Side, levels: &Vec<(Price, Qty)>)
    requires
        quote_side(old(tree)@, s) == Map::<u64, u64>::empty(),
    ensures
        quote_side(final(tree)@, s) == snapshot_side(levels@),
{
    let mut i: usize = 0;
    while i < levels.len()
        invariant
            i <= levels@.len(),
            quote_side(tree@, s) == snapshot_side(levels@.take(i as int)),
        decreases levels@.len() - i,
    {
        let (price, qty) = levels[i];
        proof {
            assert(levels@.take(i + 1).drop_last() =~= levels@.take(i as int));
            assert(levels@.take(i + 1).last() == levels@[i as int]);
        }
        if qty.0 > 0 {
            let k = side_key(s, price.0);
            proof {
                lemma_quote_insert(tree@, s, price.0, qty);
            }
            tree.insert(k, qty);
        }
        i = i + 1;
    }
    proof {
        assert(levels@.take(levels@.len() as int) =~= levels@);
    }
}

/// Applies the entries of a diff side to a tree.
fn apply_diff_side(tree: &mut BTreeMap<u64, Qty>, s: Side, levels: &Vec<(Price, Qty)>)
    ensures
        quote_side(final(tree)@, s) == diff_side(quote_side(old(tree)@, s), levels@),
{
    let ghost m0 = quote_side(tree@, s);
    let mut i: usize = 0;
    while i < levels.len()
        invariant
            i <= levels@.len(),
            quote_side(tree@, s) == diff_side(m0, levels@.take(i as int)),
        decreases levels@.len() - i,
    {
        let (price, qty) = levels[i];
        proof {
            assert(levels@.take(i + 1).drop_last() =~= levels@.take(i as int));
            assert(levels@.take(i + 1).last() == levels@[i as int]);
        }
        let k = side_key(s, price.0);
        if qty.0 > 0 {
            proof {
                lemma_quote_insert(tree@, s, price.0, qty);
            }
            tree.insert(k, qty);
        } else {
            proof {
                lemma_quote_remove(tree@, s, price.0);
            }
            tree.remove(&k);
        }
        i = i + 1;
    }
    proof {
        assert(levels@.take(levels@.len() as int) =~= levels@);
    }
}

fn side_key(s: Side, p: u64) -> (k: u64)
    ensures
        k == key_of(s, p),
{
    match s {
        Side::Buy => u64::MAX - p,
        Side::Sell => p,
    }
}

impl MarketBook {
    /// An empty book at update id 0.
    pub fn new() -> (b: MarketBook)
        ensures
            b@.bids == Map::<u64, u64>::empty(),
            b@.asks == Map::<u64, u64>::empty(),
            b@.last_update_id == 0,
            no_zero_levels(b@.bids),
            no_zero_levels(b@.asks),
    {
        let b = MarketBook { bids: BTreeMap::new(), asks: BTreeMap::new(), last_update_id: 0 };
        assert(b@.bids =~= Map::<u64, u64>::empty());
        assert(b@.asks =~= Map::<u64, u64>::empty());
        b
    }

    /// Clears both sides and loads the snapshot's levels (skipping zero
    /// quantities); the book is then at the snapshot's update id.
    pub fn apply_snapshot(&mut self, snapshot: Snapshot)
        ensures
            final(self)@ == snapshot_view(snapshot),
            no_zero_levels(final(self)@.bids),
            no_zero_levels(final(self)@.asks),
    {
        proof {
            lemma_snapshot_side_positive(snapshot.bids@);
            lemma_snapshot_side_positive(snapshot.asks@);
        }
        self.bids.clear();
        self.asks.clear();
        proof {
            assert(quote_side(self.bids@, Side::Buy) =~= Map::<u64, u64>::empty());
            assert(quote_side(self.asks@, Side::Sell) =~= Map::<u64, u64>::empty());
        }
        load_snapshot_side(&mut self.bids, Side::Buy, &snapshot.bids);
        load_snapshot_side(&mut self.asks, Side::Sell, &snapshot.asks);
        self.last_update_id = snapshot.last_update_id;
    }

    /// Applies a streamed diff: positive quantities overwrite their level,
    /// zero removes it; the book is then at the diff's final update id.
    pub fn apply_diff(&mut self, update: &DepthUpdate)
        ensures
            final(self)@ == diff_view(old(self)@, *update),
            no_zero_levels(old(self)@.bids) ==> no_zero_levels(final(self)@.bids),
            no_zero_levels(old(self)@.asks) ==> no_zero_levels(final(self)@.asks),
            diff_view(final(self)@, *update) == final(self)@,
    {
        proof {
            if no_zero_levels(self@.bids) {
                lemma_diff_side_positive(self@.bids, update.bids@);
            }
            if no_zero_levels(self@.asks) {
                lemma_diff_side_positive(self@.asks, update.asks@);
            }
            lemma_diff_view_idempotent(self@, *update);
        }
        apply_diff_side(&mut self.bids, Side::Buy, &update.bids);
        apply_diff_side(&mut self.asks, Side::Sell, &update.asks);
        self.last_update_id = update.final_update_id;
    }

    /// The first `n` levels of one side, best price first.
    pub fn depth(&self, side: Side, n: usize) -> (r: Vec<(Price, Qty)>)
        ensures
            quote_depth_ok(self@.side(side), side, n as nat, r@),
            r@.len() == if n <= self@.side(side).dom().len() {
                n as nat
            } else {
                self@.side(side).dom().len()
            },
    {
        let es = if side == Side::Buy {
            entries(&self.bids)
        } else {
            entries(&self.asks)
        };
        let ghost t = if side == Side::Buy {
            self.bids@
        } else {
            self.asks@
        };
        let ghost m = self@.side(side);
        let mut r: Vec<(Price, Qty)> = Vec::new();
        let mut i: usize = 0;
        while i < es.len() && i < n
            invariant
                i <= es@.len(),
                i <= n,
                r@.len() == i,
                m == quote_side(t, side),
                forall|x: int, y: int| 0 <= x < y < es@.len() ==> (#[trigger] es@[x]).0 < (#[trigger] es@[y]).0,
                forall|x: int| 0 <= x < es@.len() ==> t.contains_key((#[trigger] es@[x]).0) && *es@[x].1 == t[es@[x].0],
                forall|x: int| 0 <= x < i ==> (#[trigger] r@[x]).0.0 == key_of(side, es@[x].0) && r@[x].1 == *es@[x].1,
            decreases es@.len() - i,
        {
            let (k, q) = es[i];
            r.push((Price(side_key(side, k)), *q));
            i = i + 1;
        }
        proof {
            assert forall|x: int, y: int| 0 <= x < y < r@.len() implies better(
                side,
                (#[trigger] r@[x]).0.0,
                (#[trigger] r@[y]).0.0,
            ) by {
                assert(es@[x].0 < es@[y].0);
            }
            assert forall|x: int| 0 <= x < r@.len() implies m.contains_key((#[trigger] r@[x]).0.0)
                && r@[x].1.0 == m[r@[x].0.0] by {
                lemma_key_of_involution(side, es@[x].0);
            }
            assert forall|p: u64| #[trigger] m.contains_key(p) implies (exists|x: int|
                0 <= x < r@.len() && (#[trigger] r@[x]).0.0 == p) || (r@.len() == n && forall|x: int|
                0 <= x < r@.len() ==> better(side, (#[trigger] r@[x]).0.0, p)) by {
                lemma_key_of_involution(side, p);
                assert(t.contains_key(key_of(side, p)));
                let y = choose|y: int| 0 <= y < es@.len() && (#[trigger] es@[y]).0 == key_of(side, p);
                if y < r@.len() {
                    assert(r@[y].0.0 == p);
                } else {
                    assert forall|x: int| 0 <= x < r@.len() implies better(
                        side,
                        (#[trigger] r@[x]).0.0,
                        p,
                    ) by {
                        assert(es@[x].0 < es@[y].0);
                    }
                }
            }
            assert(quote_depth_ok(m, side, n as nat, r@));
            lemma_quote_side_finite(t, side);
            lemma_depth_len(m, side, n as nat, r@);
        }
        r
    }

    fn best_of(&self, side: Side) -> (r: Option<(Price, Qty)>)
        ensures
            match r {
                None => self@.side(side).dom().is_empty(),
                Some((p, q)) => is_top(self@.side(side), side, p.0) && q.0 == self@.side(side)[p.0],
            },
    {
        let ghost t = if side == Side::Buy {
            self.bids@
        } else {
            self.asks@
        };
        let ghost m = self@.side(side);
        let k = if side == Side::Buy {
            first_key(&self.bids)
        } else {
            first_key(&self.asks)
        };
        match k {
            Some(k) => {
                let q = if side == Side::Buy {
                    *self.bids.get(&k).unwrap()
                } else {
                    *self.asks.get(&k).unwrap()
                };
                let p = side_key(side, k);
                proof {
                    lemma_key_of_involution(side, k);
                    assert forall|x: u64| #[trigger] m.contains_key(x) && x != p implies better(side, p, x) by {
                        lemma_key_of_involution(side, x);
                        assert(t.contains_key(key_of(side, x)));
                    }
                }
                Some((Price(p), q))
            },
            None => {
                proof {
                    assert forall|x: u64| !#[trigger] m.contains_key(x) by {
                        if m.contains_key(x) {
                            assert(t.contains_key(key_of(side, x)));
                        }
                    }
                    assert(m.dom() =~= Set::empty());
                }
                None
            },
        }
    }

    /// The highest bid and its quantity, if any.
    pub fn best_bid(&self) -> (r: Option<(Price, Qty)>)
        ensures
            match r {
                None => self@.bids.dom().is_empty(),
                Some((p, q)) => is_top(self@.bids, Side::Buy, p.0) && q.0 == self@.bids[p.0],
            },
    {
        self.best_of(Side::Buy)
    }

    /// The lowest ask and its quantity, if any.
    pub fn best_ask(&self) -> (r: Option<(Price, Qty)>)
        ensures
            match r {
                None => self@.asks.dom().is_empty(),
                Some((p, q)) => is_top(self@.asks, Side::Sell, p.0) && q.0 == self@.asks[p.0],
            },
    {
        self.best_of(Side::Sell)
    }

    /// The id of the last update applied.
    pub fn last_update_id(&self) -> (r: u64)
        ensures
            r == self@.last_update_id,
    {
        self.last_update_id
    }
}

} // verus!
