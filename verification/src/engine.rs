//! The matching engine: validates an order, matches it against the
//! opposite side in price-time priority, and applies its time in force to
//! whatever is left.
use crate::model::{
    at, best, better, empty_view, fill_front, has_order, is_best, level_qty, opposite, push_order,
    remove_at, side_wf, view_wf, without, BookView,
};
use crate::book::OrderBook;
use crate::types::{BookEvent, EngineError, Order, OrderType, Price, Qty, Side, TimeInForce, Trade};
use vstd::prelude::*;

verus! {

/// The order crosses the book: there is opposite liquidity, and a limit
/// order's price reaches the best opposite price.
pub open spec fn crosses_spec(v: BookView, o: Order) -> bool {
    match best(v.side(opposite(o.side)), opposite(o.side)) {
        None => false,
        Some(b) => match o.order_type {
            OrderType::Market => true,
            OrderType::Limit => match o.side {
                Side::Buy => o.price.unwrap().0 >= b,
                Side::Sell => o.price.unwrap().0 <= b,
            },
        },
    }
}

/// The quantity a fill trades: the smaller of the two remaining quantities.
pub open spec fn fill_of(maker_rem: u64, taker_rem: u64) -> u64 {
    if maker_rem <= taker_rem {
        maker_rem
    } else {
        taker_rem
    }
}

/// Price-time priority matching: while the taker has quantity left and
/// crosses the book, it trades with the oldest order at the best opposite
/// price, at that price. Returns the book, the trades and the taker after
/// matching.
pub open spec fn match_spec(v: BookView, o: Order) -> (BookView, Seq<Trade>, Order)
    decreases o.remaining_qty.0,
{
    if o.remaining_qty.0 > 0 && crosses_spec(v, o) {
        let s = opposite(o.side);
        let p = best(v.side(s), s)->0;
        let f = v.side(s)[p][0];
        let fill = fill_of(f.remaining_qty.0, o.remaining_qty.0);
        if fill == 0 {
            (v, seq![], o)
        } else {
            let v1 = v.set_side(s, fill_front(v.side(s), p, fill));
            let o1 = Order { remaining_qty: Qty((o.remaining_qty.0 - fill) as u64), ..o };
            let t = Trade {
                maker_order_id: f.id,
                taker_order_id: o.id,
                price: Price(p),
                qty: Qty(fill),
                timestamp: o.timestamp,
            };
            let (v2, ts, o2) = match_spec(v1, o1);
            (v2, seq![t] + ts, o2)
        }
    } else {
        (v, seq![], o)
    }
}

/// Why the order is refused before matching, if it is.
pub open spec fn validate_spec(v: BookView, o: Order) -> Option<EngineError> {
    if o.remaining_qty.0 == 0 {
        Some(EngineError::ZeroQty)
    } else if o.order_type == OrderType::Limit && o.price is None {
        Some(EngineError::MissingPrice)
    } else if o.order_type == OrderType::Market && o.tif == TimeInForce::GTC {
        Some(EngineError::InvalidTifForMarket)
    } else if has_order(v, o.id) {
        Some(EngineError::DuplicateOrderId(o.id))
    } else {
        None
    }
}

/// Opposite price `p` is within the order's price (any price without one).
pub open spec fn acceptable(o: Order, p: u64) -> bool {
    match o.price {
        None => true,
        Some(l) => match o.side {
            Side::Buy => p <= l.0,
            Side::Sell => p >= l.0,
        },
    }
}

/// The total resting quantity over the prices `ks`.
pub open spec fn qty_over(m: Map<u64, Seq<Order>>, ks: Set<u64>) -> nat
    decreases ks.len(),
    when ks.finite()
{
    if ks.len() == 0 {
        0
    } else {
        let k = ks.choose();
        level_qty(m, k) + qty_over(m, ks.remove(k))
    }
}

/// The opposite prices acceptable to the order.
pub open spec fn acceptable_prices(v: BookView, o: Order) -> Set<u64> {
    v.side(opposite(o.side)).dom().filter(|p: u64| acceptable(o, p))
}

/// The acceptable opposite prices better than `p`.
pub open spec fn prices_before(v: BookView, o: Order, p: u64) -> Set<u64> {
    v.side(opposite(o.side)).dom().filter(|q: u64| acceptable(o, q) && better(opposite(o.side), q, p))
}

/// The opposite quantity available within the order's price.
pub open spec fn available(v: BookView, o: Order) -> nat {
    qty_over(v.side(opposite(o.side)), acceptable_prices(v, o))
}

/// A fill-or-kill order can be filled completely.
pub open spec fn can_fill_spec(v: BookView, o: Order) -> bool {
    available(v, o) >= o.remaining_qty.0
}

/// Adding up the acceptable levels best first never runs past `u64::MAX`
/// before reaching the order's quantity.
pub open spec fn fok_fits(v: BookView, o: Order) -> bool {
    let m = v.side(opposite(o.side));
    forall|p: u64|
        #[trigger] m.contains_key(p) && acceptable(o, p) && qty_over(m, prices_before(v, o, p))
            < o.remaining_qty.0 ==> qty_over(m, prices_before(v, o, p)) + level_qty(m, p) <= u64::MAX
}

/// What becomes of the part of the order left after matching: a GTC
/// remainder rests at its price, an IOC remainder is cancelled, and a FOK
/// order never has one.
pub open spec fn remainder_spec(v: BookView, o: Order) -> (BookView, Seq<BookEvent>) {
    if o.remaining_qty.0 == 0 {
        (v, seq![])
    } else {
        match o.tif {
            TimeInForce::GTC => (
                v.set_side(o.side, push_order(v.side(o.side), o.price.unwrap().0, o)),
                seq![
                    BookEvent::RestingOnBook {
                        order_id: o.id,
                        price: o.price.unwrap(),
                        remaining_qty: o.remaining_qty,
                    },
                ],
            ),
            TimeInForce::IOC => (v, seq![BookEvent::Cancelled { order_id: o.id }]),
            TimeInForce::FOK => (v, seq![]),
        }
    }
}

/// The trade events of a sequence of trades.
pub open spec fn trade_events(ts: Seq<Trade>) -> Seq<BookEvent> {
    Seq::new(ts.len(), |i: int| BookEvent::Trade(ts[i]))
}

/// Submitting an order: the book afterwards and the events or the error.
pub open spec fn submit_spec(v: BookView, o: Order) -> (BookView, Result<Seq<BookEvent>, EngineError>) {
    match validate_spec(v, o) {
        Some(e) => (v, Err(e)),
        None => if o.tif == TimeInForce::FOK && !can_fill_spec(v, o) {
            (v, Err(EngineError::FokNotFillable))
        } else {
            let (v1, trades, o1) = match_spec(v, o);
            let (v2, tail) = remainder_spec(v1, o1);
            (v2, Ok(seq![BookEvent::Accepted { order_id: o.id }] + trade_events(trades) + tail))
        },
    }
}

/// Submitting the order computes no quantity past `u64::MAX`: a resting
/// remainder fits in its level's total, and a fill-or-kill check fits.
pub open spec fn submit_fits(v: BookView, o: Order) -> bool {
    validate_spec(v, o) is None ==> {
        &&& o.tif == TimeInForce::GTC ==> level_qty(v.side(o.side), o.price.unwrap().0)
            + o.remaining_qty.0 <= u64::MAX
        &&& o.tif == TimeInForce::FOK ==> fok_fits(v, o)
    }
}

/// Cancelling: the resting order leaves the book, or the id is unknown.
pub open spec fn cancel_spec(v: BookView, id: crate::types::OrderId) -> (BookView, Result<Seq<BookEvent>, EngineError>) {
    if has_order(v, id) {
        (without(v, id), Ok(seq![BookEvent::Cancelled { order_id: id }]))
    } else {
        (v, Err(EngineError::OrderNotFound(id)))
    }
}

/// Every bid is below every ask.
pub open spec fn uncrossed(v: BookView) -> bool {
    forall|b: u64, a: u64| #[trigger] v.bids.contains_key(b) && #[trigger] v.asks.contains_key(a) ==> b < a
}

/// The quantity over a set splits off any one of its prices.
pub proof fn lemma_qty_over_remove(m: Map<u64, Seq<Order>>, ks: Set<u64>, k: u64)
    requires
        ks.finite(),
        ks.contains(k),
    ensures
        qty_over(m, ks) == level_qty(m, k) + qty_over(m, ks.remove(k)),
    decreases ks.len(),
{
    let c = ks.choose();
    if c != k {
        lemma_qty_over_remove(m, ks.remove(c), k);
        lemma_qty_over_remove(m, ks.remove(k), c);
        assert(ks.remove(c).remove(k) =~= ks.remove(k).remove(c));
    }
}

/// The quantity over a set with one more price.
pub proof fn lemma_qty_over_insert(m: Map<u64, Seq<Order>>, ks: Set<u64>, k: u64)
    requires
        ks.finite(),
        !ks.contains(k),
    ensures
        qty_over(m, ks.insert(k)) == level_qty(m, k) + qty_over(m, ks),
{
    lemma_qty_over_remove(m, ks.insert(k), k);
    assert(ks.insert(k).remove(k) =~= ks);
}

/// The quantity over a subset is at most the quantity over the set.
pub proof fn lemma_qty_over_subset(m: Map<u64, Seq<Order>>, small: Set<u64>, big: Set<u64>)
    requires
        big.finite(),
        small.subset_of(big),
    ensures
        qty_over(m, small) <= qty_over(m, big),
    decreases big.len(),
{
    vstd::set_lib::lemma_set_subset_finite(big, small);
    if big.len() > 0 {
        let k = big.choose();
        lemma_qty_over_remove(m, big, k);
        if small.contains(k) {
            lemma_qty_over_remove(m, small, k);
            lemma_qty_over_subset(m, small.remove(k), big.remove(k));
        } else {
            lemma_qty_over_subset(m, small, big.remove(k));
        }
    } else {
        assert(small =~= Set::empty());
        assert(big =~= Set::empty());
    }
}

/// The quantity over a set depends only on the levels at its prices.
pub proof fn lemma_qty_over_agree(m1: Map<u64, Seq<Order>>, m2: Map<u64, Seq<Order>>, ks: Set<u64>)
    requires
        ks.finite(),
        forall|k: u64| #[trigger] ks.contains(k) ==> level_qty(m1, k) == level_qty(m2, k),
    ensures
        qty_over(m1, ks) == qty_over(m2, ks),
    decreases ks.len(),
{
    if ks.len() > 0 {
        let k = ks.choose();
        lemma_qty_over_agree(m1, m2, ks.remove(k));
    }
}

/// Filling the front order of a level never brings a new price to the side.
pub proof fn lemma_fill_front_dom(m: Map<u64, Seq<Order>>, p: u64, fill: u64)
    requires
        m.contains_key(p),
    ensures
        fill_front(m, p, fill).dom().subset_of(m.dom()),
{
}

/// Removing an order never brings a new price to the side.
pub proof fn lemma_remove_at_dom(m: Map<u64, Seq<Order>>, p: u64, i: int)
    requires
        m.contains_key(p),
    ensures
        remove_at(m, p, i).dom().subset_of(m.dom()),
{
}

/// Filling the front order of a level never brings a new id to the book.
pub proof fn lemma_fill_front_ids(v: BookView, s: Side, p: u64, fill: u64, id: crate::types::OrderId)
    requires
        v.side(s).contains_key(p),
        v.side(s)[p].len() > 0,
        has_order(v.set_side(s, fill_front(v.side(s), p, fill)), id),
    ensures
        has_order(v, id),
{
    let v1 = v.set_side(s, fill_front(v.side(s), p, fill));
    let (s2, p2, i2) = choose|s2: Side, p2: u64, i2: int| #[trigger] at(v1, s2, p2, i2) && v1.side(s2)[p2][i2].id == id;
    assert(at(v1, s2, p2, i2) && v1.side(s2)[p2][i2].id == id);
    if s2 != s || p2 != p {
        assert(v1.side(s2)[p2] == v.side(s2)[p2]);
        assert(at(v, s2, p2, i2));
    } else {
        let m = v.side(s);
        let f = m[p][0];
        let rest = (f.remaining_qty.0 - fill) as u64;
        if rest == 0 {
            assert(v1.side(s)[p] == m[p].remove(0));
            assert(m[p].remove(0)[i2] == m[p][i2 + 1]);
            assert(at(v, s, p, i2 + 1));
        } else {
            assert(at(v, s, p, i2));
        }
    }
}

/// Removing an order never brings a new id to the book.
pub proof fn lemma_without_ids(v: BookView, id: crate::types::OrderId, other: crate::types::OrderId)
    requires
        has_order(v, id),
        has_order(without(v, id), other),
    ensures
        has_order(v, other),
{
    let (s, p, i) = crate::model::locate(v, id);
    let v1 = without(v, id);
    let (s2, p2, i2) = choose|s2: Side, p2: u64, i2: int| #[trigger] at(v1, s2, p2, i2) && v1.side(s2)[p2][i2].id == other;
    assert(at(v1, s2, p2, i2) && v1.side(s2)[p2][i2].id == other);
    if s2 != s || p2 != p {
        assert(v1.side(s2)[p2] == v.side(s2)[p2]);
        assert(at(v, s2, p2, i2));
    } else {
        assert(v1.side(s)[p] == v.side(s)[p].remove(i));
        if i2 < i {
            assert(at(v, s, p, i2));
        } else {
            assert(at(v, s, p, i2 + 1));
        }
    }
}

/// On a finite side, no best price means no price at all.
pub proof fn lemma_best_none_empty(m: Map<u64, Seq<Order>>, s: Side, q: u64)
    requires
        m.dom().finite(),
        best(m, s) is None,
    ensures
        !m.contains_key(q),
{
    if m.contains_key(q) {
        crate::model::lemma_best_exists(m, s);
    }
}

/// A remainder that does not cross the book can rest without crossing it.
pub proof fn lemma_rest_uncrossed(v: BookView, o: Order)
    requires
        view_wf(v),
        uncrossed(v),
        o.order_type == OrderType::Limit,
        o.price is Some,
        !crosses_spec(v, o),
    ensures
        uncrossed(v.set_side(o.side, push_order(v.side(o.side), o.price.unwrap().0, o))),
{
    let s = opposite(o.side);
    let m = v.side(s);
    let pr = o.price.unwrap().0;
    let v1 = v.set_side(o.side, push_order(v.side(o.side), pr, o));
    match best(m, s) {
        None => {
            assert forall|b: u64, a: u64| #[trigger] v1.bids.contains_key(b) && #[trigger] v1.asks.contains_key(a) implies b < a by {
                if o.side == Side::Buy {
                    lemma_best_none_empty(m, s, a);
                } else {
                    lemma_best_none_empty(m, s, b);
                }
            }
        },
        Some(bp) => {
            crate::model::lemma_best_exists(m, s);
            assert forall|b: u64, a: u64| #[trigger] v1.bids.contains_key(b) && #[trigger] v1.asks.contains_key(a) implies b < a by {
                if o.side == Side::Buy {
                    if b == pr {
                        assert(m.contains_key(a));
                        if a != bp {
                            assert(better(s, bp, a));
                        }
                    } else {
                        assert(v.bids.contains_key(b));
                    }
                } else {
                    if a == pr {
                        assert(m.contains_key(b));
                        if b != bp {
                            assert(better(s, bp, b));
                        }
                    } else {
                        assert(v.asks.contains_key(a));
                    }
                }
            }
        },
    }
}

/// The first `i` prices of `keys`, as a set.
pub open spec fn prefix_set(keys: Seq<u64>, i: int) -> Set<u64> {
    keys.subrange(0, i).to_set()
}

/// One more price of `keys` joins the prefix set.
pub proof fn lemma_prefix_set_step(keys: Seq<u64>, i: int)
    requires
        0 <= i < keys.len(),
    ensures
        prefix_set(keys, i + 1) =~= prefix_set(keys, i).insert(keys[i]),
        prefix_set(keys, i).finite(),
{
    vstd::seq_lib::seq_to_set_is_finite(keys.subrange(0, i));
    assert forall|q: u64| #[trigger] prefix_set(keys, i + 1).contains(q) implies prefix_set(keys, i).insert(
        keys[i],
    ).contains(q) by {
        let k = choose|k: int| 0 <= k < i + 1 && #[trigger] keys.subrange(0, i + 1)[k] == q;
        if k < i {
            assert(keys.subrange(0, i)[k] == q);
        }
    }
    assert forall|q: u64| #[trigger] prefix_set(keys, i).insert(keys[i]).contains(q) implies prefix_set(
        keys,
        i + 1,
    ).contains(q) by {
        if q == keys[i] {
            assert(keys.subrange(0, i + 1)[i] == q);
        } else {
            let k = choose|k: int| 0 <= k < i && #[trigger] keys.subrange(0, i)[k] == q;
            assert(keys.subrange(0, i + 1)[k] == q);
        }
    }
}

/// A price better than an acceptable one is acceptable too.
pub proof fn lemma_acceptable_better(o: Order, a: u64, b: u64)
    requires
        better(opposite(o.side), a, b),
        acceptable(o, b),
    ensures
        acceptable(o, a),
{
}

/// Along a best-first listing whose first `i` prices are acceptable, the
/// acceptable prices better than the `i`-th are exactly the first `i`.
pub proof fn lemma_prefix_before(v: BookView, o: Order, keys: Seq<u64>, i: int)
    requires
        0 <= i < keys.len(),
        crate::model::enumerates(v.side(opposite(o.side)), opposite(o.side), keys),
        forall|j: int| 0 <= j < i ==> acceptable(o, #[trigger] keys[j]),
    ensures
        prices_before(v, o, keys[i]) =~= prefix_set(keys, i),
        !prefix_set(keys, i).contains(keys[i]),
{
    let s = opposite(o.side);
    let m = v.side(s);
    let pre = prefix_set(keys, i);
    let p = keys[i];
    assert forall|q: u64| #[trigger] prices_before(v, o, p).contains(q) implies pre.contains(q) by {
        assert(keys.contains(q));
        let j = choose|j: int| 0 <= j < keys.len() && #[trigger] keys[j] == q;
        if j >= i {
            if j > i {
                assert(better(s, keys[i], keys[j]));
            }
            assert(false);
        }
        assert(keys.subrange(0, i)[j] == q);
    }
    assert forall|q: u64| #[trigger] pre.contains(q) implies prices_before(v, o, p).contains(q) by {
        let k = choose|k: int| 0 <= k < i && #[trigger] keys.subrange(0, i)[k] == q;
        assert(keys[k] == q);
        assert(better(s, keys[k], keys[i]));
    }
    if pre.contains(p) {
        let k = choose|k: int| 0 <= k < i && #[trigger] keys.subrange(0, i)[k] == p;
        assert(keys[k] == p);
        assert(better(s, keys[k], keys[i]));
    }
}

/// Along a best-first listing whose first `i` prices are acceptable and
/// whose `i`-th price (if any) is not, the acceptable prices are exactly the
/// first `i`.
pub proof fn lemma_prefix_acceptable(v: BookView, o: Order, keys: Seq<u64>, i: int)
    requires
        0 <= i <= keys.len(),
        crate::model::enumerates(v.side(opposite(o.side)), opposite(o.side), keys),
        forall|j: int| 0 <= j < i ==> acceptable(o, #[trigger] keys[j]),
        i < keys.len() ==> !acceptable(o, keys[i]),
    ensures
        acceptable_prices(v, o) =~= prefix_set(keys, i),
{
    let s = opposite(o.side);
    let pre = prefix_set(keys, i);
    assert forall|q: u64| #[trigger] acceptable_prices(v, o).contains(q) implies pre.contains(q) by {
        assert(keys.contains(q));
        let j = choose|j: int| 0 <= j < keys.len() && #[trigger] keys[j] == q;
        if j >= i {
            if j > i {
                assert(better(s, keys[i], keys[j]));
                lemma_acceptable_better(o, keys[i], keys[j]);
            }
            assert(false);
        }
        assert(keys.subrange(0, i)[j] == q);
    }
    assert forall|q: u64| #[trigger] pre.contains(q) implies acceptable_prices(v, o).contains(q) by {
        let k = choose|k: int| 0 <= k < i && #[trigger] keys.subrange(0, i)[k] == q;
        assert(keys[k] == q);
    }
}

/// The order `id` rests on side `s` at price `p`.
pub open spec fn rests_at(v: BookView, id: crate::types::OrderId, s: Side, p: u64) -> bool {
    exists|i: int| #[trigger] at(v, s, p, i) && v.side(s)[p][i].id == id
}

/// The position in the book before a fill of the order at position
/// `(s2, p2, i2)` after it: one further back where the filled front order
/// left its queue.
pub open spec fn before_fill(m: Map<u64, Seq<Order>>, s: Side, p: u64, fill: u64, s2: Side, p2: u64, i2: int) -> int {
    if s2 == s && p2 == p && (m[p][0].remaining_qty.0 - fill) as u64 == 0 {
        i2 + 1
    } else {
        i2
    }
}

/// Filling the front order at `(s, p)`: every position afterwards holds
/// the order (by id, side and price) that stood one position further back
/// or at the same place before.
pub proof fn lemma_fill_front_position(v: BookView, s: Side, p: u64, fill: u64, s2: Side, p2: u64, i2: int)
    requires
        view_wf(v),
        v.side(s).contains_key(p),
        0 < fill <= v.side(s)[p][0].remaining_qty.0,
        at(v.set_side(s, fill_front(v.side(s), p, fill)), s2, p2, i2),
    ensures
        at(v, s2, p2, before_fill(v.side(s), s, p, fill, s2, p2, i2)),
        v.set_side(s, fill_front(v.side(s), p, fill)).side(s2)[p2][i2].id == v.side(s2)[p2][before_fill(
            v.side(s),
            s,
            p,
            fill,
            s2,
            p2,
            i2,
        )].id,
        v.set_side(s, fill_front(v.side(s), p, fill)).side(s2)[p2][i2].side == s2,
        v.set_side(s, fill_front(v.side(s), p, fill)).side(s2)[p2][i2].price == Some(Price(p2)),
        v.set_side(s, fill_front(v.side(s), p, fill)).side(s2)[p2][i2].remaining_qty.0 > 0,
{
    let m = v.side(s);
    let v1 = v.set_side(s, fill_front(m, p, fill));
    let f = m[p][0];
    let rest = (f.remaining_qty.0 - fill) as u64;
    assert(crate::model::order_ok(m[p][0], s, p));
    let j = before_fill(m, s, p, fill, s2, p2, i2);
    if s2 == s && p2 == p {
        if rest == 0 {
            assert(m[p].len() > 1);
            assert(v1.side(s)[p] == m[p].remove(0));
            assert(v1.side(s)[p][i2] == m[p][i2 + 1]);
            assert(crate::model::order_ok(m[p][i2 + 1], s, p));
        } else {
            assert(v1.side(s)[p] == m[p].update(0, Order { remaining_qty: Qty(rest), ..f }));
            assert(crate::model::order_ok(m[p][i2], s, p));
        }
    } else {
        assert(v1.side(s2)[p2] == v.side(s2)[p2]);
        assert(crate::model::order_ok(v.side(s2)[p2][i2], s2, p2));
    }
}

/// One matching step keeps the book well-formed.
pub proof fn lemma_fill_front_wf(v: BookView, s: Side, p: u64, fill: u64)
    requires
        view_wf(v),
        v.side(s).contains_key(p),
        0 < fill <= v.side(s)[p][0].remaining_qty.0,
    ensures
        view_wf(v.set_side(s, fill_front(v.side(s), p, fill))),
{
    let m = v.side(s);
    let v1 = v.set_side(s, fill_front(m, p, fill));
    let m1 = v1.side(s);
    lemma_fill_front_dom(m, p, fill);
    vstd::set_lib::lemma_set_subset_finite(m.dom(), m1.dom());
    assert forall|s2: Side, p2: u64| #[trigger] v1.side(s2).contains_key(p2) implies v1.side(s2)[p2].len() > 0 by {
        if s2 == s && p2 == p {
            if (m[p][0].remaining_qty.0 - fill) as u64 == 0 {
                assert(m[p].remove(0).len() > 0);
            }
        }
    }
    assert forall|s2: Side, p2: u64, i2: int|
        v1.side(s2).contains_key(p2) && 0 <= i2 < v1.side(s2)[p2].len() implies crate::model::order_ok(
        #[trigger] v1.side(s2)[p2][i2],
        s2,
        p2,
    ) by {
        assert(at(v1, s2, p2, i2));
        lemma_fill_front_position(v, s, p, fill, s2, p2, i2);
    }
    assert(side_wf(v1.bids, Side::Buy)) by {
        assert forall|q: u64| #[trigger] v1.bids.contains_key(q) implies v1.bids[q].len() > 0 by {
            assert(v1.side(Side::Buy).contains_key(q));
        }
        assert forall|q: u64, i: int| #![trigger v1.bids[q][i]] v1.bids.contains_key(q) && 0 <= i < v1.bids[q].len() implies crate::model::order_ok(v1.bids[q][i], Side::Buy, q) by {
            assert(v1.side(Side::Buy)[q][i] == v1.bids[q][i]);
        }
        if s == Side::Buy {
            assert(v1.bids.dom().finite());
        }
    }
    assert(side_wf(v1.asks, Side::Sell)) by {
        assert forall|q: u64| #[trigger] v1.asks.contains_key(q) implies v1.asks[q].len() > 0 by {
            assert(v1.side(Side::Sell).contains_key(q));
        }
        assert forall|q: u64, i: int| #![trigger v1.asks[q][i]] v1.asks.contains_key(q) && 0 <= i < v1.asks[q].len() implies crate::model::order_ok(v1.asks[q][i], Side::Sell, q) by {
            assert(v1.side(Side::Sell)[q][i] == v1.asks[q][i]);
        }
        if s == Side::Sell {
            assert(v1.asks.dom().finite());
        }
    }
    assert forall|s1: Side, p1: u64, i1: int, s2: Side, p2: u64, i2: int|
        at(v1, s1, p1, i1) && at(v1, s2, p2, i2) && #[trigger] v1.side(s1)[p1][i1].id == #[trigger] v1.side(
            s2,
        )[p2][i2].id implies s1 == s2 && p1 == p2 && i1 == i2 by {
        lemma_fill_front_position(v, s, p, fill, s1, p1, i1);
        lemma_fill_front_position(v, s, p, fill, s2, p2, i2);
        let j1 = before_fill(m, s, p, fill, s1, p1, i1);
        let j2 = before_fill(m, s, p, fill, s2, p2, i2);
        assert(v.side(s1)[p1][j1].id == v.side(s2)[p2][j2].id);
    }
}

/// The total quantity of a sequence of trades.
pub open spec fn traded_qty(ts: Seq<Trade>) -> nat
    decreases ts.len(),
{
    if ts.len() == 0 {
        0
    } else {
        ts[0].qty.0 as nat + traded_qty(ts.drop_first())
    }
}

/// A side with a single order at `p` holding quantity `q` loses exactly `q`
/// when that level goes.
proof fn lemma_qty_sum_single(s: Seq<Order>)
    requires
        s.len() == 1,
    ensures
        crate::price_level::qty_sum(s) == s[0].remaining_qty.0,
{
    crate::price_level::lemma_qty_sum_remove(s, 0);
    assert(s.remove(0) =~= Seq::<Order>::empty());
}

/// One fill takes at most its quantity off the liquidity available to the
/// taker.
pub proof fn lemma_fill_available(v: BookView, o: Order, p: u64, fill: u64)
    requires
        view_wf(v),
        v.side(opposite(o.side)).contains_key(p),
        0 < fill <= v.side(opposite(o.side))[p][0].remaining_qty.0,
        o.order_type == OrderType::Limit ==> acceptable(o, p),
    ensures
        available(
            v.set_side(opposite(o.side), fill_front(v.side(opposite(o.side)), p, fill)),
            Order { remaining_qty: Qty((o.remaining_qty.0 - fill) as u64), ..o },
        ) + fill >= available(v, o),
        acceptable(o, p) ==> available(
            v.set_side(opposite(o.side), fill_front(v.side(opposite(o.side)), p, fill)),
            Order { remaining_qty: Qty((o.remaining_qty.0 - fill) as u64), ..o },
        ) + fill == available(v, o),
{
    let s = opposite(o.side);
    let m = v.side(s);
    let v1 = v.set_side(s, fill_front(m, p, fill));
    let o1 = Order { remaining_qty: Qty((o.remaining_qty.0 - fill) as u64), ..o };
    let m1 = v1.side(s);
    let a = acceptable_prices(v, o);
    let a1 = acceptable_prices(v1, o1);
    let f = m[p][0];
    let rest = (f.remaining_qty.0 - fill) as u64;
    assert(a.subset_of(m.dom()));
    vstd::set_lib::lemma_set_subset_finite(m.dom(), a);
    lemma_fill_front_dom(m, p, fill);
    assert(a1.subset_of(m1.dom()));
    vstd::set_lib::lemma_set_subset_finite(m.dom(), m1.dom());
    vstd::set_lib::lemma_set_subset_finite(m1.dom(), a1);
    assert(m[p].len() > 0);
    if a.contains(p) {
        lemma_qty_over_remove(m, a, p);
        let rest_set = a.remove(p);
        assert forall|k: u64| #[trigger] rest_set.contains(k) implies level_qty(m1, k) == level_qty(m, k) by {
            assert(k != p);
        }
        lemma_qty_over_agree(m1, m, rest_set);
        if m1.contains_key(p) {
            assert(a1 =~= a);
            lemma_qty_over_remove(m1, a1, p);
            if rest == 0 {
                assert(m1[p] == m[p].remove(0));
                crate::price_level::lemma_qty_sum_remove(m[p], 0);
            } else {
                assert(m1[p] == m[p].update(0, Order { remaining_qty: Qty(rest), ..f }));
                crate::price_level::lemma_qty_sum_update(m[p], 0, Order { remaining_qty: Qty(rest), ..f });
            }
        } else {
            assert(a1 =~= rest_set);
            assert(m[p].remove(0).len() == 0);
            assert(m[p].len() == 1);
            lemma_qty_sum_single(m[p]);
        }
    } else {
        assert(a1 =~= a);
        assert forall|k: u64| #[trigger] a.contains(k) implies level_qty(m1, k) == level_qty(m, k) by {
            assert(k != p);
        }
        lemma_qty_over_agree(m1, m, a);
    }
}

/// An order that does not cross the book has no liquidity within its price.
pub proof fn lemma_no_cross_unavailable(v: BookView, o: Order)
    requires
        view_wf(v),
        !crosses_spec(v, o),
        o.order_type == OrderType::Limit ==> o.price is Some,
    ensures
        available(v, o) == 0,
{
    let s = opposite(o.side);
    let m = v.side(s);
    let a = acceptable_prices(v, o);
    assert forall|q: u64| !#[trigger] a.contains(q) by {
        if a.contains(q) {
            match best(m, s) {
                None => {
                    lemma_best_none_empty(m, s, q);
                },
                Some(b) => {
                    crate::model::lemma_best_exists(m, s);
                    if q != b {
                        assert(better(s, b, q));
                        lemma_acceptable_better(o, b, q);
                    }
                },
            }
        }
    }
    assert(a =~= Set::empty());
}

/// A market order crosses the book exactly when the opposite side has any
/// order, whatever its price field holds.
pub proof fn lemma_market_crosses(v: BookView, o: Order)
    requires
        view_wf(v),
        o.order_type == OrderType::Market,
    ensures
        crosses_spec(v, o) <==> !v.side(opposite(o.side)).dom().is_empty(),
{
    let s = opposite(o.side);
    let m = v.side(s);
    if m.dom().is_empty() {
        crate::model::lemma_best_none(m, s);
    } else {
        crate::model::lemma_best_exists(m, s);
    }
}

/// A market order's price field plays no part in matching: matching it
/// gives the same book and the same trades as matching it with any other
/// price field, and leaves the same quantity.
pub proof fn lemma_market_price_ignored(v: BookView, o: Order, price: Option<Price>)
    requires
        o.order_type == OrderType::Market,
    ensures
        ({
            let a = match_spec(v, o);
            let b = match_spec(v, Order { price, ..o });
            &&& a.0 == b.0
            &&& a.1 == b.1
            &&& a.2 == (Order { price: o.price, ..b.2 })
        }),
    decreases o.remaining_qty.0,
{
    let o2 = Order { price, ..o };
    assert(crosses_spec(v, o) == crosses_spec(v, o2));
    if o.remaining_qty.0 > 0 && crosses_spec(v, o) {
        let s = opposite(o.side);
        let p = best(v.side(s), s)->0;
        let f = v.side(s)[p][0];
        let fill = fill_of(f.remaining_qty.0, o.remaining_qty.0);
        if fill != 0 {
            let o1 = Order { remaining_qty: Qty((o.remaining_qty.0 - fill) as u64), ..o };
            lemma_market_price_ignored(v.set_side(s, fill_front(v.side(s), p, fill)), o1, price);
            assert(Order { price, ..o1 } == Order { remaining_qty: Qty((o2.remaining_qty.0 - fill) as u64), ..o2 });
        }
    }
}

/// A limit order (or a market order without a price) trades exactly the
/// smaller of its quantity and the liquidity within its price, and the
/// liquidity it leaves within its price is what it did not take.
pub proof fn lemma_match_available(v: BookView, o: Order)
    requires
        view_wf(v),
        o.order_type == OrderType::Limit ==> o.price is Some,
        o.order_type == OrderType::Market ==> o.price is None,
    ensures
        ({
            let (v2, ts, o2) = match_spec(v, o);
            &&& traded_qty(ts) + available(v2, o2) == available(v, o)
            &&& traded_qty(ts) == if o.remaining_qty.0 <= available(v, o) {
                o.remaining_qty.0 as nat
            } else {
                available(v, o)
            }
        }),
    decreases o.remaining_qty.0,
{
    let s = opposite(o.side);
    let m = v.side(s);
    if o.remaining_qty.0 > 0 && crosses_spec(v, o) {
        crate::model::lemma_best_exists(m, s);
        let p = best(m, s)->0;
        let f = m[p][0];
        assert(m[p].len() > 0);
        assert(crate::model::order_ok(f, s, p));
        let fill = fill_of(f.remaining_qty.0, o.remaining_qty.0);
        let v1 = v.set_side(s, fill_front(m, p, fill));
        let o1 = Order { remaining_qty: Qty((o.remaining_qty.0 - fill) as u64), ..o };
        let t = Trade {
            maker_order_id: f.id,
            taker_order_id: o.id,
            price: Price(p),
            qty: Qty(fill),
            timestamp: o.timestamp,
        };
        lemma_fill_front_wf(v, s, p, fill);
        assert(acceptable(o, p));
        lemma_fill_available(v, o, p, fill);
        lemma_match_available(v1, o1);
        let (v2, ts1, o2) = match_spec(v1, o1);
        let ts = seq![t] + ts1;
        assert(match_spec(v, o) == (v2, ts, o2));
        assert(ts.drop_first() =~= ts1);
        assert(ts[0] == t);
    } else {
        assert(traded_qty(Seq::<Trade>::empty()) == 0);
        if o.remaining_qty.0 > 0 {
            lemma_no_cross_unavailable(v, o);
        }
    }
}

/// What matching guarantees, for an order that passed validation on a
/// well-formed book: the book stays well-formed and the taker's own side is
/// untouched; no order and no price appears; quantity is conserved; the
/// taker ends filled or no longer crossing, and filled completely when the
/// liquidity within its price covered it; every trade is with an order that
/// rested on the opposite side at the trade's price, within the taker's
/// limit; and prices never improve from one trade to the next.
pub proof fn lemma_match_facts(v: BookView, o: Order)
    requires
        view_wf(v),
        o.order_type == OrderType::Limit ==> o.price is Some,
    ensures
        ({
            let (v2, ts, o2) = match_spec(v, o);
            let s = opposite(o.side);
            &&& view_wf(v2)
            &&& o2 == (Order { remaining_qty: o2.remaining_qty, ..o })
            &&& traded_qty(ts) + o2.remaining_qty.0 == o.remaining_qty.0
            &&& o2.remaining_qty.0 == 0 || !crosses_spec(v2, o2)
            &&& available(v, o) >= o.remaining_qty.0 ==> o2.remaining_qty.0 == 0
            &&& v2.side(o.side) == v.side(o.side)
            &&& v2.side(s).dom().subset_of(v.side(s).dom())
            &&& forall|id: crate::types::OrderId, s2: Side, p2: u64| #[trigger]
                rests_at(v2, id, s2, p2) ==> rests_at(v, id, s2, p2)
            &&& forall|k: int|
                0 <= k < ts.len() ==> {
                    &&& (#[trigger] ts[k]).taker_order_id == o.id
                    &&& ts[k].timestamp == o.timestamp
                    &&& ts[k].qty.0 > 0
                    &&& rests_at(v, ts[k].maker_order_id, s, ts[k].price.0)
                    &&& o.order_type == OrderType::Limit ==> acceptable(o, ts[k].price.0)
                }
            &&& forall|j: int, k: int|
                0 <= j < k < ts.len() ==> !better(s, (#[trigger] ts[k]).price.0, (#[trigger] ts[j]).price.0)
        }),
    decreases o.remaining_qty.0,
{
    let s = opposite(o.side);
    let m = v.side(s);
    if o.remaining_qty.0 > 0 && crosses_spec(v, o) {
        crate::model::lemma_best_exists(m, s);
        let p = best(m, s)->0;
        let f = m[p][0];
        assert(m[p].len() > 0);
        assert(crate::model::order_ok(f, s, p));
        let fill = fill_of(f.remaining_qty.0, o.remaining_qty.0);
        let v1 = v.set_side(s, fill_front(m, p, fill));
        let o1 = Order { remaining_qty: Qty((o.remaining_qty.0 - fill) as u64), ..o };
        let t = Trade {
            maker_order_id: f.id,
            taker_order_id: o.id,
            price: Price(p),
            qty: Qty(fill),
            timestamp: o.timestamp,
        };
        lemma_fill_front_wf(v, s, p, fill);
        lemma_fill_front_dom(m, p, fill);
        if o.order_type == OrderType::Limit {
            assert(acceptable(o, p));
        }
        lemma_fill_available(v, o, p, fill);
        lemma_match_facts(v1, o1);
        let (v2, ts1, o2) = match_spec(v1, o1);
        let ts = seq![t] + ts1;
        assert(match_spec(v, o) == (v2, ts, o2));
        assert(ts.drop_first() =~= ts1);
        assert(ts[0] == t);
        assert(rests_at(v, f.id, s, p)) by {
            assert(at(v, s, p, 0));
        }
        assert forall|id: crate::types::OrderId, s2: Side, p2: u64| #[trigger]
            rests_at(v1, id, s2, p2) implies rests_at(v, id, s2, p2) by {
            let i2 = choose|i2: int| #[trigger] at(v1, s2, p2, i2) && v1.side(s2)[p2][i2].id == id;
            lemma_fill_front_position(v, s, p, fill, s2, p2, i2);
            assert(at(v, s2, p2, before_fill(m, s, p, fill, s2, p2, i2)));
        }
        assert forall|k: int| 0 < k < ts.len() implies m.contains_key((#[trigger] ts[k]).price.0) && ts[k]
            == ts1[k - 1] by {
            assert(ts[k] == ts1[k - 1]);
            assert(rests_at(v1, ts1[k - 1].maker_order_id, s, ts1[k - 1].price.0));
            let i2 = choose|i2: int| #[trigger] at(v, s, ts1[k - 1].price.0, i2) && v.side(s)[ts1[k - 1].price.0][i2].id == ts1[k - 1].maker_order_id;
        }
        assert forall|j: int, k: int| 0 <= j < k < ts.len() implies !better(
            s,
            (#[trigger] ts[k]).price.0,
            (#[trigger] ts[j]).price.0,
        ) by {
            if j == 0 {
                let q = ts[k].price.0;
                assert(m.contains_key(q));
                if q != p {
                    assert(better(s, p, q));
                }
            } else {
                assert(ts[j] == ts1[j - 1]);
                assert(ts[k] == ts1[k - 1]);
            }
        }
    } else {
        if o.remaining_qty.0 > 0 {
            lemma_no_cross_unavailable(v, o);
        }
        assert(traded_qty(Seq::<Trade>::empty()) == 0);
    }
}

/// Along a best-first listing, the bound of `fok_fits` holds at every
/// acceptable price when it holds at the first `i` prices and the listing
/// ends there, turns unacceptable there, or already covers the order there.
pub proof fn lemma_fok_fits_prefix(v: BookView, o: Order, keys: Seq<u64>, i: int)
    requires
        0 <= i <= keys.len(),
        view_wf(v),
        crate::model::enumerates(v.side(opposite(o.side)), opposite(o.side), keys),
        forall|j: int| 0 <= j < i ==> acceptable(o, #[trigger] keys[j]),
        forall|j: int|
            0 <= j < i ==> qty_over(v.side(opposite(o.side)), prefix_set(keys, j)) + level_qty(
                v.side(opposite(o.side)),
                #[trigger] keys[j],
            ) <= u64::MAX,
        i == keys.len() || !acceptable(o, keys[i]) || qty_over(v.side(opposite(o.side)), prefix_set(keys, i))
            >= o.remaining_qty.0,
    ensures
        fok_fits(v, o),
{
    let s = opposite(o.side);
    let m = v.side(s);
    assert forall|p: u64|
        #[trigger] m.contains_key(p) && acceptable(o, p) && qty_over(m, prices_before(v, o, p))
            < o.remaining_qty.0 implies qty_over(m, prices_before(v, o, p)) + level_qty(m, p) <= u64::MAX by {
        assert(keys.contains(p));
        let j = choose|j: int| 0 <= j < keys.len() && #[trigger] keys[j] == p;
        if j < i {
            lemma_prefix_before(v, o, keys, j);
        } else {
            if j > i {
                assert(better(s, keys[i], keys[j]));
                lemma_acceptable_better(o, keys[i], keys[j]);
                let pb = prices_before(v, o, p);
                let pre = prefix_set(keys, i);
                assert(pb.subset_of(m.dom()));
                vstd::set_lib::lemma_set_subset_finite(m.dom(), pb);
                assert forall|q: u64| #[trigger] pre.contains(q) implies pb.contains(q) by {
                    let k = choose|k: int| 0 <= k < i && #[trigger] keys.subrange(0, i)[k] == q;
                    assert(keys[k] == q);
                    assert(better(s, keys[k], keys[j]));
                }
                lemma_qty_over_subset(m, pre, pb);
            } else {
                lemma_prefix_before(v, o, keys, i);
            }
        }
    }
}

/// The matching engine, owner of the order book.
pub struct Engine {
    book: OrderBook,
}

impl View for Engine {
    type V = BookView;

    closed spec fn view(&self) -> BookView {
        self.book@
    }
}

impl Engine {
    /// The engine invariant: a well-formed book in which every bid is below
    /// every ask.
    pub closed spec fn wf(&self) -> bool {
        &&& self.book.wf()
        &&& uncrossed(self.book@)
    }

    /// The view of a well-formed engine is a well-formed, uncrossed book.
    pub proof fn lemma_view_wf(&self)
        requires
            self.wf(),
        ensures
            view_wf(self@),
            uncrossed(self@),
    {
        self.book.lemma_view_wf();
    }

    /// An engine with an empty book.
    pub fn new() -> (e: Engine)
        ensures
            e.wf(),
            e@ == empty_view(),
    {
        Engine { book: OrderBook::new() }
    }

    /// The order book the engine matches against.
    pub fn book(&self) -> (r: &OrderBook)
        requires
            self.wf(),
        ensures
            r.wf(),
            r@ == self@,
    {
        &self.book
    }

    /// Why the order is refused before matching, if it is.
    fn validate(&self, order: &Order) -> (r: Result<(), EngineError>)
        requires
            self.book.wf(),
        ensures
            match validate_spec(self@, *order) {
                Some(e) => r == Err::<(), EngineError>(e),
                None => r == Ok::<(), EngineError>(()),
            },
    {
        if order.remaining_qty.0 == 0 {
            return Err(EngineError::ZeroQty);
        }
        match order.order_type {
            OrderType::Limit => {
                if order.price.is_none() {
                    return Err(EngineError::MissingPrice);
                }
            },
            OrderType::Market => {
                if order.tif == TimeInForce::GTC {
                    return Err(EngineError::InvalidTifForMarket);
                }
            },
        }
        if let Some(found) = self.book.get_order(order.id) {
            proof {
                let v = self@;
                let (s, p, i) = crate::model::locate(v, order.id);
                assert(at(v, s, p, i) && v.side(s)[p][i].id == order.id);
            }
            return Err(EngineError::DuplicateOrderId(found.id));
        }
        Ok(())
    }

    /// Whether the order crosses the book: any opposite liquidity for a
    /// market order, a price reaching the best opposite price for a limit one.
    fn crosses(&self, order: &Order) -> (r: bool)
        requires
            self.book.wf(),
            order.order_type == OrderType::Limit ==> order.price is Some,
        ensures
            r == crosses_spec(self@, *order),
    {
        match order.order_type {
            OrderType::Market => match order.side {
                Side::Buy => self.book.best_ask().is_some(),
                Side::Sell => self.book.best_bid().is_some(),
            },
            OrderType::Limit => {
                let limit = match order.price {
                    Some(p) => p,
                    None => {
                        return false;
                    },
                };
                match order.side {
                    Side::Buy => match self.book.best_ask() {
                        Some(ask) => limit.0 >= ask.0,
                        None => false,
                    },
                    Side::Sell => match self.book.best_bid() {
                        Some(bid) => limit.0 <= bid.0,
                        None => false,
                    },
                }
            },
        }
    }

    /// Matches the taker against the opposite side, best price first and
    /// oldest order first within a price, for as long as it has quantity left
    /// and crosses the book. Each trade is at the maker's price.
    fn match_against_book(&mut self, taker_order: &mut Order) -> (trades: Vec<Trade>)
        requires
            old(self).book.wf(),
            old(taker_order).order_type == OrderType::Limit ==> old(taker_order).price is Some,
        ensures
            final(self).book.wf(),
            match_spec(old(self)@, *old(taker_order)) == (final(self)@, trades@, *final(taker_order)),
            final(taker_order).remaining_qty.0 == 0 || !crosses_spec(final(self)@, *final(taker_order)),
            final(taker_order).remaining_qty.0 <= old(taker_order).remaining_qty.0,
            *final(taker_order) == (Order { remaining_qty: final(taker_order).remaining_qty, ..*old(taker_order) }),
            final(self)@.side(old(taker_order).side) == old(self)@.side(old(taker_order).side),
            final(self)@.side(opposite(old(taker_order).side)).dom().subset_of(
                old(self)@.side(opposite(old(taker_order).side)).dom(),
            ),
            forall|id: crate::types::OrderId| #[trigger] has_order(final(self)@, id) ==> has_order(old(self)@, id),
    {
        let ghost v0 = self@;
        let ghost o0 = *taker_order;
        let mut trades: Vec<Trade> = Vec::new();
        let opposite_side = if taker_order.side == Side::Buy {
            Side::Sell
        } else {
            Side::Buy
        };
        let mut go = taker_order.remaining_qty.0 > 0 && self.crosses(taker_order);
        while go
            invariant
                self.book.wf(),
                opposite_side == opposite(o0.side),
                o0.order_type == OrderType::Limit ==> o0.price is Some,
                *taker_order == (Order { remaining_qty: taker_order.remaining_qty, ..o0 }),
                go == (taker_order.remaining_qty.0 > 0 && crosses_spec(self@, *taker_order)),
                taker_order.remaining_qty.0 <= o0.remaining_qty.0,
                self@.side(o0.side) == v0.side(o0.side),
                self@.side(opposite(o0.side)).dom().subset_of(v0.side(opposite(o0.side)).dom()),
                forall|id: crate::types::OrderId| #[trigger] has_order(self@, id) ==> has_order(v0, id),
                match_spec(v0, o0) == (
                    match_spec(self@, *taker_order).0,
                    trades@ + match_spec(self@, *taker_order).1,
                    match_spec(self@, *taker_order).2,
                ),
            decreases taker_order.remaining_qty.0,
        {
            let ghost v = self@;
            let ghost o = *taker_order;
            proof {
                self.book.lemma_view_wf();
                let s = opposite(o.side);
                crate::model::lemma_best_exists(v.side(s), s);
                let p = best(v.side(s), s)->0;
                assert(v.side(s)[p].len() > 0);
                assert(crate::model::order_ok(v.side(s)[p][0], s, p));
            }
            if let Some(fill) = self.book.match_at_best(opposite_side, taker_order.remaining_qty) {
                taker_order.remaining_qty.0 = taker_order.remaining_qty.0 - fill.filled_qty.0;
                let t = Trade {
                    maker_order_id: fill.maker_order_id,
                    taker_order_id: taker_order.id,
                    price: fill.price,
                    qty: fill.filled_qty,
                    timestamp: taker_order.timestamp,
                };
                trades.push(t);
                proof {
                    let sd = opposite(o.side);
                    let p = best(v.side(sd), sd)->0;
                    lemma_fill_front_dom(v.side(sd), p, fill.filled_qty.0);
                    assert forall|id: crate::types::OrderId| #[trigger] has_order(self@, id) implies has_order(v0, id) by {
                        lemma_fill_front_ids(v, sd, p, fill.filled_qty.0, id);
                    }
                    let (v2, ts, o2) = match_spec(self@, *taker_order);
                    assert(match_spec(v, o) == (v2, seq![t] + ts, o2));
                    assert(trades@ + ts =~= (trades@.drop_last() + (seq![t] + ts)));
                }
                go = taker_order.remaining_qty.0 > 0 && self.crosses(taker_order);
            }
        }
        proof {
            assert(trades@ + seq![] =~= trades@);
        }
        trades
    }

    /// Whether the acceptable opposite liquidity, added up best price
    /// first, reaches the order's quantity.
    fn can_fully_fill(&self, order: &Order) -> (r: bool)
        requires
            self.book.wf(),
            order.remaining_qty.0 > 0,
            fok_fits(self@, *order),
        ensures
            r == can_fill_spec(self@, *order),
    {
        let ghost v = self@;
        let ghost s = opposite(order.side);
        let ghost m = v.side(s);
        proof {
            self.book.lemma_view_wf();
        }
        let opposite_side = if order.side == Side::Buy {
            Side::Sell
        } else {
            Side::Buy
        };
        let levels = self.book.iter_side(opposite_side);
        let ghost keys: Seq<u64> = Seq::new(levels@.len(), |j: int| levels@[j].0.0);
        let ghost acc_set = acceptable_prices(v, *order);
        proof {
            assert(acc_set.subset_of(m.dom()));
            vstd::set_lib::lemma_set_subset_finite(m.dom(), acc_set);
            assert forall|q: u64| #[trigger] m.contains_key(q) implies keys.contains(q) by {
                let j = choose|j: int| 0 <= j < levels@.len() && (#[trigger] levels@[j]).0.0 == q;
                assert(keys[j] == q);
            }
            assert(crate::model::enumerates(m, s, keys));
            assert(prefix_set(keys, 0) =~= Set::empty());
        }
        let mut accumulated: u64 = 0;
        let mut i: usize = 0;
        while i < levels.len()
            invariant
                0 <= i <= levels@.len(),
                keys.len() == levels@.len(),
                forall|j: int| 0 <= j < keys.len() ==> #[trigger] keys[j] == levels@[j].0.0,
                forall|j: int| 0 <= j < keys.len() ==> (#[trigger] levels@[j]).1.total() == level_qty(m, keys[j]),
                s == opposite(order.side),
                m == v.side(s),
                v == self@,
                view_wf(v),
                fok_fits(v, *order),
                acc_set == acceptable_prices(v, *order),
                acc_set.finite(),
                crate::model::enumerates(m, s, keys),
                accumulated == qty_over(m, prefix_set(keys, i as int)),
                accumulated < order.remaining_qty.0,
                forall|j: int| 0 <= j < i ==> acceptable(*order, #[trigger] keys[j]),
            decreases levels.len() - i,
        {
            let price = levels[i].0;
            let level = levels[i].1;
            proof {
                lemma_prefix_set_step(keys, i as int);
                assert(keys[i as int] == price.0);
                assert(level.total() == level_qty(m, price.0));
            }
            if let Some(limit) = order.price {
                let still_crosses = match order.side {
                    Side::Buy => price.0 <= limit.0,
                    Side::Sell => price.0 >= limit.0,
                };
                if !still_crosses {
                    proof {
                        lemma_prefix_acceptable(v, *order, keys, i as int);
                    }
                    return false;
                }
            }
            proof {
                lemma_prefix_before(v, *order, keys, i as int);
                lemma_qty_over_insert(m, prefix_set(keys, i as int), price.0);
            }
            accumulated = accumulated + level.total_qty().0;
            if accumulated >= order.remaining_qty.0 {
                proof {
                    let next = prefix_set(keys, i as int + 1);
                    assert forall|q: u64| #[trigger] next.contains(q) implies acc_set.contains(q) by {
                        let k = choose|k: int| 0 <= k < i + 1 && #[trigger] keys.subrange(0, i as int + 1)[k] == q;
                        assert(keys[k] == q);
                    }
                    lemma_qty_over_subset(m, next, acc_set);
                }
                return true;
            }
            i = i + 1;
        }
        proof {
            lemma_prefix_acceptable(v, *order, keys, i as int);
        }
        false
    }

    /// What becomes of the remainder: a GTC remainder rests on the book, an
    /// IOC remainder is cancelled, and a FOK order has none once it passed
    /// its check.
    fn apply_tif_to_remainder(&mut self, order: Order) -> (r: Vec<BookEvent>)
        requires
            old(self).book.wf(),
            order.remaining_qty.0 > 0 && order.tif == TimeInForce::GTC ==> {
                &&& order.price is Some
                &&& !has_order(old(self)@, order.id)
                &&& level_qty(old(self)@.side(order.side), order.price.unwrap().0) + order.remaining_qty.0
                    <= u64::MAX
            },
        ensures
            final(self).book.wf(),
            (final(self)@, r@) == remainder_spec(old(self)@, order),
    {
        if order.remaining_qty.0 == 0 {
            return Vec::new();
        }
        match order.tif {
            TimeInForce::GTC => {
                let price = match order.price {
                    Some(p) => p,
                    None => {
                        return Vec::new();
                    },
                };
                let remaining = order.remaining_qty;
                let id = order.id;
                self.book.insert_resting(order);
                let r = vec![BookEvent::RestingOnBook { order_id: id, price, remaining_qty: remaining }];
                proof {
                    assert(r@ =~= remainder_spec(old(self)@, order).1);
                }
                r
            },
            TimeInForce::IOC => {
                let r = vec![BookEvent::Cancelled { order_id: order.id }];
                proof {
                    assert(r@ =~= remainder_spec(old(self)@, order).1);
                }
                r
            },
            TimeInForce::FOK => Vec::new(),
        }
    }

    /// Submits an order: validates it, refuses a fill-or-kill order that
    /// cannot fill completely, matches it against the opposite side while it
    /// crosses, then applies its time in force to what is left. The events
    /// are the acceptance, one trade per fill in order, and what became of
    /// the remainder.
    pub fn submit_order(&mut self, order: Order) -> (r: Result<Vec<BookEvent>, EngineError>)
        requires
            old(self).wf(),
            submit_fits(old(self)@, order),
        ensures
            final(self).wf(),
            final(self)@ == submit_spec(old(self)@, order).0,
            match r {
                Ok(events) => submit_spec(old(self)@, order).1 == Ok::<Seq<BookEvent>, EngineError>(events@),
                Err(e) => submit_spec(old(self)@, order).1 == Err::<Seq<BookEvent>, EngineError>(e),
            },
    {
        let ghost v0 = self@;
        let ghost o0 = order;
        proof {
            self.lemma_view_wf();
        }
        let mut order = order;
        match self.validate(&order) {
            Ok(()) => {},
            Err(e) => {
                return Err(e);
            },
        }
        let mut events: Vec<BookEvent> = Vec::new();
        events.push(BookEvent::Accepted { order_id: order.id });
        if order.tif == TimeInForce::FOK && !self.can_fully_fill(&order) {
            return Err(EngineError::FokNotFillable);
        }
        if self.crosses(&order) {
            let trades = self.match_against_book(&mut order);
            let mut k: usize = 0;
            while k < trades.len()
                invariant
                    0 <= k <= trades@.len(),
                    events@ == seq![BookEvent::Accepted { order_id: o0.id }] + trade_events(
                        trades@.subrange(0, k as int),
                    ),
                decreases trades.len() - k,
            {
                events.push(BookEvent::Trade(trades[k]));
                proof {
                    assert(trade_events(trades@.subrange(0, k as int + 1)) =~= trade_events(
                        trades@.subrange(0, k as int),
                    ).push(BookEvent::Trade(trades@[k as int])));
                    assert(events@ =~= seq![BookEvent::Accepted { order_id: o0.id }] + trade_events(
                        trades@.subrange(0, k as int + 1),
                    ));
                }
                k = k + 1;
            }
            proof {
                assert(trades@.subrange(0, k as int) =~= trades@);
            }
        } else {
            proof {
                assert(match_spec(v0, o0) == (v0, Seq::<Trade>::empty(), o0));
                assert(events@ =~= seq![BookEvent::Accepted { order_id: o0.id }] + trade_events(
                    Seq::<Trade>::empty(),
                ));
            }
        }
        let ghost v1 = self@;
        let ghost o1 = order;
        proof {
            self.book.lemma_view_wf();
            if o1.tif == TimeInForce::GTC {
                assert(level_qty(v1.side(o1.side), o1.price.unwrap().0) == level_qty(
                    v0.side(o0.side),
                    o0.price.unwrap().0,
                ));
            }
            assert forall|b: u64, a: u64| #[trigger] v1.bids.contains_key(b) && #[trigger] v1.asks.contains_key(a) implies b < a by {
                if o0.side == Side::Buy {
                    assert(v0.asks.dom().contains(a));
                } else {
                    assert(v0.bids.dom().contains(b));
                }
            }
            if o1.remaining_qty.0 > 0 && o1.tif == TimeInForce::GTC {
                lemma_rest_uncrossed(v1, o1);
            }
        }
        let mut tail = self.apply_tif_to_remainder(order);
        events.append(&mut tail);
        Ok(events)
    }

    /// Cancels the resting order `id`.
    pub fn cancel_order(&mut self, id: crate::types::OrderId) -> (r: Result<Vec<BookEvent>, EngineError>)
        requires
            old(self).wf(),
        ensures
            final(self).wf(),
            final(self)@ == cancel_spec(old(self)@, id).0,
            match r {
                Ok(events) => cancel_spec(old(self)@, id).1 == Ok::<Seq<BookEvent>, EngineError>(events@),
                Err(e) => cancel_spec(old(self)@, id).1 == Err::<Seq<BookEvent>, EngineError>(e),
            },
    {
        let ghost v0 = self@;
        match self.book.remove_order(id) {
            Some(_order) => {
                proof {
                    let (s, p, i) = crate::model::locate(v0, id);
                    assert(at(v0, s, p, i));
                    lemma_remove_at_dom(v0.side(s), p, i);
                    let v1 = self@;
                    assert forall|b: u64, a: u64| #[trigger] v1.bids.contains_key(b) && #[trigger] v1.asks.contains_key(a) implies b < a by {
                        assert(v0.bids.dom().contains(b));
                        assert(v0.asks.dom().contains(a));
                    }
                }
                let r = vec![BookEvent::Cancelled { order_id: id }];
                proof {
                    assert(r@ =~= seq![BookEvent::Cancelled { order_id: id }]);
                }
                Ok(r)
            },
            None => Err(EngineError::OrderNotFound(id)),
        }
    }

    /// The resting quantity at `price` on `side` (zero where no level is).
    fn level_total(&self, side: Side, price: u64) -> (r: u64)
        requires
            self.book.wf(),
        ensures
            r == level_qty(self@.side(side), price),
    {
        let levels = self.book.iter_side(side);
        let mut i: usize = 0;
        while i < levels.len()
            invariant
                0 <= i <= levels@.len(),
                forall|j: int| 0 <= j < i ==> (#[trigger] levels@[j]).0.0 != price,
                forall|j: int|
                    0 <= j < levels@.len() ==> {
                        &&& self@.side(side).contains_key((#[trigger] levels@[j]).0.0)
                        &&& levels@[j].1.total() == crate::price_level::qty_sum(self@.side(side)[levels@[j].0.0])
                    },
                forall|p: u64| #[trigger]
                    self@.side(side).contains_key(p) ==> exists|j: int|
                        0 <= j < levels@.len() && (#[trigger] levels@[j]).0.0 == p,
            decreases levels.len() - i,
        {
            if levels[i].0.0 == price {
                return levels[i].1.total_qty().0;
            }
            i = i + 1;
        }
        0
    }

    /// Whether the acceptable opposite levels, added up best first, stay
    /// within `u64::MAX` until they cover the order.
    fn fok_check(&self, order: &Order) -> (r: bool)
        requires
            self.book.wf(),
            order.remaining_qty.0 > 0,
        ensures
            r == fok_fits(self@, *order),
    {
        let ghost v = self@;
        let ghost s = opposite(order.side);
        let ghost m = v.side(s);
        proof {
            self.book.lemma_view_wf();
        }
        let opposite_side = if order.side == Side::Buy {
            Side::Sell
        } else {
            Side::Buy
        };
        let levels = self.book.iter_side(opposite_side);
        let ghost keys: Seq<u64> = Seq::new(levels@.len(), |j: int| levels@[j].0.0);
        proof {
            assert forall|q: u64| #[trigger] m.contains_key(q) implies keys.contains(q) by {
                let j = choose|j: int| 0 <= j < levels@.len() && (#[trigger] levels@[j]).0.0 == q;
                assert(keys[j] == q);
            }
            assert(crate::model::enumerates(m, s, keys));
            assert(prefix_set(keys, 0) =~= Set::empty());
        }
        let mut accumulated: u64 = 0;
        let mut i: usize = 0;
        while i < levels.len()
            invariant
                0 <= i <= levels@.len(),
                keys.len() == levels@.len(),
                forall|j: int| 0 <= j < keys.len() ==> #[trigger] keys[j] == levels@[j].0.0,
                forall|j: int| 0 <= j < keys.len() ==> (#[trigger] levels@[j]).1.total() == level_qty(m, keys[j]),
                s == opposite(order.side),
                m == v.side(s),
                v == self@,
                view_wf(v),
                crate::model::enumerates(m, s, keys),
                accumulated == qty_over(m, prefix_set(keys, i as int)),
                accumulated < order.remaining_qty.0,
                forall|j: int| 0 <= j < i ==> acceptable(*order, #[trigger] keys[j]),
                forall|j: int|
                    0 <= j < i ==> qty_over(m, prefix_set(keys, j)) + level_qty(m, #[trigger] keys[j]) <= u64::MAX,
            decreases levels.len() - i,
        {
            let price = levels[i].0;
            let total = levels[i].1.total_qty().0;
            proof {
                lemma_prefix_set_step(keys, i as int);
                assert(keys[i as int] == price.0);
            }
            if let Some(limit) = order.price {
                let still_crosses = match order.side {
                    Side::Buy => price.0 <= limit.0,
                    Side::Sell => price.0 >= limit.0,
                };
                if !still_crosses {
                    proof {
                        lemma_fok_fits_prefix(v, *order, keys, i as int);
                    }
                    return true;
                }
            }
            proof {
                lemma_prefix_before(v, *order, keys, i as int);
                lemma_qty_over_insert(m, prefix_set(keys, i as int), price.0);
            }
            if accumulated > u64::MAX - total {
                proof {
                    assert(m.contains_key(price.0));
                }
                return false;
            }
            accumulated = accumulated + total;
            if accumulated >= order.remaining_qty.0 {
                proof {
                    lemma_fok_fits_prefix(v, *order, keys, i as int + 1);
                }
                return true;
            }
            i = i + 1;
        }
        proof {
            lemma_fok_fits_prefix(v, *order, keys, i as int);
        }
        true
    }

    /// Whether submitting `order` keeps every quantity it computes within
    /// `u64::MAX` (the condition `submit_order` asks of its caller).
    pub fn quantities_fit(&self, order: &Order) -> (r: bool)
        requires
            self.wf(),
        ensures
            r == submit_fits(self@, *order),
    {
        match self.validate(order) {
            Err(_) => {
                return true;
            },
            Ok(()) => {},
        }
        match order.tif {
            TimeInForce::GTC => {
                let price = match order.price {
                    Some(p) => p,
                    None => {
                        return true;
                    },
                };
                let total = self.level_total(order.side, price.0);
                total <= u64::MAX - order.remaining_qty.0
            },
            TimeInForce::IOC => true,
            TimeInForce::FOK => self.fok_check(order),
        }
    }
}

} // verus!
