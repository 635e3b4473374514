//! Properties of the matching engine that hold of every book and every
//! order: what fill-or-kill, immediate-or-cancel and market orders promise,
//! where trades happen, what a cancellation does, and that the book never
//! crosses.
use crate::engine::{
    available, can_fill_spec, cancel_spec, crosses_spec, lemma_match_facts, lemma_remove_at_dom,
    lemma_rest_uncrossed, lemma_without_ids, match_spec, remainder_spec, rests_at, submit_spec,
    trade_events, traded_qty, uncrossed, validate_spec,
};
use crate::model::{
    at, best, better, has_order, locate, opposite, push_order, remove_at, view_wf, without, BookView,
};
use crate::types::{BookEvent, EngineError, Order, OrderId, OrderType, Qty, Side, TimeInForce, Trade};
use vstd::prelude::*;

verus! {

/// An order known to rest at `(s, p)` is in the book.
proof fn lemma_rests_has(v: BookView, id: OrderId, s: Side, p: u64)
    requires
        rests_at(v, id, s, p),
    ensures
        has_order(v, id),
{
    let i = choose|i: int| #[trigger] at(v, s, p, i) && v.side(s)[p][i].id == id;
    assert(at(v, s, p, i) && v.side(s)[p][i].id == id);
}

/// An order in the book rests somewhere.
proof fn lemma_has_rests(v: BookView, id: OrderId) -> (r: (Side, u64))
    requires
        has_order(v, id),
    ensures
        rests_at(v, id, r.0, r.1),
{
    let (s, p, i) = locate(v, id);
    assert(at(v, s, p, i) && v.side(s)[p][i].id == id);
    (s, p)
}

/// Matching never brings the taker into the book.
proof fn lemma_match_keeps_out(v: BookView, o: Order)
    requires
        view_wf(v),
        validate_spec(v, o) is None,
    ensures
        !has_order(match_spec(v, o).0, o.id),
{
    lemma_match_facts(v, o);
    let v1 = match_spec(v, o).0;
    if has_order(v1, o.id) {
        let (s, p) = lemma_has_rests(v1, o.id);
        lemma_rests_has(v, o.id, s, p);
    }
}

/// Fill or kill, refused: a fill-or-kill order that the liquidity within its
/// price cannot fill completely is refused, and the book is left as it was.
pub proof fn lemma_fok_refused(v: BookView, o: Order)
    requires
        validate_spec(v, o) is None,
        o.tif == TimeInForce::FOK,
        !can_fill_spec(v, o),
    ensures
        submit_spec(v, o) == (v, Err::<Seq<BookEvent>, EngineError>(EngineError::FokNotFillable)),
{
}

/// Fill or kill, accepted: a fill-or-kill order that the liquidity within its
/// price can fill is filled completely; its events are the acceptance and
/// its trades, nothing else, and it does not rest.
pub proof fn lemma_fok_fills_completely(v: BookView, o: Order)
    requires
        view_wf(v),
        validate_spec(v, o) is None,
        o.tif == TimeInForce::FOK,
        can_fill_spec(v, o),
    ensures
        submit_spec(v, o).1 == Ok::<Seq<BookEvent>, EngineError>(
            seq![BookEvent::Accepted { order_id: o.id }] + trade_events(match_spec(v, o).1),
        ),
        traded_qty(match_spec(v, o).1) == o.remaining_qty.0,
        !has_order(submit_spec(v, o).0, o.id),
{
    lemma_match_facts(v, o);
    lemma_match_keeps_out(v, o);
    let ev = seq![BookEvent::Accepted { order_id: o.id }] + trade_events(match_spec(v, o).1);
    assert(ev + Seq::<BookEvent>::empty() =~= ev);
}

/// Only a good-till-cancelled order can rest: an accepted
/// immediate-or-cancel or fill-or-kill order (market orders are never
/// good-till-cancelled) is not in the book afterwards.
pub proof fn lemma_only_gtc_rests(v: BookView, o: Order)
    requires
        view_wf(v),
        submit_spec(v, o).1 is Ok,
        o.tif != TimeInForce::GTC,
    ensures
        !has_order(submit_spec(v, o).0, o.id),
{
    lemma_match_facts(v, o);
    lemma_match_keeps_out(v, o);
}

/// A market order is accepted only with a time in force other than
/// good-till-cancelled, so it never rests.
pub proof fn lemma_market_never_rests(v: BookView, o: Order)
    requires
        view_wf(v),
        submit_spec(v, o).1 is Ok,
        o.order_type == OrderType::Market,
    ensures
        o.tif != TimeInForce::GTC,
        !has_order(submit_spec(v, o).0, o.id),
{
    lemma_only_gtc_rests(v, o);
}

/// The remainder of a good-till-cancelled order: once its trades are done,
/// a fully filled order is not in the book, and an order with quantity left
/// rests at its own price, behind the orders already there, with exactly
/// the quantity its trades left.
pub proof fn lemma_gtc_remainder(v: BookView, o: Order)
    requires
        view_wf(v),
        submit_spec(v, o).1 is Ok,
        o.tif == TimeInForce::GTC,
    ensures
        traded_qty(match_spec(v, o).1) <= o.remaining_qty.0,
        traded_qty(match_spec(v, o).1) == o.remaining_qty.0 ==> !has_order(submit_spec(v, o).0, o.id),
        traded_qty(match_spec(v, o).1) < o.remaining_qty.0 ==> {
            let p = o.price.unwrap().0;
            let book = submit_spec(v, o).0.side(o.side);
            &&& book == push_order(
                v.side(o.side),
                p,
                Order { remaining_qty: Qty((o.remaining_qty.0 - traded_qty(match_spec(v, o).1)) as u64), ..o },
            )
            &&& book[p].last() == Order {
                remaining_qty: Qty((o.remaining_qty.0 - traded_qty(match_spec(v, o).1)) as u64),
                ..o
            }
        },
{
    lemma_match_facts(v, o);
    lemma_match_keeps_out(v, o);
}

/// Where trades happen: every trade of a submitted order names it as the
/// taker, carries its timestamp and a positive quantity, and is with an
/// order that rested on the opposite side at the trade's price (the
/// maker's price); a limit order never trades beyond its price; prices
/// never improve from one trade to the next; and the trades add up to at
/// most the order's quantity.
pub proof fn lemma_trades(v: BookView, o: Order)
    requires
        view_wf(v),
        submit_spec(v, o).1 is Ok,
    ensures
        ({
            let ts = match_spec(v, o).1;
            let s = opposite(o.side);
            &&& traded_qty(ts) <= o.remaining_qty.0
            &&& forall|k: int|
                0 <= k < ts.len() ==> {
                    &&& (#[trigger] ts[k]).taker_order_id == o.id
                    &&& ts[k].timestamp == o.timestamp
                    &&& ts[k].qty.0 > 0
                    &&& rests_at(v, ts[k].maker_order_id, s, ts[k].price.0)
                    &&& o.order_type == OrderType::Limit ==> crate::engine::acceptable(o, ts[k].price.0)
                }
            &&& forall|j: int, k: int|
                0 <= j < k < ts.len() ==> !better(s, (#[trigger] ts[k]).price.0, (#[trigger] ts[j]).price.0)
        }),
{
    lemma_match_facts(v, o);
}

/// Price-time priority: the first trade of a crossing order is with the
/// oldest order at the best opposite price, at that price, for as much as
/// both have.
pub proof fn lemma_first_trade(v: BookView, o: Order)
    requires
        view_wf(v),
        submit_spec(v, o).1 is Ok,
        match_spec(v, o).1.len() > 0,
    ensures
        ({
            let s = opposite(o.side);
            let p = best(v.side(s), s)->0;
            let f = v.side(s)[p][0];
            let t = match_spec(v, o).1[0];
            &&& best(v.side(s), s) is Some
            &&& t.maker_order_id == f.id
            &&& t.price.0 == p
            &&& t.qty.0 == crate::engine::fill_of(f.remaining_qty.0, o.remaining_qty.0)
        }),
{
}

/// The book never crosses: submitting an order to a book where every bid is
/// below every ask leaves it so.
pub proof fn lemma_submit_uncrossed(v: BookView, o: Order)
    requires
        view_wf(v),
        uncrossed(v),
    ensures
        uncrossed(submit_spec(v, o).0),
{
    if submit_spec(v, o).1 is Ok {
        lemma_match_facts(v, o);
        let (v1, ts, o1) = match_spec(v, o);
        assert forall|b: u64, a: u64| #[trigger] v1.bids.contains_key(b) && #[trigger] v1.asks.contains_key(
            a,
        ) implies b < a by {
            if o.side == Side::Buy {
                assert(v.asks.dom().contains(a));
            } else {
                assert(v.bids.dom().contains(b));
            }
        }
        if o1.remaining_qty.0 > 0 && o1.tif == TimeInForce::GTC {
            lemma_rest_uncrossed(v1, o1);
        }
    }
}

/// Cancelling a resting order takes exactly that order out of the book and
/// reports it cancelled; every other order stays, and no price appears.
pub proof fn lemma_cancel_resting(v: BookView, id: OrderId)
    requires
        view_wf(v),
        has_order(v, id),
    ensures
        cancel_spec(v, id) == (without(v, id), Ok::<Seq<BookEvent>, EngineError>(seq![BookEvent::Cancelled { order_id: id }])),
        !has_order(without(v, id), id),
        forall|other: OrderId| other != id && has_order(v, other) ==> #[trigger] has_order(without(v, id), other),
        forall|other: OrderId| #[trigger] has_order(without(v, id), other) ==> has_order(v, other),
{
    let (s, p, i) = locate(v, id);
    assert(at(v, s, p, i) && v.side(s)[p][i].id == id);
    let v1 = without(v, id);
    let q = v.side(s)[p].remove(i);
    if has_order(v1, id) {
        let (s2, p2, i2) = locate(v1, id);
        assert(at(v1, s2, p2, i2) && v1.side(s2)[p2][i2].id == id);
        if s2 == s && p2 == p {
            assert(v1.side(s)[p] == q);
            if i2 < i {
                assert(at(v, s, p, i2) && v.side(s)[p][i2].id == id);
            } else {
                assert(at(v, s, p, i2 + 1) && v.side(s)[p][i2 + 1].id == id);
            }
        } else {
            assert(v1.side(s2)[p2] == v.side(s2)[p2]);
            assert(at(v, s2, p2, i2) && v.side(s2)[p2][i2].id == id);
        }
    }
    assert forall|other: OrderId| other != id && has_order(v, other) implies #[trigger] has_order(
        without(v, id),
        other,
    ) by {
        let (s2, p2, i2) = locate(v, other);
        assert(at(v, s2, p2, i2) && v.side(s2)[p2][i2].id == other);
        if s2 == s && p2 == p {
            assert(i2 != i);
            assert(q.len() > 0);
            assert(v1.side(s)[p] == q);
            if i2 < i {
                assert(at(v1, s, p, i2) && v1.side(s)[p][i2].id == other);
            } else {
                assert(at(v1, s, p, i2 - 1) && v1.side(s)[p][i2 - 1].id == other);
            }
        } else {
            assert(v1.side(s2)[p2] == v.side(s2)[p2]);
            assert(at(v1, s2, p2, i2) && v1.side(s2)[p2][i2].id == other);
        }
    }
    assert forall|other: OrderId| #[trigger] has_order(without(v, id), other) implies has_order(v, other) by {
        lemma_without_ids(v, id, other);
    }
}

/// Cancelling an id that no resting order carries is refused with
/// `OrderNotFound`, and the book is left as it was.
pub proof fn lemma_cancel_unknown(v: BookView, id: OrderId)
    requires
        !has_order(v, id),
    ensures
        cancel_spec(v, id) == (v, Err::<Seq<BookEvent>, EngineError>(EngineError::OrderNotFound(id))),
{
}

/// Cancelling never crosses the book.
pub proof fn lemma_cancel_uncrossed(v: BookView, id: OrderId)
    requires
        uncrossed(v),
    ensures
        uncrossed(cancel_spec(v, id).0),
{
    if has_order(v, id) {
        let (s, p, i) = locate(v, id);
        assert(at(v, s, p, i) && v.side(s)[p][i].id == id);
        lemma_remove_at_dom(v.side(s), p, i);
        let v1 = without(v, id);
        assert forall|b: u64, a: u64| #[trigger] v1.bids.contains_key(b) && #[trigger] v1.asks.contains_key(
            a,
        ) implies b < a by {
            assert(v.bids.dom().contains(b));
            assert(v.asks.dom().contains(a));
        }
    }
}

/// What an accepted submit does, in one statement: its events are the
/// acceptance, one trade per fill in order, then what became of the
/// remainder; every trade names the order as taker, has a positive
/// quantity, and is with an order that rested on the opposite side at the
/// trade's price (within the limit of a limit order); the trades and the
/// remainder add up to the order's quantity; a good-till-cancelled
/// remainder rests at the order's own price and is reported so, and
/// otherwise the order is not in the book; and the book stays uncrossed.
pub proof fn lemma_submit_order(v: BookView, o: Order)
    requires
        view_wf(v),
        uncrossed(v),
        submit_spec(v, o).1 is Ok,
    ensures
        ({
            let (v1, ts, o1) = match_spec(v, o);
            let evs = submit_spec(v, o).1->Ok_0;
            let after = submit_spec(v, o).0;
            let s = opposite(o.side);
            let rem = o1.remaining_qty.0;
            &&& evs == seq![BookEvent::Accepted { order_id: o.id }] + trade_events(ts) + remainder_spec(v1, o1).1
            &&& evs[0] == BookEvent::Accepted { order_id: o.id }
            &&& o1 == (Order { remaining_qty: Qty(rem), ..o })
            &&& traded_qty(ts) + rem == o.remaining_qty.0
            &&& forall|k: int|
                0 <= k < ts.len() ==> {
                    &&& (#[trigger] ts[k]).taker_order_id == o.id
                    &&& ts[k].qty.0 > 0
                    &&& rests_at(v, ts[k].maker_order_id, s, ts[k].price.0)
                    &&& o.order_type == OrderType::Limit ==> crate::engine::acceptable(o, ts[k].price.0)
                }
            &&& o.tif == TimeInForce::GTC && rem > 0 ==> {
                &&& remainder_spec(v1, o1).1 == seq![
                    BookEvent::RestingOnBook { order_id: o.id, price: o.price.unwrap(), remaining_qty: Qty(rem) },
                ]
                &&& after.side(o.side) == push_order(v.side(o.side), o.price.unwrap().0, o1)
                &&& has_order(after, o.id)
            }
            &&& !(o.tif == TimeInForce::GTC && rem > 0) ==> !has_order(after, o.id)
            &&& uncrossed(after)
        }),
{
    lemma_match_facts(v, o);
    lemma_match_keeps_out(v, o);
    lemma_trades(v, o);
    lemma_submit_uncrossed(v, o);
    let (v1, ts, o1) = match_spec(v, o);
    if o.tif == TimeInForce::GTC && o1.remaining_qty.0 > 0 {
        let p = o.price.unwrap().0;
        let m1 = push_order(v1.side(o.side), p, o1);
        let last = m1[p].len() - 1;
        assert(at(submit_spec(v, o).0, o.side, p, last));
    }
}

/// Immediate or cancel: an accepted immediate-or-cancel order (a limit
/// order, or a market order without a price) trades exactly the smaller of
/// its quantity and the liquidity within its price; what it cannot fill is
/// reported cancelled, and it does not rest.
pub proof fn lemma_ioc_fills_available(v: BookView, o: Order)
    requires
        view_wf(v),
        submit_spec(v, o).1 is Ok,
        o.tif == TimeInForce::IOC,
        o.order_type == OrderType::Market ==> o.price is None,
    ensures
        traded_qty(match_spec(v, o).1) == if o.remaining_qty.0 <= available(v, o) {
            o.remaining_qty.0 as nat
        } else {
            available(v, o)
        },
        submit_spec(v, o).1 == Ok::<Seq<BookEvent>, EngineError>(
            seq![BookEvent::Accepted { order_id: o.id }] + trade_events(match_spec(v, o).1) + if traded_qty(
                match_spec(v, o).1,
            ) < o.remaining_qty.0 {
                seq![BookEvent::Cancelled { order_id: o.id }]
            } else {
                Seq::<BookEvent>::empty()
            },
        ),
        !has_order(submit_spec(v, o).0, o.id),
{
    crate::engine::lemma_match_available(v, o);
    lemma_match_facts(v, o);
    lemma_match_keeps_out(v, o);
}

/// A market order sweeps the opposite side: whatever its price field holds,
/// matching it trades exactly the smaller of its quantity and all the
/// quantity resting on the opposite side, best price first.
pub proof fn lemma_market_sweeps(v: BookView, o: Order)
    requires
        view_wf(v),
        o.order_type == OrderType::Market,
    ensures
        ({
            let m = v.side(opposite(o.side));
            let all = crate::engine::qty_over(m, m.dom());
            &&& traded_qty(match_spec(v, o).1) == if o.remaining_qty.0 <= all {
                o.remaining_qty.0 as nat
            } else {
                all
            }
        }),
{
    let o2 = Order { price: None, ..o };
    crate::engine::lemma_market_price_ignored(v, o, None);
    crate::engine::lemma_match_available(v, o2);
    let m = v.side(opposite(o.side));
    assert(crate::engine::acceptable_prices(v, o2) =~= m.dom());
}

/// An accepted immediate-or-cancel market order trades the smaller of its
/// quantity and all the opposite liquidity, whatever its price field holds;
/// what it cannot fill is reported cancelled, and it does not rest.
pub proof fn lemma_ioc_market_sweeps(v: BookView, o: Order)
    requires
        view_wf(v),
        submit_spec(v, o).1 is Ok,
        o.tif == TimeInForce::IOC,
        o.order_type == OrderType::Market,
    ensures
        ({
            let m = v.side(opposite(o.side));
            let all = crate::engine::qty_over(m, m.dom());
            &&& traded_qty(match_spec(v, o).1) == if o.remaining_qty.0 <= all {
                o.remaining_qty.0 as nat
            } else {
                all
            }
            &&& submit_spec(v, o).1 == Ok::<Seq<BookEvent>, EngineError>(
                seq![BookEvent::Accepted { order_id: o.id }] + trade_events(match_spec(v, o).1) + if traded_qty(
                    match_spec(v, o).1,
                ) < o.remaining_qty.0 {
                    seq![BookEvent::Cancelled { order_id: o.id }]
                } else {
                    Seq::<BookEvent>::empty()
                },
            )
            &&& !has_order(submit_spec(v, o).0, o.id)
        }),
{
    lemma_market_sweeps(v, o);
    lemma_match_facts(v, o);
    lemma_match_keeps_out(v, o);
}

/// Removing a just-inserted order gives it back and restores the book:
/// after resting `o` at its price on its side (what `insert_resting` does),
/// the book holds `o` under its id, and taking that id out (what
/// `remove_order` does) leaves the book as it was.
pub proof fn lemma_insert_then_remove(v: BookView, o: Order)
    requires
        view_wf(v),
        o.price is Some,
        !has_order(v, o.id),
    ensures
        ({
            let v1 = v.set_side(o.side, push_order(v.side(o.side), o.price.unwrap().0, o));
            &&& has_order(v1, o.id)
            &&& crate::model::order_of(v1, o.id) == o
            &&& without(v1, o.id) == v
        }),
{
    let p = o.price.unwrap().0;
    let m = v.side(o.side);
    let m1 = push_order(m, p, o);
    let v1 = v.set_side(o.side, m1);
    let last = m1[p].len() - 1;
    assert(at(v1, o.side, p, last) && v1.side(o.side)[p][last].id == o.id);
    assert(has_order(v1, o.id));
    let (s2, p2, i2) = locate(v1, o.id);
    assert(at(v1, s2, p2, i2) && v1.side(s2)[p2][i2].id == o.id);
    if !(s2 == o.side && p2 == p && i2 == last) {
        if s2 == o.side && p2 == p {
            assert(at(v, s2, p2, i2) && v.side(s2)[p2][i2].id == o.id);
        } else {
            assert(v1.side(s2)[p2] == v.side(s2)[p2]);
            assert(at(v, s2, p2, i2) && v.side(s2)[p2][i2].id == o.id);
        }
        assert(false);
    }
    let back = remove_at(m1, p, last);
    if m.contains_key(p) {
        assert(m[p].len() > 0);
        assert(m1[p].remove(last) =~= m[p]);
        assert(back =~= m);
    } else {
        assert(m1[p].remove(last) =~= Seq::<Order>::empty());
        assert(back =~= m);
    }
    assert(without(v1, o.id) == v1.set_side(o.side, back));
    if o.side == Side::Buy {
        assert(v1.set_side(o.side, back) =~= v) by {
            assert(back =~= v.bids);
        }
    } else {
        assert(v1.set_side(o.side, back) =~= v) by {
            assert(back =~= v.asks);
        }
    }
}

/// Cancel undoes a resting submit: a good-till-cancelled order that does
/// not cross rests, and cancelling it gives back the book it was submitted
/// to.
pub proof fn lemma_rest_then_cancel(v: BookView, o: Order)
    requires
        view_wf(v),
        validate_spec(v, o) is None,
        o.tif == TimeInForce::GTC,
        !crosses_spec(v, o),
    ensures
        submit_spec(v, o).1 == Ok::<Seq<BookEvent>, EngineError>(
            seq![
                BookEvent::Accepted { order_id: o.id },
                BookEvent::RestingOnBook { order_id: o.id, price: o.price.unwrap(), remaining_qty: o.remaining_qty },
            ],
        ),
        cancel_spec(submit_spec(v, o).0, o.id) == (v, Ok::<Seq<BookEvent>, EngineError>(
            seq![BookEvent::Cancelled { order_id: o.id }],
        )),
{
    let p = o.price.unwrap().0;
    let v1 = v.set_side(o.side, push_order(v.side(o.side), p, o));
    assert(match_spec(v, o) == (v, Seq::<Trade>::empty(), o));
    assert(submit_spec(v, o).0 == v1);
    assert(trade_events(Seq::<Trade>::empty()) =~= Seq::<BookEvent>::empty());
    let ev = seq![BookEvent::Accepted { order_id: o.id }] + trade_events(Seq::<Trade>::empty()) + seq![
        BookEvent::RestingOnBook { order_id: o.id, price: o.price.unwrap(), remaining_qty: o.remaining_qty },
    ];
    assert(ev =~= seq![
        BookEvent::Accepted { order_id: o.id },
        BookEvent::RestingOnBook { order_id: o.id, price: o.price.unwrap(), remaining_qty: o.remaining_qty },
    ]);
    lemma_insert_then_remove(v, o);
}

} // verus!
