//! A model of one incoming order sweeping the opposite side of the book.
//!
//! The opposite side is viewed as a map from price to the queue of resting
//! orders there, oldest first, each as (order id, user id, remaining
//! quantity). `cross_spec` takes the best level's oldest order step by step
//! and says which events come out and what is left.
use crate::arena::{Arena, ArenaIndex, OrderNode};
use crate::command::{BookUpdate, OutputEvent, PlaceOrder, Side, TradeEvent};
use crate::liquidity::crosses;
use crate::order_book::{is_max_key, is_min_key, OrderBook};
use crate::price_level::sum_qty;
use vstd::prelude::*;

verus! {

/// A resting order as the sweep sees it: order id, user id, quantity.
pub open spec fn maker_of(n: OrderNode) -> (u64, u64, u32) {
    (n.order_id, n.user_id, n.qty)
}

/// The orders at the indices `f`, in order.
pub open spec fn queue_view(nodes: Seq<OrderNode>, f: Seq<ArenaIndex>) -> Seq<(u64, u64, u32)> {
    Seq::new(f.len(), |k: int| maker_of(nodes[f[k] as int]))
}

/// Each level of `side`, as its queue of orders.
pub open spec fn side_view(book: &OrderBook, arena: &Arena, side: Side) -> Map<u64, Seq<(u64, u64, u32)>> {
    Map::new(
        |p: u64| book.levels(side).contains_key(p),
        |p: u64| queue_view(arena.spec_nodes(), book.levels(side)[p].fifo()),
    )
}

/// The total quantity of a queue.
pub open spec fn queue_qty(q: Seq<(u64, u64, u32)>) -> int
    decreases q.len(),
{
    if q.len() == 0 {
        0
    } else {
        queue_qty(q.drop_last()) + q.last().2
    }
}

/// The best opposite price for an order of `side`: the lowest ask for a
/// bid, the highest bid for an ask.
pub open spec fn best_key(side: Side, keys: Set<u64>) -> u64 {
    match side {
        Side::Bid => choose|p: u64| keys.contains(p) && forall|q: u64| #[trigger] keys.contains(q) ==> p <= q,
        Side::Ask => choose|p: u64| keys.contains(p) && forall|q: u64| #[trigger] keys.contains(q) ==> q <= p,
    }
}

/// The sweep stops: nothing remains, the opposite side is empty, its best
/// price does not cross, or its best level holds no order to trade.
pub open spec fn stop(v: Map<u64, Seq<(u64, u64, u32)>>, order: PlaceOrder, remaining: u32) -> bool {
    let p = best_key(order.side, v.dom());
    ||| remaining == 0
    ||| v.dom().len() == 0
    ||| !crosses(order.side, order.price, p)
    ||| v[p].len() == 0
    ||| v[p][0].2 == 0
}

/// One step: trade with the oldest order at the best price for the smaller
/// of the remaining quantity and its quantity; the order leaves when filled
/// and the level when empty. Gives the trade and the level's new state, the
/// new view, what remains, and the ids of orders filled.
pub open spec fn step(v: Map<u64, Seq<(u64, u64, u32)>>, order: PlaceOrder, remaining: u32) -> (
    Seq<OutputEvent>,
    Map<u64, Seq<(u64, u64, u32)>>,
    u32,
    Set<u64>,
) {
    let p = best_key(order.side, v.dom());
    let q = v[p];
    let h = q[0];
    let t: u32 = if remaining < h.2 { remaining } else { h.2 };
    let nq = if t == h.2 { q.drop_first() } else { q.update(0, (h.0, h.1, (h.2 - t) as u32)) };
    let v1 = if nq.len() == 0 { v.remove(p) } else { v.insert(p, nq) };
    let trade = TradeEvent {
        price: p,
        qty: t,
        maker_order_id: h.0,
        taker_order_id: order.order_id,
        maker_user_id: h.1,
        taker_user_id: order.user_id,
        taker_side: order.side,
    };
    let delta = BookUpdate { side: order.side.spec_opposite(), price: p, new_qty: queue_qty(nq) as u64, new_count: nq.len() as u32 };
    (
        seq![OutputEvent::Trade(trade), OutputEvent::BookDelta(delta)],
        v1,
        (remaining - t) as u32,
        if t == h.2 { set![h.0] } else { Set::empty() },
    )
}

/// The whole sweep of `order` with `remaining` quantity against `v`: the
/// events in order, the view left behind, the quantity left, and the ids
/// of the orders filled.
pub open spec fn cross_spec(v: Map<u64, Seq<(u64, u64, u32)>>, order: PlaceOrder, remaining: u32) -> (
    Seq<OutputEvent>,
    Map<u64, Seq<(u64, u64, u32)>>,
    u32,
    Set<u64>,
)
    decreases remaining,
{
    if stop(v, order, remaining) {
        (Seq::empty(), v, remaining, Set::empty())
    } else {
        let st = step(v, order, remaining);
        if st.2 < remaining {
            let rest = cross_spec(st.1, order, st.2);
            (st.0 + rest.0, rest.1, rest.2, st.3 + rest.3)
        } else {
            (Seq::empty(), v, remaining, Set::empty())
        }
    }
}

/// The queue total equals the level's sum over the records.
pub proof fn lemma_queue_qty(nodes: Seq<OrderNode>, f: Seq<ArenaIndex>)
    ensures
        queue_qty(queue_view(nodes, f)) == sum_qty(nodes, f),
    decreases f.len(),
{
    if f.len() > 0 {
        assert(queue_view(nodes, f).drop_last() =~= queue_view(nodes, f.drop_last()));
        lemma_queue_qty(nodes, f.drop_last());
    }
}

/// The cached best opposite price is the model's best price.
pub proof fn lemma_best_key(book: &OrderBook, side: Side, p: u64)
    requires
        book.best_ok(),
        book.spec_best(side.spec_opposite()) == Some(p),
    ensures
        best_key(side, book.levels(side.spec_opposite()).dom()) == p,
{
    let keys = book.levels(side.spec_opposite()).dom();
    match side {
        Side::Bid => {
            assert(is_min_key(keys, Some(p)));
            let c = best_key(side, keys);
            assert(keys.contains(c) && forall|q: u64| #[trigger] keys.contains(q) ==> c <= q);
            assert(c <= p && p <= c);
        },
        Side::Ask => {
            assert(is_max_key(keys, Some(p)));
            let c = best_key(side, keys);
            assert(keys.contains(c) && forall|q: u64| #[trigger] keys.contains(q) ==> q <= c);
            assert(c <= p && p <= c);
        },
    }
}

/// Unfolding one step of a sweep that does not stop.
pub proof fn lemma_cross_unfold(v: Map<u64, Seq<(u64, u64, u32)>>, order: PlaceOrder, remaining: u32)
    requires
        !stop(v, order, remaining),
    ensures
        ({
            let st = step(v, order, remaining);
            let rest = cross_spec(st.1, order, st.2);
            &&& st.2 < remaining
            &&& cross_spec(v, order, remaining) == (st.0 + rest.0, rest.1, rest.2, st.3 + rest.3)
        }),
{
}

} // verus!

verus! {

/// A queue reads only the order data of its records.
pub proof fn lemma_queue_view_frame(n0: Seq<OrderNode>, n1: Seq<OrderNode>, f: Seq<ArenaIndex>)
    requires
        forall|k: int| 0 <= k < f.len() ==> n1[#[trigger] f[k] as int].same_payload(n0[f[k] as int]),
    ensures
        queue_view(n1, f) == queue_view(n0, f),
{
    assert forall|k: int| 0 <= k < f.len() implies queue_view(n1, f)[k] == queue_view(n0, f)[k] by {
        assert(n1[f[k] as int].same_payload(n0[f[k] as int]));
    }
    assert(queue_view(n1, f) =~= queue_view(n0, f));
}

/// A side's view reads only the levels of that side and the order data of
/// their records.
pub proof fn lemma_side_view_frame(b0: &OrderBook, a0: &Arena, b1: &OrderBook, a1: &Arena, side: Side, idx: ArenaIndex)
    requires
        b0.wf(a0),
        b1.levels(side) == b0.levels(side),
        forall|sd: Side, p: u64, k: int|
            b0.levels(sd).contains_key(p) && 0 <= k < b0.levels(sd)[p].fifo().len() && sd == side
                ==> #[trigger] b0.levels(sd)[p].fifo()[k] != idx,
        a1.spec_nodes().len() == a0.spec_nodes().len(),
        forall|j: int| 0 <= j < a0.spec_nodes().len() && j != idx ==> (#[trigger] a1.spec_nodes()[j]).same_payload(a0.spec_nodes()[j]),
    ensures
        side_view(b1, a1, side) == side_view(b0, a0, side),
{
    assert forall|p: u64| #[trigger] b0.levels(side).contains_key(p) implies queue_view(a1.spec_nodes(), b0.levels(side)[p].fifo())
        == queue_view(a0.spec_nodes(), b0.levels(side)[p].fifo()) by {
        let f = b0.levels(side)[p].fifo();
        assert(b0.level_ok(a0, side, p));
        assert forall|k: int| 0 <= k < f.len() implies a1.spec_nodes()[#[trigger] f[k] as int].same_payload(a0.spec_nodes()[f[k] as int]) by {
            assert(f[k] != idx);
        }
        lemma_queue_view_frame(a0.spec_nodes(), a1.spec_nodes(), f);
    }
    assert(side_view(b1, a1, side) =~= side_view(b0, a0, side));
}

} // verus!

verus! {

/// One fill at the best opposite level, as `fill_head` performs it, is one
/// `step` of the sweep model.
#[verifier::rlimit(100)]
#[verifier::spinoff_prover]
pub proof fn lemma_fill_step(
    b0: &OrderBook,
    a0: &Arena,
    b1: &OrderBook,
    a1: &Arena,
    order: PlaceOrder,
    price: u64,
    remaining: u32,
    traded: u32,
)
    requires
        b0.wf(a0),
        b1.wf(a1),
        b0.spec_best(order.side.spec_opposite()) == Some(price),
        b0.levels(order.side.spec_opposite()).contains_key(price),
        crosses(order.side, order.price, price),
        remaining > 0,
        ({
            let opp = order.side.spec_opposite();
            let f0 = b0.levels(opp)[price].fifo();
            let idx = f0[0];
            let head = a0.spec_nodes()[idx as int];
            &&& traded == (if remaining < head.qty { remaining } else { head.qty })
            &&& a1.spec_nodes().len() == a0.spec_nodes().len()
            &&& forall|j: int|
                0 <= j < a0.spec_nodes().len() && j != idx ==> (#[trigger] a1.spec_nodes()[j]).same_payload(a0.spec_nodes()[j])
            &&& traded < head.qty ==> {
                &&& a1.spec_nodes()[idx as int].qty == head.qty - traded
                &&& a1.spec_nodes()[idx as int].order_id == head.order_id
                &&& a1.spec_nodes()[idx as int].user_id == head.user_id
                &&& b1.levels(opp) == b0.levels(opp).insert(price, b1.levels(opp)[price])
                &&& b1.levels(opp)[price].fifo() == f0
            }
            &&& (traded == head.qty && f0.len() == 1) ==> b1.levels(opp) == b0.levels(opp).remove(price)
            &&& (traded == head.qty && f0.len() > 1) ==> {
                &&& b1.levels(opp) == b0.levels(opp).insert(price, b1.levels(opp)[price])
                &&& b1.levels(opp)[price].fifo() == f0.drop_first()
            }
        }),
    ensures
        ({
            let opp = order.side.spec_opposite();
            let v0 = side_view(b0, a0, opp);
            let st = step(v0, order, remaining);
            let head = a0.spec_nodes()[b0.levels(opp)[price].fifo()[0] as int];
            let depth = b1.spec_depth(opp, price);
            &&& !stop(v0, order, remaining)
            &&& side_view(b1, a1, opp) == st.1
            &&& st.2 == remaining - traded
            &&& st.0 == seq![
                OutputEvent::Trade(
                    TradeEvent {
                        price,
                        qty: traded,
                        maker_order_id: head.order_id,
                        taker_order_id: order.order_id,
                        maker_user_id: head.user_id,
                        taker_user_id: order.user_id,
                        taker_side: order.side,
                    },
                ),
                OutputEvent::BookDelta(BookUpdate { side: opp, price, new_qty: depth.0, new_count: depth.1 }),
            ]
            &&& st.3 == (if traded == head.qty { set![head.order_id] } else { Set::empty() })
        }),
{
    let opp = order.side.spec_opposite();
    let v0 = side_view(b0, a0, opp);
    let l0 = b0.levels(opp)[price];
    let f0 = l0.fifo();
    let idx = f0[0];
    let head = a0.spec_nodes()[idx as int];
    let n0 = a0.spec_nodes();
    let n1 = a1.spec_nodes();
    lemma_best_key(b0, order.side, price);
    assert(v0.dom() =~= b0.levels(opp).dom());
    assert(b0.level_ok(a0, opp, price));
    assert(b0.entry_ok(a0, opp, price, f0[0]));
    assert(v0.dom().contains(price));
    assert(v0.dom().len() > 0) by {
        assert(v0.dom().finite());
        if v0.dom().len() == 0 {
            v0.dom().lemma_len0_is_empty();
        }
    }
    assert(v0[price][0] == maker_of(head));
    let st = step(v0, order, remaining);
    // Records queued elsewhere are not the filled one.
    assert forall|sd: Side, p: u64, k: int|
        b0.levels(sd).contains_key(p) && 0 <= k < b0.levels(sd)[p].fifo().len() && !(sd == opp && p == price)
            implies #[trigger] b0.levels(sd)[p].fifo()[k] != idx by {
        assert(b0.level_ok(a0, sd, p));
        assert(b0.entry_ok(a0, sd, p, b0.levels(sd)[p].fifo()[k]));
    }
    let q = v0[price];
    let t = traded;
    let nq = if t == head.qty { q.drop_first() } else { q.update(0, (head.order_id, head.user_id, (head.qty - t) as u32)) };
    let v1 = side_view(b1, a1, opp);
    // The filled level.
    if t == head.qty && f0.len() == 1 {
        assert(nq.len() == 0);
    } else {
        let l1 = b1.levels(opp)[price];
        assert(b1.levels(opp).contains_key(price));
        assert(b1.level_ok(a1, opp, price));
        if t == head.qty {
            assert forall|k: int| 0 <= k < l1.fifo().len() implies queue_view(n1, l1.fifo())[k] == nq[k] by {
                assert(l1.fifo()[k] == f0[k + 1]);
                assert(f0[k + 1] != f0[0]);
            }
        } else {
            assert forall|k: int| 0 <= k < l1.fifo().len() implies queue_view(n1, l1.fifo())[k] == nq[k] by {
                if k > 0 {
                    assert(f0[k] != f0[0]);
                }
            }
        }
        assert(queue_view(n1, l1.fifo()) =~= nq);
        lemma_queue_qty(n1, l1.fifo());
    }
    assert forall|p: u64| #[trigger] v1.dom().contains(p) && p != price implies v1[p] == v0[p] by {
        let f = b0.levels(opp)[p].fifo();
        assert(b1.levels(opp)[p] == b0.levels(opp)[p]);
        assert forall|k: int| 0 <= k < f.len() implies n1[#[trigger] f[k] as int].same_payload(n0[f[k] as int]) by {
            assert(f[k] != idx);
        }
        lemma_queue_view_frame(n0, n1, f);
    }
    assert(v1 =~= st.1);
    assert(st.0 =~= seq![
        OutputEvent::Trade(
            TradeEvent {
                price,
                qty: traded,
                maker_order_id: head.order_id,
                taker_order_id: order.order_id,
                maker_user_id: head.user_id,
                taker_user_id: order.user_id,
                taker_side: order.side,
            },
        ),
        OutputEvent::BookDelta(
            BookUpdate { side: opp, price, new_qty: b1.spec_depth(opp, price).0, new_count: b1.spec_depth(opp, price).1 },
        ),
    ]);
}

} // verus!

verus! {

/// The sweep of `order` from view `v0` with `rq` to go has so far produced
/// `evs`, filled the orders `filled`, and reached view `v` with `rem` to go.
#[verifier::opaque]
pub open spec fn sweep_so_far(
    v0: Map<u64, Seq<(u64, u64, u32)>>,
    order: PlaceOrder,
    rq: u32,
    v: Map<u64, Seq<(u64, u64, u32)>>,
    rem: u32,
    evs: Seq<OutputEvent>,
    filled: Set<u64>,
) -> bool {
    let all = cross_spec(v0, order, rq);
    let cs = cross_spec(v, order, rem);
    all == (evs + cs.0, cs.1, cs.2, filled + cs.3)
}

/// A sweep that has not started.
pub proof fn lemma_sweep_start(v: Map<u64, Seq<(u64, u64, u32)>>, order: PlaceOrder, rem: u32)
    ensures
        sweep_so_far(v, order, rem, v, rem, Seq::empty(), Set::empty()),
{
    reveal(sweep_so_far);
    let cs = cross_spec(v, order, rem);
    assert(Seq::<OutputEvent>::empty() + cs.0 =~= cs.0);
    assert(Set::<u64>::empty() + cs.3 =~= cs.3);
}

/// A sweep that takes one more step.
pub proof fn lemma_sweep_advance(
    v0: Map<u64, Seq<(u64, u64, u32)>>,
    order: PlaceOrder,
    rq: u32,
    v: Map<u64, Seq<(u64, u64, u32)>>,
    rem: u32,
    evs: Seq<OutputEvent>,
    filled: Set<u64>,
)
    requires
        sweep_so_far(v0, order, rq, v, rem, evs, filled),
        !stop(v, order, rem),
    ensures
        ({
            let st = step(v, order, rem);
            sweep_so_far(v0, order, rq, st.1, st.2, evs + st.0, filled + st.3)
        }),
{
    reveal(sweep_so_far);
    lemma_cross_unfold(v, order, rem);
    let st = step(v, order, rem);
    let rest = cross_spec(st.1, order, st.2);
    assert(evs + (st.0 + rest.0) =~= (evs + st.0) + rest.0);
    assert(filled + (st.3 + rest.3) =~= (filled + st.3) + rest.3);
}

/// A sweep that has stopped is complete.
pub proof fn lemma_sweep_done(
    v0: Map<u64, Seq<(u64, u64, u32)>>,
    order: PlaceOrder,
    rq: u32,
    v: Map<u64, Seq<(u64, u64, u32)>>,
    rem: u32,
    evs: Seq<OutputEvent>,
    filled: Set<u64>,
)
    requires
        sweep_so_far(v0, order, rq, v, rem, evs, filled),
        stop(v, order, rem),
    ensures
        cross_spec(v0, order, rq) == (evs, v, rem, filled),
{
    reveal(sweep_so_far);
    assert(evs + Seq::<OutputEvent>::empty() =~= evs);
    assert(filled + Set::<u64>::empty() =~= filled);
}

/// Two sweep stretches in a row make one.
pub proof fn lemma_sweep_chain(
    v0: Map<u64, Seq<(u64, u64, u32)>>,
    order: PlaceOrder,
    rq: u32,
    v1: Map<u64, Seq<(u64, u64, u32)>>,
    r1: u32,
    e1: Seq<OutputEvent>,
    f1: Set<u64>,
    v2: Map<u64, Seq<(u64, u64, u32)>>,
    r2: u32,
    e2: Seq<OutputEvent>,
    f2: Set<u64>,
)
    requires
        sweep_so_far(v0, order, rq, v1, r1, e1, f1),
        sweep_so_far(v1, order, r1, v2, r2, e2, f2),
    ensures
        sweep_so_far(v0, order, rq, v2, r2, e1 + e2, f1 + f2),
{
    reveal(sweep_so_far);
    let cs = cross_spec(v2, order, r2);
    assert(e1 + (e2 + cs.0) =~= (e1 + e2) + cs.0);
    assert(f1 + (f2 + cs.3) =~= (f1 + f2) + cs.3);
}

/// The best price stays where it was while its level remains and the side
/// only loses levels.
pub proof fn lemma_best_kept(b0: &OrderBook, b1: &OrderBook, side: Side, p: u64)
    requires
        b0.best_ok(),
        b1.best_ok(),
        b0.spec_best(side) == Some(p),
        b1.levels(side).dom().subset_of(b0.levels(side).dom()),
        b1.levels(side).contains_key(p),
    ensures
        b1.spec_best(side) == Some(p),
{
    let d = b1.levels(side).dom();
    if side == Side::Bid {
        let c = b1.spec_best_bid().unwrap();
        assert(d.contains(c));
        assert(b0.levels(side).dom().contains(c));
    } else {
        let c = b1.spec_best_ask().unwrap();
        assert(d.contains(c));
        assert(b0.levels(side).dom().contains(c));
    }
}

} // verus!

verus! {

/// Price `a` is no worse for the taker than price `b`: for a bid taker the
/// lower ask, for an ask taker the higher bid.
pub open spec fn price_before(side: Side, a: u64, b: u64) -> bool {
    match side {
        Side::Bid => a <= b,
        Side::Ask => b <= a,
    }
}

/// Trades among `events` come best price first for a taker of `side`.
pub open spec fn trades_in_price_order(side: Side, events: Seq<OutputEvent>) -> bool {
    forall|i: int, j: int|
        0 <= i < j < events.len() && (#[trigger] events[i]) is Trade && (#[trigger] events[j]) is Trade ==> price_before(
            side,
            events[i]->Trade_0.price,
            events[j]->Trade_0.price,
        )
}

/// A finite, non-empty set of prices has a best one.
pub proof fn lemma_best_key_exists(side: Side, keys: Set<u64>)
    requires
        keys.finite(),
        keys.len() > 0,
    ensures
        keys.contains(best_key(side, keys)),
        forall|q: u64| #[trigger] keys.contains(q) ==> price_before(side, best_key(side, keys), q),
    decreases keys.len(),
{
    let x = keys.choose();
    assert(keys.contains(x)) by {
        if !keys.contains(x) {
            keys.lemma_len0_is_empty();
        }
    }
    let m: u64 = if keys.remove(x).len() == 0 {
        x
    } else {
        lemma_best_key_exists(side, keys.remove(x));
        let y = best_key(side, keys.remove(x));
        if price_before(side, x, y) { x } else { y }
    };
    assert forall|q: u64| #[trigger] keys.contains(q) implies price_before(side, m, q) by {
        if q != x {
            assert(keys.remove(x).contains(q));
            if keys.remove(x).len() == 0 {
                keys.remove(x).lemma_len0_is_empty();
            }
        }
    }
    match side {
        Side::Bid => {
            assert(keys.contains(m) && forall|q: u64| #[trigger] keys.contains(q) ==> m <= q);
        },
        Side::Ask => {
            assert(keys.contains(m) && forall|q: u64| #[trigger] keys.contains(q) ==> q <= m);
        },
    }
}

/// The sweep trades at prices of its view, never better than the view's
/// best, and best price first.
#[verifier::spinoff_prover]
pub proof fn lemma_sweep_prices(v: Map<u64, Seq<(u64, u64, u32)>>, order: PlaceOrder, rem: u32)
    requires
        v.dom().finite(),
    ensures
        ({
            let evs = cross_spec(v, order, rem).0;
            &&& forall|i: int|
                0 <= i < evs.len() && (#[trigger] evs[i]) is Trade ==> v.dom().contains(evs[i]->Trade_0.price)
            &&& trades_in_price_order(order.side, evs)
        }),
    decreases rem,
{
    if !stop(v, order, rem) {
        let st = step(v, order, rem);
        lemma_cross_unfold(v, order, rem);
        let p = best_key(order.side, v.dom());
        lemma_best_key_exists(order.side, v.dom());
        assert(st.1.dom().subset_of(v.dom()));
        lemma_sweep_prices(st.1, order, st.2);
        let rest = cross_spec(st.1, order, st.2).0;
        let evs = st.0 + rest;
        assert(evs == cross_spec(v, order, rem).0);
        assert forall|i: int| 0 <= i < evs.len() && (#[trigger] evs[i]) is Trade implies v.dom().contains(evs[i]->Trade_0.price)
            && price_before(order.side, p, evs[i]->Trade_0.price) by {
            if i >= 2 {
                assert(evs[i] == rest[i - 2]);
            }
        }
        assert forall|i: int, j: int|
            0 <= i < j < evs.len() && (#[trigger] evs[i]) is Trade && (#[trigger] evs[j]) is Trade implies price_before(
            order.side,
            evs[i]->Trade_0.price,
            evs[j]->Trade_0.price,
        ) by {
            if i >= 2 {
                assert(evs[i] == rest[i - 2]);
                assert(evs[j] == rest[j - 2]);
            } else {
                assert(i == 0);
                assert(evs[j] is Trade && price_before(order.side, p, evs[j]->Trade_0.price));
            }
        }
    }
}

} // verus!
