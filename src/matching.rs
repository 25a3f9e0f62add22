//! Price-time priority matching of incoming orders against the book.
use crate::arena::{Arena, ArenaIndex, NULL_INDEX};
use crate::command::{
    BookUpdate, CancelOrder, OrderAccepted, OrderCanceled, OrderRejected, OrderType, OutputEvent,
    PlaceOrder, RejectReason, Side, TradeEvent,
};
use crate::liquidity::{
    can_cross, crossable, crosses, crossing_qty, fok_short, lemma_crossable, lemma_crossable_step,
    lemma_crossing_qty_nonneg, lemma_no_cross_no_liquidity, lemma_prices_listed, listed,
};
use crate::sweep::{
    cross_spec, lemma_sweep_prices, price_before, trades_in_price_order,
    lemma_best_kept, lemma_best_key, lemma_fill_step, lemma_sweep_chain, lemma_sweep_done, lemma_side_view_frame, lemma_sweep_advance, lemma_sweep_start, side_view, step, stop,
    sweep_so_far,
};
use crate::order_book::{is_max_key, is_min_key, OrderBook, OrderInfo};
use vstd::prelude::*;

verus! {

/// The best bid is below the best ask whenever both exist.
pub open spec fn not_crossed(book: &OrderBook) -> bool {
    match (book.spec_best_bid(), book.spec_best_ask()) {
        (Some(b), Some(a)) => b < a,
        _ => true,
    }
}

/// The best bid does not rise and the best ask does not fall when both
/// sides only lose levels.
pub proof fn lemma_shrink_not_crossed(b0: &OrderBook, b1: &OrderBook)
    requires
        b0.best_ok(),
        b1.best_ok(),
        not_crossed(b0),
        b1.levels(Side::Bid).dom().subset_of(b0.levels(Side::Bid).dom()),
        b1.levels(Side::Ask).dom().subset_of(b0.levels(Side::Ask).dom()),
    ensures
        not_crossed(b1),
{
    if b1.spec_best_bid() is Some && b1.spec_best_ask() is Some {
        let b = b1.spec_best_bid().unwrap();
        let a = b1.spec_best_ask().unwrap();
        assert(b0.levels(Side::Bid).dom().contains(b));
        assert(b0.levels(Side::Ask).dom().contains(a));
    }
}

/// The sum of the trade quantities among `events`.
pub open spec fn traded_qty(events: Seq<OutputEvent>) -> int
    decreases events.len(),
{
    if events.len() == 0 {
        0
    } else {
        traded_qty(events.drop_last()) + match events.last() {
            OutputEvent::Trade(t) => t.qty as int,
            _ => 0,
        }
    }
}

/// The traded quantity of two event lists adds up.
pub proof fn lemma_traded_qty_append(s0: Seq<OutputEvent>, s1: Seq<OutputEvent>)
    ensures
        traded_qty(s0 + s1) == traded_qty(s0) + traded_qty(s1),
    decreases s1.len(),
{
    if s1.len() == 0 {
        assert(s0 + s1 =~= s0);
    } else {
        assert((s0 + s1).drop_last() =~= s0 + s1.drop_last());
        lemma_traded_qty_append(s0, s1.drop_last());
    }
}

/// A trade of incoming `order`, at a price it crosses, for a positive
/// quantity.
pub open spec fn taker_trade(order: PlaceOrder, t: TradeEvent) -> bool {
    &&& t.taker_order_id == order.order_id
    &&& t.taker_user_id == order.user_id
    &&& t.taker_side == order.side
    &&& t.qty > 0
    &&& crosses(order.side, order.price, t.price)
}

/// Every event is a trade of `order` or a change of an opposite level.
pub open spec fn matching_events(order: PlaceOrder, events: Seq<OutputEvent>) -> bool {
    forall|k: int|
        0 <= k < events.len() ==> match #[trigger] events[k] {
            OutputEvent::Trade(t) => taker_trade(order, t),
            OutputEvent::BookDelta(d) => d.side == order.side.spec_opposite() && crosses(order.side, order.price, d.price),
            _ => false,
        }
}

/// Appending one trade with the next queued maker and its level change
/// keeps a level's event segment in order.
proof fn lemma_segment_step(
    taker: PlaceOrder,
    s0: Seq<OutputEvent>,
    t: TradeEvent,
    d: BookUpdate,
    f0: Seq<ArenaIndex>,
    nodes0: Seq<crate::arena::OrderNode>,
    price: u64,
    k: int,
)
    requires
        matching_events(taker, s0),
        s0.len() == 2 * k,
        fifo_trades(s0, f0, nodes0, price, k),
        k < f0.len(),
        taker_trade(taker, t),
        t.price == price,
        t.maker_order_id == nodes0[f0[k] as int].order_id,
        d.side == taker.side.spec_opposite(),
        crosses(taker.side, taker.price, d.price),
    ensures
        ({
            let s1 = s0.push(OutputEvent::Trade(t)).push(OutputEvent::BookDelta(d));
            &&& matching_events(taker, s1)
            &&& traded_qty(s1) == traded_qty(s0) + t.qty
            &&& fifo_trades(s1, f0, nodes0, price, k + 1)
            &&& s1.len() == s0.len() + 2
        }),
{
    let s1 = s0.push(OutputEvent::Trade(t)).push(OutputEvent::BookDelta(d));
    assert(s1.drop_last() =~= s0.push(OutputEvent::Trade(t)));
    assert(s1.drop_last().drop_last() =~= s0);
    assert(traded_qty(s1.drop_last()) == traded_qty(s0) + t.qty);
    assert forall|j: int| 0 <= j < s1.len() implies match #[trigger] s1[j] {
        OutputEvent::Trade(tr) => taker_trade(taker, tr),
        OutputEvent::BookDelta(bd) => bd.side == taker.side.spec_opposite() && crosses(taker.side, taker.price, bd.price),
        _ => false,
    } by {
        if j < s0.len() {
            assert(s1[j] == s0[j]);
        }
    }
    assert forall|i: int| 0 <= i < k + 1 implies match #[trigger] s1[2 * i] {
        OutputEvent::Trade(tr) => tr.maker_order_id == nodes0[f0[i] as int].order_id && tr.price == price,
        _ => false,
    } by {
        if i < k {
            assert(s1[2 * i] == s0[2 * i]);
        }
    }
    assert forall|i: int| 0 <= i < k + 1 implies (#[trigger] s1[2 * i + 1]) is BookDelta by {
        if i < k {
            assert(s1[2 * i + 1] == s0[2 * i + 1]);
        }
    }
}

/// Every other event of `events`, from the first, is a trade at `price`;
/// the first `m` of these trades are with the orders queued in `f`, in
/// queue order, as `nodes` records their ids.
pub open spec fn fifo_trades(
    events: Seq<OutputEvent>,
    f: Seq<ArenaIndex>,
    nodes: Seq<crate::arena::OrderNode>,
    price: u64,
    m: int,
) -> bool {
    &&& 0 <= m <= f.len()
    &&& 2 * m <= events.len()
    &&& forall|i: int|
        0 <= i < m ==> match #[trigger] events[2 * i] {
            OutputEvent::Trade(t) => t.maker_order_id == nodes[f[i] as int].order_id && t.price == price,
            _ => false,
        }
    &&& forall|i: int| 0 <= i < m ==> (#[trigger] events[2 * i + 1]) is BookDelta
}

/// The trades at the best opposite price of `e0` come first among `events`:
/// the first `m` trades, with the oldest `m` orders queued there in arrival
/// order; no later event is a trade at that price.
pub open spec fn fifo_at_best(e0: &MatchingEngine, order: PlaceOrder, events: Seq<OutputEvent>, m: int) -> bool {
    match e0.book.spec_best(order.side.spec_opposite()) {
        Some(p) => {
            &&& 1 <= m
            &&& fifo_trades(events, e0.book.levels(order.side.spec_opposite())[p].fifo(), e0.arena.spec_nodes(), p, m)
            &&& forall|k: int|
                2 * m <= k < events.len() ==> match #[trigger] events[k] {
                    OutputEvent::Trade(t) => t.price != p,
                    _ => true,
                }
        },
        None => false,
    }
}

/// The rejection event for `order_id`.
pub open spec fn rejection(order_id: u64, reason: RejectReason) -> Seq<OutputEvent> {
    seq![OutputEvent::Rejected(OrderRejected { order_id, reason })]
}

/// `n1` has the records of `n0`, with the same order data, except perhaps
/// at the indices in `changed`.
pub open spec fn records_kept(n0: Seq<crate::arena::OrderNode>, n1: Seq<crate::arena::OrderNode>, changed: Set<ArenaIndex>) -> bool {
    &&& n1.len() == n0.len()
    &&& forall|j: int| 0 <= j < n0.len() && !changed.contains(j as ArenaIndex) ==> (#[trigger] n1[j]).same_payload(n0[j])
}

/// One fill by `fill_head`, taking `e0` to `e1` and `ev0` to `ev1`: one
/// `step` of the sweep model on the maker side, the locator losing the
/// filled order, the taker's side, the capacity and the room kept.
#[verifier::opaque]
pub open spec fn fill_model(
    e0: MatchingEngine,
    e1: MatchingEngine,
    ev0: Seq<OutputEvent>,
    ev1: Seq<OutputEvent>,
    taker: PlaceOrder,
    maker_side: Side,
    remaining: u32,
    traded: u32,
) -> bool {
    let v0 = side_view(&e0.book, &e0.arena, maker_side);
    let st = step(v0, taker, remaining);
    &&& !stop(v0, taker, remaining)
    &&& ev1 == ev0 + st.0
    &&& side_view(&e1.book, &e1.arena, maker_side) == st.1
    &&& st.2 == remaining - traded
    &&& e1.book.locator() == e0.book.locator().remove_keys(st.3)
    &&& side_view(&e1.book, &e1.arena, taker.side) == side_view(&e0.book, &e0.arena, taker.side)
    &&& e1.arena.spec_capacity() == e0.arena.spec_capacity()
    &&& st.3.finite()
    &&& forall|id: u64| #[trigger] st.3.contains(id) ==> e0.book.locator().contains_key(id)
    &&& e1.arena.spec_free().len() == e0.arena.spec_free().len() + st.3.len()
}

/// `e1` is `e0` after the sweep of `order` with `rq` to go: `evs` are the
/// sweep's events, the opposite side is what the sweep leaves, `r` remains,
/// the filled orders are gone from the locator, and the order's own side,
/// the capacity and the room are kept.
pub open spec fn sweep_model(e0: MatchingEngine, e1: MatchingEngine, order: PlaceOrder, rq: u32, r: u32, evs: Seq<OutputEvent>) -> bool {
    let opp = order.side.spec_opposite();
    let cs = cross_spec(side_view(&e0.book, &e0.arena, opp), order, rq);
    &&& evs == cs.0
    &&& side_view(&e1.book, &e1.arena, opp) == cs.1
    &&& r == cs.2
    &&& e1.book.locator() == e0.book.locator().remove_keys(cs.3)
    &&& side_view(&e1.book, &e1.arena, order.side) == side_view(&e0.book, &e0.arena, order.side)
    &&& e1.arena.spec_capacity() == e0.arena.spec_capacity()
    &&& e1.arena.spec_free().len() == e0.arena.spec_free().len() + cs.3.len()
}

/// Placing `order` took `e0` through `em`, the book right after the sweep
/// of the opposite side, to `e1`: the events are the sweep's, then what
/// remains of a limit order rests, or is refused with `ArenaFull` exactly
/// when `em` has no free record; otherwise nothing follows the sweep.
pub open spec fn placed_via(e0: &MatchingEngine, em: MatchingEngine, e1: &MatchingEngine, order: PlaceOrder, events: Seq<OutputEvent>) -> bool {
    let cs = cross_spec(side_view(&e0.book, &e0.arena, order.side.spec_opposite()), order, order.qty);
    let n = cs.0.len() as int;
    let rem = cs.2;
    let tail = events.subrange(n, events.len() as int);
    &&& em.wf()
    &&& n <= events.len()
    &&& sweep_model(*e0, em, order, order.qty, rem, events.subrange(0, n))
    &&& (rem == 0 || order.order_type != OrderType::Limit) ==> events.len() == n && *e1 == em
    &&& (rem > 0 && order.order_type == OrderType::Limit) ==> if em.arena.spec_free().len() == 0 {
        tail == rejection(order.order_id, RejectReason::ArenaFull) && *e1 == em
    } else {
        tail == rest_events(e1, order, rem) && rested(&em, e1, order, rem)
    }
}

/// The events that report `order` resting with `qty` in book state `e1`.
pub open spec fn rest_events(e1: &MatchingEngine, order: PlaceOrder, qty: u32) -> Seq<OutputEvent> {
    let depth = e1.book.spec_depth(order.side, order.price);
    seq![
        OutputEvent::Accepted(OrderAccepted { order_id: order.order_id, price: order.price, qty, side: order.side }),
        OutputEvent::BookDelta(BookUpdate { side: order.side, price: order.price, new_qty: depth.0, new_count: depth.1 }),
    ]
}

/// `e1` is `e0` with `qty` of `order` resting in the first free record,
/// at the tail of its level.
pub open spec fn rested(e0: &MatchingEngine, e1: &MatchingEngine, order: PlaceOrder, qty: u32) -> bool {
    let side = order.side;
    let price = order.price;
    let l0 = e0.book.level_or_empty(side, price);
    let l1 = e1.book.levels(side)[price];
    let i = e0.arena.spec_free()[0];
    &&& e1.book.locator() == e0.book.locator().insert(
        order.order_id,
        OrderInfo { arena_index: i, side, price, user_id: order.user_id },
    )
    &&& e1.book.levels(side) == e0.book.levels(side).insert(price, l1)
    &&& e1.book.levels(side.spec_opposite()) == e0.book.levels(side.spec_opposite())
    &&& l1.fifo() == l0.fifo().push(i)
    &&& l1.count == l0.count + 1
    &&& l1.total_qty == l0.total_qty + qty
    &&& e1.arena.spec_nodes()[i as int].qty == qty
    &&& e1.arena.spec_nodes()[i as int].order_id == order.order_id
    &&& e1.arena.spec_nodes()[i as int].user_id == order.user_id
    &&& e1.arena.spec_nodes()[i as int].price == order.price
    &&& e1.book.spec_best_bid() == (if side == Side::Bid {
        crate::order_book::best_bid_after_add(e0.book.spec_best_bid(), price)
    } else {
        e0.book.spec_best_bid()
    })
    &&& e1.book.spec_best_ask() == (if side == Side::Ask {
        crate::order_book::best_ask_after_add(e0.book.spec_best_ask(), price)
    } else {
        e0.book.spec_best_ask()
    })
    &&& e1.arena.spec_free() == e0.arena.spec_free().drop_first()
    &&& e1.arena.spec_allocated() == e0.arena.spec_allocated() + 1
    &&& e1.arena.spec_capacity() == e0.arena.spec_capacity()
    &&& records_kept(e0.arena.spec_nodes(), e1.arena.spec_nodes(), set![i])
}

/// The first `n` events match `order` against the book of `e0`, using up
/// that much crossable quantity; what they leave unfilled rests (Limit),
/// is refused for want of room, or is dropped, leaving the order's own side
/// as it was.
pub open spec fn place_shape(e0: &MatchingEngine, e1: &MatchingEngine, order: PlaceOrder, events: Seq<OutputEvent>, n: int) -> bool {
    let traded = traded_qty(events.subrange(0, n));
    let rem = order.qty - traded;
    let tail = events.subrange(n, events.len() as int);
    &&& 0 <= n <= events.len()
    &&& matching_events(order, events.subrange(0, n))
    &&& 0 <= traded <= order.qty
    &&& rem > 0 ==> !can_cross(&e1.book, order.side, order.price)
    &&& (rem == 0 || order.order_type != OrderType::Limit) ==> tail.len() == 0 && !e1.book.locator().contains_key(order.order_id)
        && e1.book.levels(order.side) == e0.book.levels(order.side)
    &&& crossable(&e1.book, order.side, order.price) == crossable(&e0.book, order.side, order.price) - traded
    &&& (rem > 0 && order.order_type == OrderType::Limit) ==> {
        ||| tail == rejection(order.order_id, RejectReason::ArenaFull) && !e1.book.locator().contains_key(order.order_id)
            && e1.book.levels(order.side) == e0.book.levels(order.side)
        ||| {
            &&& tail == rest_events(e1, order, rem as u32)
            &&& e1.book.locator().contains_key(order.order_id)
            &&& e1.book.locator()[order.order_id].side == order.side
            &&& e1.book.locator()[order.order_id].price == order.price
        }
    }
}

/// One step of the state hash: xor in `w`, then multiply by the FNV prime
/// modulo 2^64.
pub open spec fn mix(h: u64, w: u64) -> u64 {
    (((h ^ w) as int * 1099511628211) % 18446744073709551616) as u64
}

/// Presence tag and value of an optional price.
pub open spec fn opt_words(p: Option<u64>) -> (u64, u64) {
    match p {
        Some(v) => (1u64, v),
        None => (0u64, 0u64),
    }
}

/// The state hash of a book with these best prices, resting-order count and
/// allocated-record count.
pub open spec fn state_hash_of(best_bid: Option<u64>, best_ask: Option<u64>, order_count: u64, allocated: u64) -> u64 {
    let h = mix(14695981039346656037u64, opt_words(best_bid).0);
    let h = mix(h, opt_words(best_bid).1);
    let h = mix(h, opt_words(best_ask).0);
    let h = mix(h, opt_words(best_ask).1);
    let h = mix(h, order_count);
    mix(h, allocated)
}

/// One step of the state hash.
fn mix_word(h: u64, w: u64) -> (r: u64)
    ensures
        r == mix(h, w),
{
    let x = h ^ w;
    assert((x as int) * 1099511628211 < 340282366920938463463374607431768211455) by (nonlinear_arith)
        requires
            x < 18446744073709551616,
    ;
    let p: u128 = (x as u128) * 1099511628211u128;
    (p % 18446744073709551616u128) as u64
}

/// Presence tag and value of an optional price.
fn opt_to_words(p: Option<u64>) -> (r: (u64, u64))
    ensures
        r == opt_words(p),
{
    match p {
        Some(v) => (1, v),
        None => (0, 0),
    }
}

/// A summary of one placement: its trades, the level changes, and what
/// rests.
#[derive(Debug)]
pub struct PlaceResult {
    /// The trades, in execution order.
    pub trades: Vec<TradeEvent>,
    /// The level changes, in order.
    pub book_updates: Vec<BookUpdate>,
    /// Whether the order rests in the book.
    pub is_resting: bool,
    /// The resting quantity.
    pub resting_qty: u32,
}

/// The arena and the book that together hold the resting orders.
pub struct MatchingEngine {
    /// The order records.
    pub arena: Arena,
    /// The levels, locator and best prices.
    pub book: OrderBook,
}

impl MatchingEngine {
    /// The book is well-formed over the arena and not crossed.
    pub open spec fn wf(&self) -> bool {
        &&& self.book.wf(&self.arena)
        &&& not_crossed(&self.book)
    }

    /// Both engines hold the same book and the same number of records.
    pub open spec fn unchanged(&self, other: &MatchingEngine) -> bool {
        &&& self.book.same_view(&other.book)
        &&& self.arena.spec_allocated() == other.arena.spec_allocated()
        &&& self.arena.spec_capacity() == other.arena.spec_capacity()
        &&& self.arena.spec_free() == other.arena.spec_free()
        &&& records_kept(other.arena.spec_nodes(), self.arena.spec_nodes(), other.arena.spec_free().to_set())
    }

    /// What cancelling `order_id` did, taking `e0` to `e1` with `events`.
    pub open spec fn cancel_post(e0: &MatchingEngine, e1: &MatchingEngine, order_id: u64, events: Seq<OutputEvent>) -> bool {
        if !e0.book.locator().contains_key(order_id) {
            &&& events == rejection(order_id, RejectReason::OrderNotFound)
            &&& e1.unchanged(e0)
        } else {
            let info = e0.book.locator()[order_id];
            let l0 = e0.book.levels(info.side)[info.price];
            let l1 = e1.book.levels(info.side)[info.price];
            let qty = e0.arena.spec_nodes()[info.arena_index as int].qty;
            let depth = e1.book.spec_depth(info.side, info.price);
            &&& events == seq![
                OutputEvent::Canceled(OrderCanceled { order_id, canceled_qty: qty }),
                OutputEvent::BookDelta(BookUpdate { side: info.side, price: info.price, new_qty: depth.0, new_count: depth.1 }),
            ]
            &&& e1.book.locator() == e0.book.locator().remove(order_id)
            &&& e1.book.levels(info.side.spec_opposite()) == e0.book.levels(info.side.spec_opposite())
            &&& e1.book.spec_best(info.side.spec_opposite()) == e0.book.spec_best(info.side.spec_opposite())
            &&& l0.count == 1 ==> e1.book.levels(info.side) == e0.book.levels(info.side).remove(info.price)
            &&& l0.count > 1 ==> {
                &&& e1.book.levels(info.side) == e0.book.levels(info.side).insert(info.price, l1)
                &&& l1.fifo() == l0.fifo().remove(l0.fifo().index_of(info.arena_index))
                &&& l1.count == l0.count - 1
                &&& l1.total_qty == l0.total_qty - qty
                &&& e1.book.spec_best(info.side) == e0.book.spec_best(info.side)
            }
            &&& e1.arena.spec_allocated() + 1 == e0.arena.spec_allocated()
            &&& e1.arena.spec_capacity() == e0.arena.spec_capacity()
            &&& e1.arena.spec_free() == seq![info.arena_index].add(e0.arena.spec_free())
            &&& records_kept(e0.arena.spec_nodes(), e1.arena.spec_nodes(), set![info.arena_index])
        }
    }

    /// What placing `order` did, taking `e0` to `e1` with `events`.
    pub open spec fn place_post(e0: &MatchingEngine, e1: &MatchingEngine, order: PlaceOrder, events: Seq<OutputEvent>) -> bool {
        let fresh = order.qty > 0 && !e0.book.locator().contains_key(order.order_id);
        let short = order.order_type == OrderType::FOK && fok_short(&e0.book, order.side, order.price, order.qty);
        &&& order.qty == 0 ==> events == rejection(order.order_id, RejectReason::InvalidQuantity) && e1.unchanged(e0)
        &&& order.qty > 0 && e0.book.locator().contains_key(order.order_id) ==> events == rejection(
            order.order_id,
            RejectReason::DuplicateOrderId,
        ) && e1.unchanged(e0)
        &&& fresh && short ==> events == rejection(order.order_id, RejectReason::InsufficientLiquidity) && e1.unchanged(e0)
        &&& fresh && !short ==> exists|em: MatchingEngine| #[trigger] placed_via(e0, em, e1, order, events)
        &&& trades_in_price_order(order.side, events)
        &&& fresh && !short ==> exists|n: int|
            #![trigger place_shape(e0, e1, order, events, n)]
            place_shape(e0, e1, order, events, n) && traded_qty(events.subrange(0, n)) == (if crossable(
                &e0.book,
                order.side,
                order.price,
            ) < order.qty {
                crossable(&e0.book, order.side, order.price)
            } else {
                order.qty as int
            })
        &&& fresh && !short && can_cross(&e0.book, order.side, order.price) ==> exists|m: int|
            #[trigger] fifo_at_best(e0, order, events, m)
        &&& fresh && !can_cross(&e0.book, order.side, order.price) && order.order_type == OrderType::IOC ==> events.len() == 0
            && e1.unchanged(e0)
        &&& fresh && !can_cross(&e0.book, order.side, order.price) && order.order_type == OrderType::Limit ==> if e0.arena.spec_free().len()
            == 0 {
            events == rejection(order.order_id, RejectReason::ArenaFull) && e1.unchanged(e0)
        } else {
            events == rest_events(e1, order, order.qty) && rested(e0, e1, order, order.qty)
        }
    }

    /// An engine with room for `capacity` resting orders.
    pub fn new(capacity: u32) -> (r: Self)
        requires
            capacity < NULL_INDEX,
        ensures
            r.wf(),
            r.arena.spec_capacity() == capacity,
            r.arena.spec_allocated() == 0,
            r.book.locator().dom().len() == 0,
            r.book.spec_best_bid() is None,
            r.book.spec_best_ask() is None,
    {
        let arena = Arena::new(capacity);
        let book = OrderBook::with_capacity(1000, capacity as usize);
        proof {
            assert(book.locator().dom() =~= Set::empty());
        }
        MatchingEngine { arena, book }
    }

    /// Cancels resting order `cancel.order_id`: reports its unfilled
    /// quantity and the new state of its level, or `OrderNotFound`.
    #[verifier::rlimit(60)]
    #[verifier::spinoff_prover]
    pub fn process_cancel(&mut self, cancel: CancelOrder) -> (r: Vec<OutputEvent>)
        requires
            old(self).wf(),
        ensures
            final(self).wf(),
            MatchingEngine::cancel_post(old(self), final(self), cancel.order_id, r@),
    {
        let mut events: Vec<OutputEvent> = Vec::new();
        let info = match self.book.get_order(cancel.order_id) {
            Some(info) => *info,
            None => {
                events.push(OutputEvent::Rejected(OrderRejected { order_id: cancel.order_id, reason: RejectReason::OrderNotFound }));
                assert(events@ =~= rejection(cancel.order_id, RejectReason::OrderNotFound));
                return events;
            },
        };
        let ghost e0 = *self;
        proof {
            assert(self.book.locator_entry_ok(&self.arena, cancel.order_id));
            assert(self.book.level_ok(&self.arena, info.side, info.price));
            let f = self.book.levels(info.side)[info.price].fifo();
            let k = choose|k: int| 0 <= k < f.len() && f[k] == info.arena_index;
            assert(self.arena.is_live(f[k]));
        }
        let canceled_qty = self.arena.get(info.arena_index).qty;
        self.book.remove_order(&mut self.arena, cancel.order_id);
        let ghost a1 = self.arena;
        self.arena.free(info.arena_index);
        proof {
            self.book.lemma_arena_change(&a1, &self.arena, info.arena_index);
            lemma_shrink_not_crossed(&e0.book, &self.book);
        }
        events.push(OutputEvent::Canceled(OrderCanceled { order_id: cancel.order_id, canceled_qty }));
        let (new_qty, new_count) = self.book.depth_at(info.side, info.price);
        events.push(OutputEvent::BookDelta(BookUpdate { side: info.side, price: info.price, new_qty, new_count }));
        assert(events@ =~= seq![
            OutputEvent::Canceled(OrderCanceled { order_id: cancel.order_id, canceled_qty }),
            OutputEvent::BookDelta(BookUpdate { side: info.side, price: info.price, new_qty, new_count }),
        ]);
        events
    }

    /// Trades `taker` against the oldest order of the level at `price` on
    /// `maker_side`: emits the trade and the level's new state, and removes
    /// the maker when it is filled. Returns the traded quantity.
    #[verifier::rlimit(100)]
    #[verifier::spinoff_prover]
    fn fill_head(
        &mut self,
        taker: &PlaceOrder,
        price: u64,
        maker_side: Side,
        remaining_qty: u32,
        events: &mut Vec<OutputEvent>,
    ) -> (traded: u32)
        requires
            old(self).wf(),
            remaining_qty > 0,
            maker_side == taker.side.spec_opposite(),
            old(self).book.levels(maker_side).contains_key(price),
            crosses(taker.side, taker.price, price),
            !old(self).book.locator().contains_key(taker.order_id),
            old(self).book.spec_best(maker_side) == Some(price),
        ensures
            final(self).wf(),
            fill_model(*old(self), *final(self), old(events)@, final(events)@, *taker, maker_side, remaining_qty, traded),
            0 < traded <= remaining_qty,
            final(events)@.len() == old(events)@.len() + 2,
            final(events)@.subrange(0, old(events)@.len() as int) == old(events)@,
            match final(events)@[old(events)@.len() as int] {
                OutputEvent::Trade(t) => taker_trade(*taker, t) && t.qty == traded && t.price == price,
                _ => false,
            },
            match final(events)@[old(events)@.len() as int + 1] {
                OutputEvent::BookDelta(d) => d.side == maker_side && d.price == price,
                _ => false,
            },
            !final(self).book.locator().contains_key(taker.order_id),
            final(self).book.levels(taker.side) == old(self).book.levels(taker.side),
            final(self).book.spec_best(taker.side) == old(self).book.spec_best(taker.side),
            final(self).book.levels(maker_side).dom().subset_of(old(self).book.levels(maker_side).dom()),
            crossable(&final(self).book, taker.side, taker.price) == crossable(&old(self).book, taker.side, taker.price) - traded,
            ({
                let f0 = old(self).book.levels(maker_side)[price].fifo();
                let head = old(self).arena.spec_nodes()[f0[0] as int];
                &&& match final(events)@[old(events)@.len() as int] {
                    OutputEvent::Trade(t) => t.maker_order_id == head.order_id && t.maker_user_id == head.user_id,
                    _ => false,
                }
                &&& traded == (if remaining_qty < head.qty { remaining_qty } else { head.qty })
                &&& (traded == head.qty && f0.len() == 1) ==> !final(self).book.levels(maker_side).contains_key(price)
                &&& (traded == head.qty && f0.len() > 1) ==> final(self).book.levels(maker_side).contains_key(price)
                    && final(self).book.levels(maker_side)[price].fifo() == f0.drop_first()
                &&& forall|k: int|
                    1 <= k < f0.len() ==> #[trigger] final(self).arena.spec_nodes()[f0[k] as int].order_id
                        == old(self).arena.spec_nodes()[f0[k] as int].order_id
            }),
    {
        let ghost ev_start = events@;
        let level = *self.book.get_level(maker_side, price).unwrap();
        let ghost b0 = self.book;
        let ghost a0 = self.arena;
        proof {
            assert(self.book.level_ok(&self.arena, maker_side, price));
            assert(self.book.entry_ok(&self.arena, maker_side, price, level.fifo()[0]));
            assert(self.arena.is_live(level.fifo()[0]));
        }
        let maker_idx = level.peek_head();
        let maker = *self.arena.get(maker_idx);
        let trade_qty = if remaining_qty < maker.qty { remaining_qty } else { maker.qty };
        events.push(OutputEvent::Trade(TradeEvent {
            price,
            qty: trade_qty,
            maker_order_id: maker.order_id,
            taker_order_id: taker.order_id,
            maker_user_id: maker.user_id,
            taker_user_id: taker.user_id,
            taker_side: taker.side,
        }));
        if trade_qty == maker.qty {
            self.book.remove_order(&mut self.arena, maker.order_id);
            let ghost a1 = self.arena;
            self.arena.free(maker_idx);
            proof {
                self.book.lemma_arena_change(&a1, &self.arena, maker_idx);
                lemma_shrink_not_crossed(&b0, &self.book);
                let f = level.fifo();
                let info = b0.locator()[maker.order_id];
                assert(info.side == maker_side && info.price == price && info.arena_index == maker_idx);
                assert(level == b0.levels(maker_side)[price]);
                assert(maker_side == taker.side.spec_opposite());
                assert(f.index_of(maker_idx) == 0) by {
                    assert(f[0] == maker_idx);
                }
                assert(f.remove(0) =~= f.drop_first());
                assert forall|k: int| 1 <= k < f.len() implies #[trigger] self.arena.spec_nodes()[f[k] as int].order_id
                    == a0.spec_nodes()[f[k] as int].order_id by {
                    assert(f[k] != f[0]);
                    assert(f[k] < a0.spec_nodes().len());
                }
                if level.count == 1 {
                    assert(f.last() == maker_idx);
                    assert(f.drop_last() =~= Seq::<ArenaIndex>::empty());
                    assert(crate::price_level::sum_qty(a0.spec_nodes(), f.drop_last()) == 0);
                    assert(level.total_qty == crate::price_level::sum_qty(a0.spec_nodes(), f));
                    assert(maker == a0.spec_nodes()[maker_idx as int]);
                    assert(level.total_qty == trade_qty);
                    assert(self.book.levels(maker_side) == b0.levels(maker_side).remove(price));
                } else {
                    assert(self.book.levels(maker_side) == b0.levels(maker_side).insert(price, self.book.levels(maker_side)[price]));
                    assert(self.book.levels(maker_side)[price].total_qty == level.total_qty - trade_qty);
                }
                lemma_crossable_step(&b0, &self.book, taker.side, taker.price, price, trade_qty as int);
            }
        } else {
            self.book.reduce_order_qty(&mut self.arena, maker.order_id, trade_qty);
            proof {
                assert(self.book.levels(maker_side).dom() =~= b0.levels(maker_side).dom());
                let info = b0.locator()[maker.order_id];
                assert(info.side == maker_side && info.price == price && info.arena_index == maker_idx);
                assert(self.book.levels(maker_side) == b0.levels(maker_side).insert(price, self.book.levels(maker_side)[price]));
                crate::price_level::lemma_sum_remove(a0.spec_nodes(), level.fifo(), 0);
                crate::price_level::lemma_sum_bound(a0.spec_nodes(), level.fifo().remove(0));
                assert(level.fifo()[0] == maker_idx);
                assert(level.total_qty >= maker.qty);
                assert(self.book.levels(maker_side)[price].total_qty == level.total_qty - trade_qty);
                lemma_crossable_step(&b0, &self.book, taker.side, taker.price, price, trade_qty as int);
            }
        }
        let (new_qty, new_count) = self.book.depth_at(maker_side, price);
        events.push(OutputEvent::BookDelta(BookUpdate { side: maker_side, price, new_qty, new_count }));
        proof {
            let f0 = level.fifo();
            let n0 = a0.spec_nodes();
            let n1 = self.arena.spec_nodes();
            assert(f0[0] == maker_idx);
            assert forall|j: int| 0 <= j < n0.len() && j != maker_idx implies (#[trigger] n1[j]).same_payload(n0[j]) by {}
            lemma_fill_step(&b0, &a0, &self.book, &self.arena, *taker, price, remaining_qty, trade_qty);
            let st = step(side_view(&b0, &a0, maker_side), *taker, remaining_qty);
            assert(events@ =~= ev_start + st.0);
            if trade_qty == maker.qty {
                assert(self.book.locator() =~= b0.locator().remove_keys(set![maker.order_id]));
            } else {
                assert(self.book.locator() =~= b0.locator().remove_keys(Set::empty()));
            }
            assert forall|sd: Side, p: u64, k: int|
                b0.levels(sd).contains_key(p) && 0 <= k < b0.levels(sd)[p].fifo().len() && sd == taker.side
                    implies #[trigger] b0.levels(sd)[p].fifo()[k] != maker_idx by {
                assert(b0.level_ok(&a0, sd, p));
                assert(b0.entry_ok(&a0, sd, p, b0.levels(sd)[p].fifo()[k]));
            }
            lemma_side_view_frame(&b0, &a0, &self.book, &self.arena, taker.side, maker_idx);
            if trade_qty == maker.qty {
                assert(set![maker.order_id].len() == 1);
                assert(b0.locator().contains_key(maker.order_id));
            } else {
                assert(Set::<u64>::empty().len() == 0);
            }
            reveal(fill_model);
        }
        trade_qty
    }

    /// Matches `taker` against the level at `price` on `maker_side`, head
    /// first, until `remaining_qty` is used up or the level is gone. Returns
    /// what remains.
    #[verifier::rlimit(100)]
    #[verifier::spinoff_prover]
    fn match_at_level(
        &mut self,
        taker: &PlaceOrder,
        price: u64,
        maker_side: Side,
        remaining_qty: u32,
        events: &mut Vec<OutputEvent>,
    ) -> (r: u32)
        requires
            old(self).wf(),
            remaining_qty > 0,
            maker_side == taker.side.spec_opposite(),
            old(self).book.levels(maker_side).contains_key(price),
            crosses(taker.side, taker.price, price),
            !old(self).book.locator().contains_key(taker.order_id),
            old(self).book.spec_best(maker_side) == Some(price),
        ensures
            exists|filled: Set<u64>|
                #[trigger] sweep_so_far(
                    side_view(&old(self).book, &old(self).arena, maker_side),
                    *taker,
                    remaining_qty,
                    side_view(&final(self).book, &final(self).arena, maker_side),
                    r,
                    final(events)@.subrange(old(events)@.len() as int, final(events)@.len() as int),
                    filled,
                ) && final(self).book.locator() == old(self).book.locator().remove_keys(filled) && filled.finite()
                    && final(self).arena.spec_free().len() == old(self).arena.spec_free().len() + filled.len()
                    && forall|id: u64| #[trigger] filled.contains(id) ==> old(self).book.locator().contains_key(id),
            side_view(&final(self).book, &final(self).arena, taker.side) == side_view(&old(self).book, &old(self).arena, taker.side),
            final(self).arena.spec_capacity() == old(self).arena.spec_capacity(),
            final(self).arena.spec_free().len() >= old(self).arena.spec_free().len(),
            final(self).wf(),
            r < remaining_qty,
            final(events)@.len() > old(events)@.len(),
            final(events)@.subrange(0, old(events)@.len() as int) == old(events)@,
            matching_events(*taker, final(events)@.subrange(old(events)@.len() as int, final(events)@.len() as int)),
            traded_qty(final(events)@.subrange(old(events)@.len() as int, final(events)@.len() as int)) == remaining_qty - r,
            r > 0 ==> !final(self).book.levels(maker_side).contains_key(price),
            !final(self).book.locator().contains_key(taker.order_id),
            final(self).book.levels(taker.side) == old(self).book.levels(taker.side),
            final(self).book.spec_best(taker.side) == old(self).book.spec_best(taker.side),
            final(self).book.levels(maker_side).dom().subset_of(old(self).book.levels(maker_side).dom()),
            crossable(&final(self).book, taker.side, taker.price) + (remaining_qty - r) == crossable(
                &old(self).book,
                taker.side,
                taker.price,
            ),
            ({
                let new = final(events)@.subrange(old(events)@.len() as int, final(events)@.len() as int);
                &&& new.len() % 2 == 0
                &&& fifo_trades(
                    new,
                    old(self).book.levels(maker_side)[price].fifo(),
                    old(self).arena.spec_nodes(),
                    price,
                    new.len() as int / 2,
                )
            }),
    {
        let ghost e0 = *self;
        let ghost n0 = events@.len();
        let ghost f0 = e0.book.levels(maker_side)[price].fifo();
        let ghost nodes0 = e0.arena.spec_nodes();
        let mut remaining: u32 = remaining_qty;
        let ghost mut filled: Set<u64> = Set::empty();
        proof {
            lemma_sweep_start(side_view(&e0.book, &e0.arena, maker_side), *taker, remaining_qty);
            assert(events@.subrange(n0 as int, events@.len() as int) =~= Seq::<OutputEvent>::empty());
            assert(e0.book.locator().remove_keys(Set::empty()) =~= e0.book.locator());
            assert(Set::<u64>::empty().len() == 0);
        }
        loop
            invariant
                self.book.levels(maker_side).contains_key(price) ==> self.book.spec_best(maker_side) == Some(price),
                sweep_so_far(
                    side_view(&e0.book, &e0.arena, maker_side),
                    *taker,
                    remaining_qty,
                    side_view(&self.book, &self.arena, maker_side),
                    remaining,
                    events@.subrange(n0 as int, events@.len() as int),
                    filled,
                ),
                self.book.locator() == e0.book.locator().remove_keys(filled),
                filled.finite(),
                self.arena.spec_free().len() == e0.arena.spec_free().len() + filled.len(),
                forall|id: u64| #[trigger] filled.contains(id) ==> e0.book.locator().contains_key(id),
                side_view(&self.book, &self.arena, taker.side) == side_view(&e0.book, &e0.arena, taker.side),
                self.arena.spec_capacity() == e0.arena.spec_capacity(),
                self.arena.spec_free().len() >= e0.arena.spec_free().len(),
                self.wf(),
                remaining <= remaining_qty,
                maker_side == taker.side.spec_opposite(),
                crosses(taker.side, taker.price, price),
                !self.book.locator().contains_key(taker.order_id),
                events@.len() >= n0,
                events@.subrange(0, n0 as int) == old(events)@,
                matching_events(*taker, events@.subrange(n0 as int, events@.len() as int)),
                traded_qty(events@.subrange(n0 as int, events@.len() as int)) + remaining == remaining_qty,
                events@.len() == n0 ==> remaining > 0 && self.book.levels(maker_side).contains_key(price),
                events@.len() > n0 ==> remaining < remaining_qty,
                self.book.levels(taker.side) == e0.book.levels(taker.side),
                self.book.spec_best(taker.side) == e0.book.spec_best(taker.side),
                self.book.levels(maker_side).dom().subset_of(e0.book.levels(maker_side).dom()),
                crossable(&self.book, taker.side, taker.price) + (remaining_qty - remaining) == crossable(
                    &e0.book,
                    taker.side,
                    taker.price,
                ),
                (events@.len() - n0) % 2 == 0,
                fifo_trades(events@.subrange(n0 as int, events@.len() as int), f0, nodes0, price, (events@.len() - n0) as int / 2),
                remaining > 0 && self.book.levels(maker_side).contains_key(price) ==> self.book.levels(maker_side)[price].fifo()
                    == f0.subrange((events@.len() - n0) / 2, f0.len() as int),
                forall|i: int|
                    (events@.len() - n0) / 2 <= i < f0.len() ==> #[trigger] self.arena.spec_nodes()[f0[i] as int].order_id
                        == nodes0[f0[i] as int].order_id,
            ensures
                remaining == 0 || !self.book.levels(maker_side).contains_key(price),
            decreases remaining,
        {
            if remaining == 0 {
                break;
            }
            if self.book.get_level(maker_side, price).is_none() {
                break;
            }
            let ghost ev0 = events@;
            let ghost before = *self;
            let traded = self.fill_head(taker, price, maker_side, remaining, events);
            proof {
                reveal(fill_model);
                let vb = side_view(&before.book, &before.arena, maker_side);
                let st = step(vb, *taker, remaining);
                lemma_sweep_advance(
                    side_view(&e0.book, &e0.arena, maker_side),
                    *taker,
                    remaining_qty,
                    vb,
                    remaining,
                    ev0.subrange(n0 as int, ev0.len() as int),
                    filled,
                );
                assert(events@.subrange(n0 as int, events@.len() as int) =~= ev0.subrange(n0 as int, ev0.len() as int) + st.0);
                assert(e0.book.locator().remove_keys(filled).remove_keys(st.3) =~= e0.book.locator().remove_keys(filled + st.3));
                if self.book.levels(maker_side).contains_key(price) {
                    lemma_best_kept(&before.book, &self.book, maker_side, price);
                }
                assert(filled.disjoint(st.3)) by {
                    assert forall|id: u64| #[trigger] st.3.contains(id) implies !filled.contains(id) by {
                        assert(before.book.locator().contains_key(id));
                    }
                }
                vstd::set_lib::lemma_set_disjoint_lens(filled, st.3);
                filled = filled + st.3;
            }
            remaining = remaining - traded;
            proof {
                let k = (ev0.len() - n0) / 2;
                let cur = before.book.levels(maker_side)[price].fifo();
                assert(f0.subrange(0, f0.len() as int) =~= f0);
                assert(cur == f0.subrange(k, f0.len() as int));
                assert(cur.len() > 0) by {
                    assert(before.book.level_ok(&before.arena, maker_side, price));
                }
                assert(cur[0] == f0[k]);
                let s0 = ev0.subrange(n0 as int, ev0.len() as int);
                let s1 = events@.subrange(n0 as int, events@.len() as int);
                let t = events@[ev0.len() as int]->Trade_0;
                let d = events@[ev0.len() as int + 1]->BookDelta_0;
                assert(s1 =~= s0.push(OutputEvent::Trade(t)).push(OutputEvent::BookDelta(d)));
                lemma_segment_step(*taker, s0, t, d, f0, nodes0, price, k);
                assert(events@.subrange(0, n0 as int) =~= ev0.subrange(0, n0 as int));
                if remaining > 0 && self.book.levels(maker_side).contains_key(price) {
                    assert(self.book.levels(maker_side)[price].fifo() =~= f0.subrange(k + 1, f0.len() as int));
                }
                assert forall|i: int| k + 1 <= i < f0.len() implies #[trigger] self.arena.spec_nodes()[f0[i] as int].order_id
                    == nodes0[f0[i] as int].order_id by {
                    assert(cur[i - k] == f0[i]);
                    assert(self.arena.spec_nodes()[cur[i - k] as int].order_id == before.arena.spec_nodes()[cur[i - k] as int].order_id);
                }
            }
        }
        remaining
    }

    /// Crosses `order` against the opposite side, best level first, while
    /// quantity remains and the best opposite price crosses. Returns what
    /// remains.
    #[verifier::spinoff_prover]
    fn cross_order(&mut self, order: &PlaceOrder, remaining_qty: u32, events: &mut Vec<OutputEvent>) -> (r: u32)
        requires
            old(self).wf(),
            !old(self).book.locator().contains_key(order.order_id),
        ensures
            final(self).wf(),
            r <= remaining_qty,
            sweep_model(
                *old(self),
                *final(self),
                *order,
                remaining_qty,
                r,
                final(events)@.subrange(old(events)@.len() as int, final(events)@.len() as int),
            ),
            final(events)@.subrange(0, old(events)@.len() as int) == old(events)@,
            final(events)@.len() >= old(events)@.len(),
            matching_events(*order, final(events)@.subrange(old(events)@.len() as int, final(events)@.len() as int)),
            traded_qty(final(events)@.subrange(old(events)@.len() as int, final(events)@.len() as int)) == remaining_qty - r,
            r > 0 ==> !can_cross(&final(self).book, order.side, order.price),
            !final(self).book.locator().contains_key(order.order_id),
            final(self).book.levels(order.side) == old(self).book.levels(order.side),
            final(self).book.spec_best(order.side) == old(self).book.spec_best(order.side),
            final(events)@.len() == old(events)@.len() ==> *final(self) == *old(self),
            !can_cross(&old(self).book, order.side, order.price) ==> final(events)@.len() == old(events)@.len(),
            crossable(&final(self).book, order.side, order.price) + (remaining_qty - r) == crossable(
                &old(self).book,
                order.side,
                order.price,
            ),
            r > 0 ==> remaining_qty - r == crossable(&old(self).book, order.side, order.price),
            final(events)@.len() > old(events)@.len() ==> exists|m: int|
                #[trigger] fifo_at_best(
                    old(self),
                    *order,
                    final(events)@.subrange(old(events)@.len() as int, final(events)@.len() as int),
                    m,
                ),
    {
        let ghost e0 = *self;
        let ghost n0 = events@.len();
        let opposite_side = order.side.opposite();
        let mut remaining: u32 = remaining_qty;
        let ghost mut filled: Set<u64> = Set::empty();
        let ghost opp = order.side.spec_opposite();
        proof {
            lemma_sweep_start(side_view(&e0.book, &e0.arena, opp), *order, remaining_qty);
            assert(events@.subrange(n0 as int, events@.len() as int) =~= Seq::<OutputEvent>::empty());
            assert(e0.book.locator().remove_keys(Set::empty()) =~= e0.book.locator());
            assert(Set::<u64>::empty().len() == 0);
        }
        loop
            invariant
                opp == order.side.spec_opposite(),
                sweep_so_far(
                    side_view(&e0.book, &e0.arena, opp),
                    *order,
                    remaining_qty,
                    side_view(&self.book, &self.arena, opp),
                    remaining,
                    events@.subrange(n0 as int, events@.len() as int),
                    filled,
                ),
                self.book.locator() == e0.book.locator().remove_keys(filled),
                filled.finite(),
                self.arena.spec_free().len() == e0.arena.spec_free().len() + filled.len(),
                side_view(&self.book, &self.arena, order.side) == side_view(&e0.book, &e0.arena, order.side),
                self.arena.spec_capacity() == e0.arena.spec_capacity(),
                self.arena.spec_free().len() >= e0.arena.spec_free().len(),
                self.wf(),
                remaining <= remaining_qty,
                opposite_side == order.side.spec_opposite(),
                !self.book.locator().contains_key(order.order_id),
                events@.len() >= n0,
                events@.subrange(0, n0 as int) == old(events)@,
                matching_events(*order, events@.subrange(n0 as int, events@.len() as int)),
                traded_qty(events@.subrange(n0 as int, events@.len() as int)) + remaining == remaining_qty,
                events@.len() == n0 ==> *self == e0,
                self.book.levels(order.side) == e0.book.levels(order.side),
                self.book.spec_best(order.side) == e0.book.spec_best(order.side),
                !can_cross(&e0.book, order.side, order.price) ==> events@.len() == n0,
                crossable(&self.book, order.side, order.price) + (remaining_qty - remaining) == crossable(
                    &e0.book,
                    order.side,
                    order.price,
                ),
                events@.len() > n0 ==> exists|m: int|
                    #[trigger] fifo_at_best(&e0, *order, events@.subrange(n0 as int, events@.len() as int), m),
                match e0.book.spec_best(order.side.spec_opposite()) {
                    Some(p) => events@.len() > n0 && remaining > 0 ==> !self.book.levels(order.side.spec_opposite()).contains_key(p),
                    None => true,
                },
            ensures
                remaining == 0 || !can_cross(&self.book, order.side, order.price),
            decreases remaining,
        {
            if remaining == 0 {
                break;
            }
            let best_opposite = match self.book.best_opposite_price(order.side) {
                Some(price) => price,
                None => {
                    break;
                },
            };
            if !self.prices_cross(order.price, best_opposite, order.side) {
                break;
            }
            proof {
                if order.side == Side::Bid {
                    assert(self.book.levels(Side::Ask).dom().contains(best_opposite));
                } else {
                    assert(self.book.levels(Side::Bid).dom().contains(best_opposite));
                }
            }
            let ghost ev0 = events@;
            let ghost before = *self;
            let ghost rem_before = remaining;
            remaining = self.match_at_level(order, best_opposite, opposite_side, remaining, events);
            proof {
                let f2 = choose|f2: Set<u64>|
                    #[trigger] sweep_so_far(
                        side_view(&before.book, &before.arena, opp),
                        *order,
                        rem_before,
                        side_view(&self.book, &self.arena, opp),
                        remaining,
                        events@.subrange(ev0.len() as int, events@.len() as int),
                        f2,
                    ) && self.book.locator() == before.book.locator().remove_keys(f2) && f2.finite()
                        && self.arena.spec_free().len() == before.arena.spec_free().len() + f2.len()
                        && forall|id: u64| #[trigger] f2.contains(id) ==> before.book.locator().contains_key(id);
                lemma_sweep_chain(
                    side_view(&e0.book, &e0.arena, opp),
                    *order,
                    remaining_qty,
                    side_view(&before.book, &before.arena, opp),
                    rem_before,
                    ev0.subrange(n0 as int, ev0.len() as int),
                    filled,
                    side_view(&self.book, &self.arena, opp),
                    remaining,
                    events@.subrange(ev0.len() as int, events@.len() as int),
                    f2,
                );
                assert(events@.subrange(n0 as int, events@.len() as int) =~= ev0.subrange(n0 as int, ev0.len() as int)
                    + events@.subrange(ev0.len() as int, events@.len() as int));
                assert(e0.book.locator().remove_keys(filled).remove_keys(f2) =~= e0.book.locator().remove_keys(filled + f2));
                assert(filled.disjoint(f2)) by {
                    assert forall|id: u64| #[trigger] f2.contains(id) implies !filled.contains(id) by {
                        assert(before.book.locator().contains_key(id));
                    }
                }
                vstd::set_lib::lemma_set_disjoint_lens(filled, f2);
                filled = filled + f2;
                let s0 = ev0.subrange(n0 as int, ev0.len() as int);
                let s1 = events@.subrange(n0 as int, events@.len() as int);
                let s2 = events@.subrange(ev0.len() as int, events@.len() as int);
                assert(s1 =~= s0 + s2);
                let m2 = s2.len() as int / 2;
                assert(fifo_trades(s2, before.book.levels(opposite_side)[best_opposite].fifo(), before.arena.spec_nodes(), best_opposite, m2));
                if ev0.len() == n0 {
                    assert(s1 =~= s2);
                    assert(fifo_at_best(&e0, *order, s1, m2));
                } else {
                    let m = choose|m: int| #[trigger] fifo_at_best(&e0, *order, s0, m);
                    let p = e0.book.spec_best(order.side.spec_opposite()).unwrap();
                    assert(best_opposite != p);
                    assert forall|k: int| 2 * m <= k < s1.len() implies match #[trigger] s1[k] {
                        OutputEvent::Trade(t) => t.price != p,
                        _ => true,
                    } by {
                        if k < s0.len() {
                            assert(s1[k] == s0[k]);
                        } else {
                            let j = k - s0.len();
                            let i = j / 2;
                            assert(s1[k] == s2[j]);
                            if j % 2 == 0 {
                                assert(j == 2 * i);
                            } else {
                                assert(j == 2 * i + 1);
                            }
                        }
                    }
                    assert forall|i: int| 0 <= i < m implies #[trigger] s1[2 * i] == s0[2 * i] by {}
                    assert forall|i: int| 0 <= i < m implies #[trigger] s1[2 * i + 1] == s0[2 * i + 1] by {}
                    assert(fifo_at_best(&e0, *order, s1, m));
                }
                lemma_traded_qty_append(s0, s2);
                assert(events@.subrange(0, n0 as int) =~= ev0.subrange(0, n0 as int));
                assert forall|k: int| 0 <= k < s1.len() implies match #[trigger] s1[k] {
                    OutputEvent::Trade(t) => taker_trade(*order, t),
                    OutputEvent::BookDelta(d) => d.side == order.side.spec_opposite() && crosses(order.side, order.price, d.price),
                    _ => false,
                } by {
                    if k < s0.len() {
                        assert(s1[k] == s0[k]);
                    } else {
                        assert(s1[k] == s2[k - s0.len()]);
                    }
                }
            }
        }
        proof {
            if remaining > 0 {
                lemma_no_cross_no_liquidity(&self.book, order.side, order.price);
            }
            let v = side_view(&self.book, &self.arena, opp);
            assert(v.dom() =~= self.book.levels(opp).dom());
            if remaining > 0 {
                match self.book.spec_best(opp) {
                    Some(p) => {
                        lemma_best_key(&self.book, order.side, p);
                    },
                    None => {
                        if order.side == Side::Bid {
                            assert(self.book.levels(Side::Ask).dom() =~= Set::empty());
                        } else {
                            assert(self.book.levels(Side::Bid).dom() =~= Set::empty());
                        }
                    },
                }
            }
            assert(stop(v, *order, remaining));
            lemma_sweep_done(
                side_view(&e0.book, &e0.arena, opp),
                *order,
                remaining_qty,
                v,
                remaining,
                events@.subrange(n0 as int, events@.len() as int),
                filled,
            );
        }
        remaining
    }

    /// Rests `qty` of `order` in the first free record and reports it; `None`,
    /// with no change, when the arena is full.
    #[verifier::spinoff_prover]
    fn rest_order(&mut self, order: &PlaceOrder, qty: u32, events: &mut Vec<OutputEvent>) -> (r: Option<ArenaIndex>)
        requires
            old(self).wf(),
            qty > 0,
            !old(self).book.locator().contains_key(order.order_id),
            !can_cross(&old(self).book, order.side, order.price),
        ensures
            final(self).wf(),
            old(self).arena.spec_free().len() == 0 ==> r is None && *final(self) == *old(self) && final(events)@ == old(events)@,
            old(self).arena.spec_free().len() > 0 ==> {
                &&& r == Some(old(self).arena.spec_free()[0])
                &&& rested(old(self), final(self), *order, qty)
                &&& final(events)@ == old(events)@ + rest_events(final(self), *order, qty)
            },
    {
        let ghost e0 = *self;
        let arena_idx = match self.arena.allocate() {
            Some(i) => i,
            None => {
                return None;
            },
        };
        let ghost a1 = self.arena;
        proof {
            e0.book.lemma_free_unreferenced(&e0.arena, arena_idx);
            self.book.lemma_arena_change(&e0.arena, &a1, arena_idx);
        }
        self.arena.set_order(arena_idx, order.order_id, order.user_id, order.price, qty);
        let ghost a2 = self.arena;
        proof {
            self.book.lemma_arena_change(&a1, &self.arena, arena_idx);
            let f = e0.arena.spec_free();
            assert(!f.drop_first().contains(arena_idx)) by {
                if f.drop_first().contains(arena_idx) {
                    let k = choose|k: int| 0 <= k < f.drop_first().len() && f.drop_first()[k] == arena_idx;
                    assert(f[k + 1] == f[0]);
                }
            }
        }
        self.book.add_order(&mut self.arena, order.order_id, order.user_id, order.side, order.price, arena_idx);
        events.push(OutputEvent::Accepted(OrderAccepted { order_id: order.order_id, price: order.price, qty, side: order.side }));
        let (new_qty, new_count) = self.book.depth_at(order.side, order.price);
        events.push(OutputEvent::BookDelta(BookUpdate { side: order.side, price: order.price, new_qty, new_count }));
        proof {
            assert(events@ =~= old(events)@ + rest_events(self, *order, qty));
            assert forall|j: int| 0 <= j < e0.arena.spec_nodes().len() && !set![arena_idx].contains(j as ArenaIndex) implies (
            #[trigger] self.arena.spec_nodes()[j]).same_payload(e0.arena.spec_nodes()[j]) by {
                assert(j != arena_idx);
                assert(a2.spec_nodes()[j] == e0.arena.spec_nodes()[j]);
            }
            assert(records_kept(e0.arena.spec_nodes(), self.arena.spec_nodes(), set![arena_idx]));
            assert(self.arena.spec_capacity() == e0.arena.spec_capacity());
            assert(self.arena.spec_nodes()[arena_idx as int].same_payload(a2.spec_nodes()[arena_idx as int]));
            assert(rested(&e0, self, *order, qty));
        }
        Some(arena_idx)
    }

    /// Places `order`: rejects a zero quantity, a resting id, or a
    /// fill-or-kill order the book cannot fill; otherwise crosses it and
    /// rests what remains of a limit order.
    #[verifier::spinoff_prover]
    pub fn process_place(&mut self, order: PlaceOrder) -> (r: Vec<OutputEvent>)
        requires
            old(self).wf(),
        ensures
            final(self).wf(),
            MatchingEngine::place_post(old(self), final(self), order, r@),
    {
        let ghost e0 = *self;
        let mut events: Vec<OutputEvent> = Vec::new();
        if order.qty == 0 {
            events.push(OutputEvent::Rejected(OrderRejected { order_id: order.order_id, reason: RejectReason::InvalidQuantity }));
            assert(events@ =~= rejection(order.order_id, RejectReason::InvalidQuantity));
            return events;
        }
        if self.book.contains_order(order.order_id) {
            events.push(OutputEvent::Rejected(OrderRejected { order_id: order.order_id, reason: RejectReason::DuplicateOrderId }));
            assert(events@ =~= rejection(order.order_id, RejectReason::DuplicateOrderId));
            return events;
        }
        if order.order_type == OrderType::FOK && !self.fok_fillable(&order) {
            events.push(OutputEvent::Rejected(OrderRejected { order_id: order.order_id, reason: RejectReason::InsufficientLiquidity }));
            assert(events@ =~= rejection(order.order_id, RejectReason::InsufficientLiquidity));
            return events;
        }
        let mut remaining_qty = order.qty;
        remaining_qty = self.cross_order(&order, remaining_qty, &mut events);
        let ghost n = events@.len();
        let ghost ev1 = events@;
        let ghost e1 = *self;
        if remaining_qty > 0 && order.order_type == OrderType::Limit {
            match self.rest_order(&order, remaining_qty, &mut events) {
                Some(_) => {},
                None => {
                    events.push(OutputEvent::Rejected(OrderRejected { order_id: order.order_id, reason: RejectReason::ArenaFull }));
                },
            }
        }
        proof {
            assert(ev1.subrange(0, n as int) =~= ev1);
            assert(events@.subrange(0, n as int) =~= ev1);
            if remaining_qty > 0 && order.order_type == OrderType::Limit {
                if e1.arena.spec_free().len() == 0 {
                    assert(events@.subrange(n as int, events@.len() as int) =~= rejection(order.order_id, RejectReason::ArenaFull));
                } else {
                    assert(events@.subrange(n as int, events@.len() as int) =~= rest_events(self, order, remaining_qty));
                    assert(self.book.locator().contains_key(order.order_id));
                    assert(e1.book.levels(order.side.spec_opposite()) == self.book.levels(order.side.spec_opposite()));
                }
            }
            assert(place_shape(&e0, self, order, events@, n as int));
            assert(events@.subrange(0, n as int) =~= ev1.subrange(0, n as int));
            assert(placed_via(&e0, e1, self, order, events@));
            let v0 = side_view(&e0.book, &e0.arena, order.side.spec_opposite());
            assert(v0.dom() =~= e0.book.levels(order.side.spec_opposite()).dom());
            lemma_sweep_prices(v0, order, order.qty);
            assert forall|i: int, j: int|
                0 <= i < j < events@.len() && (#[trigger] events@[i]) is Trade && (#[trigger] events@[j]) is Trade
                    implies price_before(order.side, events@[i]->Trade_0.price, events@[j]->Trade_0.price) by {
                assert(events@[i] == ev1.subrange(0, n as int)[i]);
                assert(events@[j] == ev1.subrange(0, n as int)[j]);
            }
            if n > 0 {
                let m = choose|m: int| #[trigger] fifo_at_best(&e0, order, ev1.subrange(0, n as int), m);
                let p = e0.book.spec_best(order.side.spec_opposite()).unwrap();
                assert forall|k: int| 2 * m <= k < events@.len() implies match #[trigger] events@[k] {
                    OutputEvent::Trade(t) => t.price != p,
                    _ => true,
                } by {
                    if k < n {
                        assert(events@[k] == ev1.subrange(0, n as int)[k]);
                    } else {
                        assert(events@[k] == events@.subrange(n as int, events@.len() as int)[k - n]);
                    }
                }
                assert forall|i: int| 0 <= i < m implies #[trigger] events@[2 * i] == ev1.subrange(0, n as int)[2 * i] by {}
                assert forall|i: int| 0 <= i < m implies #[trigger] events@[2 * i + 1] == ev1.subrange(0, n as int)[2 * i + 1] by {}
                assert(fifo_at_best(&e0, order, events@, m));
            }
            let levels0 = e0.book.levels(order.side.spec_opposite());
            lemma_prices_listed(levels0.dom());
            lemma_crossing_qty_nonneg(levels0, listed(levels0.dom()), order.side, order.price);
            let levels1 = e1.book.levels(order.side.spec_opposite());
            lemma_prices_listed(levels1.dom());
            lemma_crossing_qty_nonneg(levels1, listed(levels1.dom()), order.side, order.price);
        }
        events
    }

    /// The best bid.
    pub fn best_bid(&self) -> (r: Option<u64>)
        ensures
            r == self.book.spec_best_bid(),
    {
        self.book.best_bid()
    }

    /// The best ask.
    pub fn best_ask(&self) -> (r: Option<u64>)
        ensures
            r == self.book.spec_best_ask(),
    {
        self.book.best_ask()
    }

    /// Best ask minus best bid, when both exist and the ask is higher.
    pub fn spread(&self) -> (r: Option<u64>)
        ensures
            r == (match (self.book.spec_best_bid(), self.book.spec_best_ask()) {
                (Some(b), Some(a)) => if a > b { Some((a - b) as u64) } else { None },
                _ => None,
            }),
    {
        self.book.spread()
    }

    /// The number of resting orders.
    pub fn order_count(&self) -> (r: usize)
        ensures
            r == self.book.locator().dom().len(),
    {
        self.book.order_count()
    }

    /// Touches every arena record; the book is unchanged.
    pub fn warm_up(&mut self)
        requires
            old(self).wf(),
        ensures
            final(self).wf(),
            final(self).unchanged(old(self)),
    {
        let ghost a0 = self.arena;
        self.arena.warm_up();
        proof {
            self.book.lemma_same_records(&a0, &self.arena);
        }
    }

    /// A hash of the best prices, the resting-order count and the allocated
    /// record count.
    pub fn state_hash(&self) -> (r: u64)
        ensures
            r == state_hash_of(
                self.book.spec_best_bid(),
                self.book.spec_best_ask(),
                self.book.locator().dom().len() as u64,
                self.arena.spec_allocated() as u64,
            ),
    {
        let (bid_tag, bid) = opt_to_words(self.book.best_bid());
        let (ask_tag, ask) = opt_to_words(self.book.best_ask());
        let mut h: u64 = 14695981039346656037;
        h = mix_word(h, bid_tag);
        h = mix_word(h, bid);
        h = mix_word(h, ask_tag);
        h = mix_word(h, ask);
        h = mix_word(h, self.book.order_count() as u64);
        h = mix_word(h, self.arena.allocated() as u64);
        h
    }

    /// Whether an order of `order_side` at `order_price` trades against the
    /// resting `opposite_best`.
    fn prices_cross(&self, order_price: u64, opposite_best: u64, order_side: Side) -> (r: bool)
        ensures
            r == crosses(order_side, order_price, opposite_best),
    {
        match order_side {
            Side::Bid => order_price >= opposite_best,
            Side::Ask => order_price <= opposite_best,
        }
    }

    /// Whether the opposite side holds enough crossing quantity to fill
    /// `order` completely.
    #[verifier::spinoff_prover]
    fn fok_fillable(&self, order: &PlaceOrder) -> (r: bool)
        requires
            self.wf(),
        ensures
            r == !fok_short(&self.book, order.side, order.price, order.qty),
    {
        let opposite = order.side.opposite();
        let prices = self.book.level_prices(opposite);
        let ghost levels = self.book.levels(opposite);
        let mut covered: u32 = 0;
        let mut i: usize = 0;
        while i < prices.len()
            invariant
                i <= prices.len(),
                covered <= order.qty,
                covered as int == if crossing_qty(levels, prices@.subrange(0, i as int), order.side, order.price)
                    >= order.qty {
                    order.qty as int
                } else {
                    crossing_qty(levels, prices@.subrange(0, i as int), order.side, order.price)
                },
                opposite == order.side.spec_opposite(),
                levels == self.book.levels(opposite),
                prices@.to_set() == levels.dom(),
            decreases prices.len() - i,
        {
            let p = prices[i];
            proof {
                assert(prices@.subrange(0, i as int + 1).drop_last() =~= prices@.subrange(0, i as int));
                assert(prices@.to_set().contains(prices@[i as int]));
            }
            if self.prices_cross(order.price, p, order.side) {
                let level = self.book.get_level(opposite, p).unwrap();
                if level.total_qty >= (order.qty - covered) as u64 {
                    covered = order.qty;
                } else {
                    covered = covered + level.total_qty as u32;
                }
            }
            i = i + 1;
        }
        proof {
            assert(prices@.subrange(0, prices@.len() as int) =~= prices@);
            lemma_crossable(&self.book, order.side, order.price, prices@);
        }
        covered >= order.qty
    }
}


/// Two well-formed caches of the largest key agree.
proof fn lemma_max_key_unique(keys: Set<u64>, a: Option<u64>, b: Option<u64>)
    requires
        is_max_key(keys, a),
        is_max_key(keys, b),
    ensures
        a == b,
{
    if a is Some && b is Some {
        assert(keys.contains(a.unwrap()) && keys.contains(b.unwrap()));
    }
}

/// Two well-formed caches of the smallest key agree.
proof fn lemma_min_key_unique(keys: Set<u64>, a: Option<u64>, b: Option<u64>)
    requires
        is_min_key(keys, a),
        is_min_key(keys, b),
    ensures
        a == b,
{
    if a is Some && b is Some {
        assert(keys.contains(a.unwrap()) && keys.contains(b.unwrap()));
    }
}

impl MatchingEngine {
    /// The book invariants that hold after every command: each locator entry
    /// names a queued record carrying its id; allocated and free records make
    /// up the capacity; each level's count is its queue length and its total
    /// the sum of its quantities; the best bid is the highest bid level, the
    /// best ask the lowest ask level, and the best bid is below the best ask.
    #[verifier::spinoff_prover]
    pub proof fn lemma_invariants(&self)
        requires
            self.wf(),
        ensures
            forall|id: u64| #[trigger] self.book.locator().contains_key(id) ==> {
                let loc = self.book.locator()[id];
                &&& self.arena.spec_nodes()[loc.arena_index as int].order_id == id
                &&& self.book.levels(loc.side).contains_key(loc.price)
                &&& self.book.levels(loc.side)[loc.price].fifo().contains(loc.arena_index)
            },
            self.arena.spec_allocated() + self.arena.spec_free().len() == self.arena.spec_capacity(),
            forall|side: Side, price: u64| #[trigger] self.book.levels(side).contains_key(price) ==> {
                let l = self.book.levels(side)[price];
                &&& l.count == l.fifo().len()
                &&& l.total_qty == crate::price_level::sum_qty(self.arena.spec_nodes(), l.fifo())
            },
            is_max_key(self.book.levels(Side::Bid).dom(), self.book.spec_best_bid()),
            is_min_key(self.book.levels(Side::Ask).dom(), self.book.spec_best_ask()),
            self.book.spec_best_bid() is Some && self.book.spec_best_ask() is Some ==> self.book.spec_best_bid().unwrap()
                < self.book.spec_best_ask().unwrap(),
    {
        assert forall|id: u64| #[trigger] self.book.locator().contains_key(id) implies {
            let loc = self.book.locator()[id];
            &&& self.arena.spec_nodes()[loc.arena_index as int].order_id == id
            &&& self.book.levels(loc.side).contains_key(loc.price)
            &&& self.book.levels(loc.side)[loc.price].fifo().contains(loc.arena_index)
        } by {
            assert(self.book.locator_entry_ok(&self.arena, id));
        }
        assert forall|side: Side, price: u64| #[trigger] self.book.levels(side).contains_key(price) implies {
            let l = self.book.levels(side)[price];
            &&& l.count == l.fifo().len()
            &&& l.total_qty == crate::price_level::sum_qty(self.arena.spec_nodes(), l.fifo())
        } by {
            assert(self.book.level_ok(&self.arena, side, price));
        }
    }

    /// Cancelling the same id twice in a row: the second cancel is refused
    /// with `OrderNotFound`.
    pub proof fn lemma_double_cancel(
        e0: &MatchingEngine,
        e1: &MatchingEngine,
        e2: &MatchingEngine,
        order_id: u64,
        first: Seq<OutputEvent>,
        second: Seq<OutputEvent>,
    )
        requires
            MatchingEngine::cancel_post(e0, e1, order_id, first),
            MatchingEngine::cancel_post(e1, e2, order_id, second),
        ensures
            second == rejection(order_id, RejectReason::OrderNotFound),
    {
        assert(!e1.book.locator().contains_key(order_id));
    }

    /// A limit order that rests without trading, cancelled right away,
    /// leaves the book as it was: same levels, locator, best prices and
    /// record count, hence the same state hash.
    #[verifier::rlimit(100)]
    #[verifier::spinoff_prover]
    pub proof fn lemma_place_cancel_round_trip(
        e0: &MatchingEngine,
        e1: &MatchingEngine,
        e2: &MatchingEngine,
        order: PlaceOrder,
        placed: Seq<OutputEvent>,
        canceled: Seq<OutputEvent>,
    )
        requires
            e0.wf(),
            e1.wf(),
            e2.wf(),
            MatchingEngine::place_post(e0, e1, order, placed),
            MatchingEngine::cancel_post(e1, e2, order.order_id, canceled),
            order.order_type == OrderType::Limit,
            order.qty > 0,
            !e0.book.locator().contains_key(order.order_id),
            !can_cross(&e0.book, order.side, order.price),
            e0.arena.spec_free().len() > 0,
        ensures
            e2.unchanged(e0),
            state_hash_of(
                e2.book.spec_best_bid(),
                e2.book.spec_best_ask(),
                e2.book.locator().dom().len() as u64,
                e2.arena.spec_allocated() as u64,
            ) == state_hash_of(
                e0.book.spec_best_bid(),
                e0.book.spec_best_ask(),
                e0.book.locator().dom().len() as u64,
                e0.arena.spec_allocated() as u64,
            ),
    {
        let side = order.side;
        let price = order.price;
        let id = order.order_id;
        let i = e0.arena.spec_free()[0];
        assert(rested(e0, e1, order, order.qty));
        assert(e1.book.locator().contains_key(id));
        assert(e1.book.locator()[id] == OrderInfo { arena_index: i, side, price, user_id: order.user_id });
        assert(e2.book.locator() =~= e0.book.locator());
        let l1 = e1.book.levels(side)[price];
        assert(e1.book.levels(side).contains_key(price));
        assert(e2.arena.spec_free() =~= e0.arena.spec_free()) by {
            assert(e0.arena.spec_free().len() > 0);
        }
        assert forall|j: int|
            0 <= j < e0.arena.spec_nodes().len() && !e0.arena.spec_free().to_set().contains(j as ArenaIndex) implies (
            #[trigger] e2.arena.spec_nodes()[j]).same_payload(e0.arena.spec_nodes()[j]) by {
            assert(e0.arena.spec_free().to_set().contains(i)) by {
                assert(e0.arena.spec_free()[0] == i);
            }
            assert(j != i);
            assert(e1.arena.spec_nodes()[j].same_payload(e0.arena.spec_nodes()[j]));
        }
        if !e0.book.levels(side).contains_key(price) {
            assert(l1.count == 1);
            assert(e2.book.levels(side) =~= e0.book.levels(side));
            if side == Side::Bid {
                lemma_max_key_unique(e0.book.levels(Side::Bid).dom(), e0.book.spec_best_bid(), e2.book.spec_best_bid());
            } else {
                lemma_min_key_unique(e0.book.levels(Side::Ask).dom(), e0.book.spec_best_ask(), e2.book.spec_best_ask());
            }
        } else {
            let l0 = e0.book.levels(side)[price];
            assert(e0.book.level_ok(&e0.arena, side, price));
            assert(e1.book.level_ok(&e1.arena, side, price));
            let l2 = e2.book.levels(side)[price];
            assert(l1.fifo() == l0.fifo().push(i));
            assert(l1.fifo().index_of(i) == l0.fifo().len()) by {
                assert(l1.fifo()[l0.fifo().len() as int] == i);
                assert(l1.fifo().no_duplicates());
            }
            assert(l2.fifo() =~= l0.fifo());
            assert(e2.book.level_ok(&e2.arena, side, price));
            assert(l2.orders == l0.orders);
            assert(l2 == l0);
            assert(e2.book.levels(side) =~= e0.book.levels(side));
        }
    }
}

} // verus!
