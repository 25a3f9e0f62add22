//! The engine: one synchronous entry point from command to events.
use crate::arena::NULL_INDEX;
use crate::command::{CancelOrder, Command, ModifyOrder, OrderType, OutputEvent, PlaceOrder};
use crate::matching::{state_hash_of, MatchingEngine};
use vstd::prelude::*;

verus! {

/// The replacement order a modify of a resting order places.
pub open spec fn replacement(e0: &MatchingEngine, m: ModifyOrder) -> PlaceOrder {
    let info = e0.book.locator()[m.order_id];
    PlaceOrder {
        order_id: m.new_order_id,
        user_id: info.user_id,
        side: info.side,
        price: m.new_price,
        qty: m.new_qty,
        order_type: OrderType::Limit,
    }
}

/// A modify that went through `e1`: its cancel took `e0` to `e1` with the
/// first two events, its replacement took `e1` to `e2` with the rest.
pub open spec fn modify_steps(
    e0: &MatchingEngine,
    e1: MatchingEngine,
    e2: &MatchingEngine,
    m: ModifyOrder,
    events: Seq<OutputEvent>,
) -> bool {
    &&& e1.wf()
    &&& events.len() >= 2
    &&& MatchingEngine::cancel_post(e0, &e1, m.order_id, events.subrange(0, 2))
    &&& MatchingEngine::place_post(&e1, e2, replacement(e0, m), events.subrange(2, events.len() as int))
}

/// What a modify did: a cancel that failed, or a cancel followed by a limit
/// order on the same side with the new id, price and quantity.
pub open spec fn modify_post(e0: &MatchingEngine, e2: &MatchingEngine, m: ModifyOrder, events: Seq<OutputEvent>) -> bool {
    if !e0.book.locator().contains_key(m.order_id) {
        MatchingEngine::cancel_post(e0, e2, m.order_id, events)
    } else {
        exists|e1: MatchingEngine| #[trigger] modify_steps(e0, e1, e2, m, events)
    }
}

/// What processing `cmd` did, taking `e0` to `e1` with `events`.
pub open spec fn command_post(e0: &MatchingEngine, e1: &MatchingEngine, cmd: Command, events: Seq<OutputEvent>) -> bool {
    match cmd {
        Command::Place(o) => MatchingEngine::place_post(e0, e1, o, events),
        Command::Cancel(c) => MatchingEngine::cancel_post(e0, e1, c.order_id, events),
        Command::Modify(m) => modify_post(e0, e1, m, events),
    }
}

/// Whether some event is a cancel acknowledgement.
fn has_canceled(events: &Vec<OutputEvent>) -> (r: bool)
    ensures
        r == exists|k: int| 0 <= k < events@.len() && #[trigger] events@[k] is Canceled,
{
    let mut k: usize = 0;
    while k < events.len()
        invariant
            k <= events@.len(),
            forall|j: int| 0 <= j < k ==> !(#[trigger] events@[j] is Canceled),
        decreases events@.len() - k,
    {
        if let OutputEvent::Canceled(_) = events[k] {
            return true;
        }
        k = k + 1;
    }
    false
}

/// The order book engine.
pub struct Engine {
    /// The matching core.
    pub matcher: MatchingEngine,
}

impl Engine {
    /// The engine's invariant.
    pub open spec fn wf(&self) -> bool {
        self.matcher.wf()
    }

    /// An engine with room for `capacity` resting orders.
    pub fn new(capacity: u32) -> (r: Self)
        requires
            capacity < NULL_INDEX,
        ensures
            r.wf(),
            r.matcher.arena.spec_capacity() == capacity,
            r.matcher.arena.spec_allocated() == 0,
            r.matcher.book.locator().dom().len() == 0,
            r.matcher.book.spec_best_bid() is None,
            r.matcher.book.spec_best_ask() is None,
    {
        Engine { matcher: MatchingEngine::new(capacity) }
    }

    /// Processes one command and returns its events in order.
    #[verifier::spinoff_prover]
    pub fn process_command(&mut self, cmd: Command) -> (r: Vec<OutputEvent>)
        requires
            old(self).wf(),
        ensures
            final(self).wf(),
            command_post(&old(self).matcher, &final(self).matcher, cmd, r@),
    {
        match cmd {
            Command::Place(order) => self.matcher.process_place(order),
            Command::Cancel(cancel) => self.matcher.process_cancel(cancel),
            Command::Modify(modify) => {
                let ghost e0 = self.matcher;
                let resting_info = match self.matcher.book.get_order(modify.order_id) {
                    Some(info) => Some(*info),
                    None => None,
                };
                let mut events = self.matcher.process_cancel(CancelOrder { order_id: modify.order_id });
                let ghost e1 = self.matcher;
                let ghost cancel_events = events@;
                let cancel_succeeded = has_canceled(&events);
                proof {
                    if !e0.book.locator().contains_key(modify.order_id) {
                        assert(!(events@[0] is Canceled));
                    } else {
                        assert(events@[0] is Canceled);
                    }
                }
                if cancel_succeeded {
                    if let Some(info) = resting_info {
                        let mut place_events = self.matcher.process_place(
                            PlaceOrder {
                                order_id: modify.new_order_id,
                                user_id: info.user_id,
                                side: info.side,
                                price: modify.new_price,
                                qty: modify.new_qty,
                                order_type: OrderType::Limit,
                            },
                        );
                        let ghost pe = place_events@;
                        events.append(&mut place_events);
                        proof {
                            assert(events@.subrange(0, 2) =~= cancel_events);
                            assert(events@.subrange(2, events@.len() as int) =~= pe);
                            assert(modify_steps(&e0, e1, &self.matcher, modify, events@));
                        }
                    }
                }
                events
            },
        }
    }

    /// Touches every arena record before the hot path; the book is unchanged.
    pub fn warm_up(&mut self)
        requires
            old(self).wf(),
        ensures
            final(self).wf(),
            final(self).matcher.unchanged(&old(self).matcher),
    {
        self.matcher.warm_up();
    }

    /// The best bid.
    pub fn best_bid(&self) -> (r: Option<u64>)
        ensures
            r == self.matcher.book.spec_best_bid(),
    {
        self.matcher.best_bid()
    }

    /// The best ask.
    pub fn best_ask(&self) -> (r: Option<u64>)
        ensures
            r == self.matcher.book.spec_best_ask(),
    {
        self.matcher.best_ask()
    }

    /// Best ask minus best bid, when both exist and the ask is higher.
    pub fn spread(&self) -> (r: Option<u64>)
        ensures
            r == (match (self.matcher.book.spec_best_bid(), self.matcher.book.spec_best_ask()) {
                (Some(b), Some(a)) => if a > b { Some((a - b) as u64) } else { None },
                _ => None,
            }),
    {
        self.matcher.spread()
    }

    /// The number of resting orders.
    pub fn order_count(&self) -> (r: usize)
        ensures
            r == self.matcher.book.locator().dom().len(),
    {
        self.matcher.order_count()
    }

    /// The state hash of the matching core.
    pub fn state_hash(&self) -> (r: u64)
        ensures
            r == state_hash_of(
                self.matcher.book.spec_best_bid(),
                self.matcher.book.spec_best_ask(),
                self.matcher.book.locator().dom().len() as u64,
                self.matcher.arena.spec_allocated() as u64,
            ),
    {
        self.matcher.state_hash()
    }
}

impl Default for Engine {
    /// An engine with room for a million resting orders.
    fn default() -> (r: Self)
        ensures
            r.wf(),
            r.matcher.arena.spec_capacity() == 1000000,
    {
        Engine::new(1000000)
    }
}

} // verus!
