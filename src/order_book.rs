//! The order book: both sides' price levels, the order-id locator and the
//! cached best prices.
use crate::arena::{Arena, ArenaIndex, OrderNode};
use crate::command::Side;
use crate::fx_map::{level_entries, order_entries, LevelMap, OrderMap};
use crate::price_level::{links_changed_within, PriceLevel};
use vstd::prelude::*;

verus! {

/// Where a resting order lives.
#[derive(Clone, Copy, Debug, PartialEq, Eq, Structural)]
pub struct OrderInfo {
    /// Index of its record in the arena.
    pub arena_index: ArenaIndex,
    /// Its side.
    pub side: Side,
    /// Its price level.
    pub price: u64,
    /// Its owner.
    pub user_id: u64,
}

/// `b` is the largest key of `keys`, or `None` when there is none.
pub open spec fn is_max_key(keys: Set<u64>, b: Option<u64>) -> bool {
    match b {
        None => keys.is_empty(),
        Some(p) => keys.contains(p) && forall|q: u64| #[trigger] keys.contains(q) ==> q <= p,
    }
}

/// `b` is the smallest key of `keys`, or `None` when there is none.
pub open spec fn is_min_key(keys: Set<u64>, b: Option<u64>) -> bool {
    match b {
        None => keys.is_empty(),
        Some(p) => keys.contains(p) && forall|q: u64| #[trigger] keys.contains(q) ==> p <= q,
    }
}

/// The best bid after a bid at `price` is added.
pub open spec fn best_bid_after_add(best: Option<u64>, price: u64) -> Option<u64> {
    match best {
        Some(b) => if price > b { Some(price) } else { Some(b) },
        None => Some(price),
    }
}

/// The best ask after an ask at `price` is added.
pub open spec fn best_ask_after_add(best: Option<u64>, price: u64) -> Option<u64> {
    match best {
        Some(b) => if price < b { Some(price) } else { Some(b) },
        None => Some(price),
    }
}

/// The largest of `keys`, by a scan.
fn max_key(keys: &Vec<u64>) -> (r: Option<u64>)
    ensures
        is_max_key(keys@.to_set(), r),
{
    let mut best: Option<u64> = None;
    let mut i: usize = 0;
    while i < keys.len()
        invariant
            i <= keys.len(),
            match best {
                None => i == 0,
                Some(b) => exists|k: int| 0 <= k < i && keys@[k] == b,
            },
            forall|k: int| 0 <= k < i ==> match best {
                Some(b) => #[trigger] keys@[k] <= b,
                None => false,
            },
        decreases keys.len() - i,
    {
        let p = keys[i];
        match best {
            Some(b) => {
                if p > b {
                    best = Some(p);
                }
            },
            None => {
                best = Some(p);
            },
        }
        i = i + 1;
    }
    proof {
        match best {
            Some(b) => {
                let k = choose|k: int| 0 <= k < i && keys@[k] == b;
                assert(keys@.to_set().contains(keys@[k]));
                assert forall|q: u64| #[trigger] keys@.to_set().contains(q) implies q <= b by {
                    let m = choose|m: int| 0 <= m < keys@.len() && keys@[m] == q;
                    assert(keys@[m] <= b);
                }
            },
            None => {
                assert(keys@.to_set() =~= Set::empty());
            },
        }
    }
    best
}

/// The smallest of `keys`, by a scan.
fn min_key(keys: &Vec<u64>) -> (r: Option<u64>)
    ensures
        is_min_key(keys@.to_set(), r),
{
    let mut best: Option<u64> = None;
    let mut i: usize = 0;
    while i < keys.len()
        invariant
            i <= keys.len(),
            match best {
                None => i == 0,
                Some(b) => exists|k: int| 0 <= k < i && keys@[k] == b,
            },
            forall|k: int| 0 <= k < i ==> match best {
                Some(b) => b <= #[trigger] keys@[k],
                None => false,
            },
        decreases keys.len() - i,
    {
        let p = keys[i];
        match best {
            Some(b) => {
                if p < b {
                    best = Some(p);
                }
            },
            None => {
                best = Some(p);
            },
        }
        i = i + 1;
    }
    proof {
        match best {
            Some(b) => {
                let k = choose|k: int| 0 <= k < i && keys@[k] == b;
                assert(keys@.to_set().contains(keys@[k]));
                assert forall|q: u64| #[trigger] keys@.to_set().contains(q) implies b <= q by {
                    let m = choose|m: int| 0 <= m < keys@.len() && keys@[m] == q;
                    assert(b <= keys@[m]);
                }
            },
            None => {
                assert(keys@.to_set() =~= Set::empty());
            },
        }
    }
    best
}

/// Two sparse maps of price levels, a locator from order id to position,
/// and the best bid and ask.
pub struct OrderBook {
    bids: LevelMap,
    asks: LevelMap,
    best_bid: Option<u64>,
    best_ask: Option<u64>,
    order_map: OrderMap,
}

impl OrderBook {
    /// The price levels of one side, keyed by price.
    pub closed spec fn levels(&self, side: Side) -> Map<u64, PriceLevel> {
        match side {
            Side::Bid => level_entries(self.bids),
            Side::Ask => level_entries(self.asks),
        }
    }

    /// The locator: order id to position of every resting order.
    pub closed spec fn locator(&self) -> Map<u64, OrderInfo> {
        order_entries(self.order_map)
    }

    /// The cached best bid.
    pub closed spec fn spec_best_bid(&self) -> Option<u64> {
        self.best_bid
    }

    /// The cached best ask.
    pub closed spec fn spec_best_ask(&self) -> Option<u64> {
        self.best_ask
    }

    /// The cached best price of one side.
    pub open spec fn spec_best(&self, side: Side) -> Option<u64> {
        match side {
            Side::Bid => self.spec_best_bid(),
            Side::Ask => self.spec_best_ask(),
        }
    }

    /// The best caches equal the highest bid and the lowest ask.
    pub open spec fn best_ok(&self) -> bool {
        &&& self.levels(Side::Bid).dom().finite()
        &&& self.levels(Side::Ask).dom().finite()
        &&& is_max_key(self.levels(Side::Bid).dom(), self.spec_best_bid())
        &&& is_min_key(self.levels(Side::Ask).dom(), self.spec_best_ask())
    }

    /// Record `i`, queued at `price` on `side`, holds that price and a
    /// positive quantity, and the locator points back at it.
    pub open spec fn entry_ok(&self, arena: &Arena, side: Side, price: u64, i: ArenaIndex) -> bool {
        let n = arena.spec_nodes()[i as int];
        &&& n.price == price
        &&& n.qty > 0
        &&& self.locator().contains_key(n.order_id)
        &&& self.locator()[n.order_id] == (OrderInfo { arena_index: i, side, price, user_id: n.user_id })
    }

    /// A non-empty, well-linked level of live records that all belong there.
    pub open spec fn level_ok(&self, arena: &Arena, side: Side, price: u64) -> bool {
        let l = self.levels(side)[price];
        &&& l.wf_in(arena.spec_nodes())
        &&& l.members_live(arena)
        &&& l.count > 0
        &&& forall|k: int| 0 <= k < l.fifo().len() ==> self.entry_ok(arena, side, price, #[trigger] l.fifo()[k])
    }

    /// The locator entry of `id` names a queued record that carries `id`.
    pub open spec fn locator_entry_ok(&self, arena: &Arena, id: u64) -> bool {
        let info = self.locator()[id];
        &&& self.levels(info.side).contains_key(info.price)
        &&& self.levels(info.side)[info.price].fifo().contains(info.arena_index)
        &&& arena.spec_nodes()[info.arena_index as int].order_id == id
    }

    /// The book's invariant over `arena`.
    pub open spec fn wf(&self, arena: &Arena) -> bool {
        &&& arena.wf()
        &&& self.best_ok()
        &&& self.locator().dom().finite()
        &&& forall|side: Side, price: u64| #[trigger] self.levels(side).contains_key(price) ==> self.level_ok(arena, side, price)
        &&& forall|id: u64| #[trigger] self.locator().contains_key(id) ==> self.locator_entry_ok(arena, id)
    }

    /// No locator entry points at record `i`.
    pub open spec fn unreferenced(&self, i: ArenaIndex) -> bool {
        forall|id: u64| #[trigger] self.locator().contains_key(id) ==> self.locator()[id].arena_index != i
    }

    /// An unreferenced record is queued at no level.
    pub proof fn lemma_unreferenced_not_queued(&self, arena: &Arena, i: ArenaIndex)
        requires
            self.wf(arena),
            self.unreferenced(i),
        ensures
            forall|side: Side, price: u64, k: int|
                self.levels(side).contains_key(price) && 0 <= k < self.levels(side)[price].fifo().len()
                    ==> #[trigger] self.levels(side)[price].fifo()[k] != i,
    {
        assert forall|side: Side, price: u64, k: int|
            self.levels(side).contains_key(price) && 0 <= k < self.levels(side)[price].fifo().len()
                implies #[trigger] self.levels(side)[price].fifo()[k] != i by {
            assert(self.level_ok(arena, side, price));
            let j = self.levels(side)[price].fifo()[k];
            assert(self.entry_ok(arena, side, price, j));
        }
    }

    /// The book stays well-formed when the arena changes only at a record
    /// that no locator entry names.
    #[verifier::spinoff_prover]
    pub proof fn lemma_arena_change(&self, a0: &Arena, a1: &Arena, i: ArenaIndex)
        requires
            self.wf(a0),
            a1.wf(),
            self.unreferenced(i),
            (i as nat) < a0.spec_capacity(),
            a1.spec_capacity() == a0.spec_capacity(),
            a1.spec_nodes() == a0.spec_nodes().update(i as int, a1.spec_nodes()[i as int]),
            forall|j: ArenaIndex| #[trigger] a1.is_free(j) ==> a0.is_free(j) || j == i,
        ensures
            self.wf(a1),
    {
        self.lemma_unreferenced_not_queued(a0, i);
        assert forall|side: Side, price: u64| #[trigger] self.levels(side).contains_key(price) implies self.level_ok(a1, side, price) by {
            assert(self.level_ok(a0, side, price));
            let l = self.levels(side)[price];
            assert forall|k: int| 0 <= k < l.fifo().len() implies a1.spec_nodes()[#[trigger] l.fifo()[k] as int]
                == a0.spec_nodes()[l.fifo()[k] as int] by {
                assert(l.fifo()[k] != i);
            }
            crate::price_level::lemma_wf_in_frame(l, a0.spec_nodes(), a1.spec_nodes());
            assert forall|k: int| 0 <= k < l.fifo().len() implies self.entry_ok(a1, side, price, #[trigger] l.fifo()[k]) by {
                assert(self.entry_ok(a0, side, price, l.fifo()[k]));
                assert(l.fifo()[k] != i);
            }
            assert forall|k: int| 0 <= k < l.fifo().len() implies a1.is_live(#[trigger] l.fifo()[k]) by {
                assert(a0.is_live(l.fifo()[k]));
                assert(l.fifo()[k] != i);
            }
        }
        assert forall|id: u64| #[trigger] self.locator().contains_key(id) implies self.locator_entry_ok(a1, id) by {
            assert(self.locator_entry_ok(a0, id));
        }
    }

    /// Raises the best bid or lowers the best ask to `price` where it
    /// improves on the cached one.
    fn update_best_price_on_add(&mut self, side: Side, price: u64)
        ensures
            final(self).levels(Side::Bid) == old(self).levels(Side::Bid),
            final(self).levels(Side::Ask) == old(self).levels(Side::Ask),
            final(self).locator() == old(self).locator(),
            final(self).spec_best_bid() == (if side == Side::Bid {
                best_bid_after_add(old(self).spec_best_bid(), price)
            } else {
                old(self).spec_best_bid()
            }),
            final(self).spec_best_ask() == (if side == Side::Ask {
                best_ask_after_add(old(self).spec_best_ask(), price)
            } else {
                old(self).spec_best_ask()
            }),
    {
        match side {
            Side::Bid => {
                let improves = match self.best_bid {
                    Some(best) => price > best,
                    None => true,
                };
                if improves {
                    self.best_bid = Some(price);
                }
            },
            Side::Ask => {
                let improves = match self.best_ask {
                    Some(best) => price < best,
                    None => true,
                };
                if improves {
                    self.best_ask = Some(price);
                }
            },
        }
    }

    /// Sets the best bid to the highest bid level, by a full scan.
    fn recalculate_best_bid(&mut self)
        ensures
            final(self).levels(Side::Bid) == old(self).levels(Side::Bid),
            final(self).levels(Side::Ask) == old(self).levels(Side::Ask),
            final(self).locator() == old(self).locator(),
            final(self).spec_best_ask() == old(self).spec_best_ask(),
            is_max_key(final(self).levels(Side::Bid).dom(), final(self).spec_best_bid()),
    {
        let keys = self.bids.keys();
        self.best_bid = max_key(&keys);
    }

    /// Sets the best ask to the lowest ask level, by a full scan.
    fn recalculate_best_ask(&mut self)
        ensures
            final(self).levels(Side::Bid) == old(self).levels(Side::Bid),
            final(self).levels(Side::Ask) == old(self).levels(Side::Ask),
            final(self).locator() == old(self).locator(),
            final(self).spec_best_bid() == old(self).spec_best_bid(),
            is_min_key(final(self).levels(Side::Ask).dom(), final(self).spec_best_ask()),
    {
        let keys = self.asks.keys();
        self.best_ask = min_key(&keys);
    }

    /// Removes the level at `price` on `side` and, if it was the best,
    /// finds the new best by a full scan.
    #[verifier::spinoff_prover]
    pub fn remove_empty_level(&mut self, side: Side, price: u64)
        requires
            old(self).best_ok(),
        ensures
            final(self).best_ok(),
            final(self).levels(side) == old(self).levels(side).remove(price),
            final(self).levels(side.spec_opposite()) == old(self).levels(side.spec_opposite()),
            final(self).locator() == old(self).locator(),
            final(self).spec_best(side.spec_opposite()) == old(self).spec_best(side.spec_opposite()),
            old(self).spec_best(side) != Some(price) ==> final(self).spec_best(side) == old(self).spec_best(side),
    {
        match side {
            Side::Bid => {
                self.bids.remove(price);
                if self.best_bid == Some(price) {
                    self.recalculate_best_bid();
                } else {
                    proof {
                        let d = self.levels(Side::Bid).dom();
                        if self.best_bid is None {
                            assert(d =~= Set::empty());
                        }
                    }
                }
            },
            Side::Ask => {
                self.asks.remove(price);
                if self.best_ask == Some(price) {
                    self.recalculate_best_ask();
                } else {
                    proof {
                        let d = self.levels(Side::Ask).dom();
                        if self.best_ask is None {
                            assert(d =~= Set::empty());
                        }
                    }
                }
            },
        }
    }

    /// The level at `price` on `side`, or an empty one where there is none.
    pub open spec fn level_or_empty(&self, side: Side, price: u64) -> PriceLevel {
        if self.levels(side).contains_key(price) {
            self.levels(side)[price]
        } else {
            PriceLevel { head: crate::arena::NULL_INDEX, tail: crate::arena::NULL_INDEX, total_qty: 0, count: 0, orders: Ghost(Seq::empty()) }
        }
    }

    /// Rests record `arena_index`, which must already hold the order, at the
    /// tail of its level, creating the level if needed. Returns false, and
    /// changes nothing, when `order_id` already rests.
    #[verifier::rlimit(80)]
    #[verifier::spinoff_prover]
    pub fn add_order(
        &mut self,
        arena: &mut Arena,
        order_id: u64,
        user_id: u64,
        side: Side,
        price: u64,
        arena_index: ArenaIndex,
    ) -> (r: bool)
        requires
            old(self).wf(old(arena)),
            old(arena).is_live(arena_index),
            old(self).unreferenced(arena_index),
            old(arena).spec_nodes()[arena_index as int].order_id == order_id,
            old(arena).spec_nodes()[arena_index as int].user_id == user_id,
            old(arena).spec_nodes()[arena_index as int].price == price,
            old(arena).spec_nodes()[arena_index as int].qty > 0,
        ensures
            r == !old(self).locator().contains_key(order_id),
            final(self).wf(final(arena)),
            final(arena).spec_free() == old(arena).spec_free(),
            final(arena).spec_allocated() == old(arena).spec_allocated(),
            final(arena).spec_capacity() == old(arena).spec_capacity(),
            final(arena).spec_nodes().len() == old(arena).spec_nodes().len(),
            forall|j: int|
                0 <= j < old(arena).spec_nodes().len() ==> #[trigger] final(arena).spec_nodes()[j].same_payload(
                    old(arena).spec_nodes()[j],
                ),
            !r ==> *final(self) == *old(self) && *final(arena) == *old(arena),
            r ==> {
                let l0 = old(self).level_or_empty(side, price);
                let l1 = final(self).levels(side)[price];
                &&& final(self).locator() == old(self).locator().insert(
                    order_id,
                    OrderInfo { arena_index, side, price, user_id },
                )
                &&& final(self).levels(side) == old(self).levels(side).insert(price, l1)
                &&& final(self).levels(side.spec_opposite()) == old(self).levels(side.spec_opposite())
                &&& l1.fifo() == l0.fifo().push(arena_index)
                &&& l1.count == l0.count + 1
                &&& l1.total_qty == l0.total_qty + old(arena).spec_nodes()[arena_index as int].qty
                &&& final(self).spec_best_bid() == (if side == Side::Bid {
                    best_bid_after_add(old(self).spec_best_bid(), price)
                } else {
                    old(self).spec_best_bid()
                })
                &&& final(self).spec_best_ask() == (if side == Side::Ask {
                    best_ask_after_add(old(self).spec_best_ask(), price)
                } else {
                    old(self).spec_best_ask()
                })
            },
    {
        if self.order_map.contains_key(order_id) {
            return false;
        }
        let ghost b0 = *self;
        let ghost a0 = *arena;
        let info = OrderInfo { arena_index, side, price, user_id };
        self.order_map.insert(order_id, info);
        let mut level = match self.get_level(side, price) {
            Some(l) => *l,
            None => PriceLevel::new(),
        };
        proof {
            b0.lemma_unreferenced_not_queued(&a0, arena_index);
            if b0.levels(side).contains_key(price) {
                assert(b0.level_ok(&a0, side, price));
                assert(!level.fifo().contains(arena_index)) by {
                    if level.fifo().contains(arena_index) {
                        let k = choose|k: int| 0 <= k < level.fifo().len() && level.fifo()[k] == arena_index;
                        assert(b0.levels(side)[price].fifo()[k] != arena_index);
                    }
                }
            } else {
                assert(level.fifo() == b0.level_or_empty(side, price).fifo());
            }
        }
        let ghost l0 = level;
        level.push_back(arena, arena_index);
        match side {
            Side::Bid => self.bids.insert(price, level),
            Side::Ask => self.asks.insert(price, level),
        }
        self.update_best_price_on_add(side, price);
        proof {
            let a1 = *arena;
            let n0 = a0.spec_nodes();
            let n1 = a1.spec_nodes();
            let s = l0.fifo().to_set().insert(arena_index);
            assert(self.levels(side) == b0.levels(side).insert(price, level));
            assert(self.levels(side.spec_opposite()) == b0.levels(side.spec_opposite()));
            assert(self.locator() == b0.locator().insert(order_id, info));
            // Levels other than the one that grew keep their records.
            assert forall|sd: Side, p: u64| #[trigger] self.levels(sd).contains_key(p) implies self.level_ok(arena, sd, p) by {
                if sd == side && p == price {
                    assert forall|k: int| 0 <= k < level.fifo().len() implies self.entry_ok(arena, sd, p, #[trigger] level.fifo()[k]) by {
                        let j = level.fifo()[k];
                        if k < l0.fifo().len() {
                            assert(j == l0.fifo()[k]);
                            assert(b0.level_ok(&a0, sd, p));
                            assert(b0.entry_ok(&a0, sd, p, j));
                            assert(n1[j as int].same_payload(n0[j as int]));
                        } else {
                            assert(j == arena_index);
                            assert(n1[j as int].same_payload(n0[j as int]));
                        }
                    }
                } else {
                    assert(self.levels(sd)[p] == b0.levels(sd)[p]);
                    assert(b0.level_ok(&a0, sd, p));
                    let l = b0.levels(sd)[p];
                    assert forall|k: int| 0 <= k < l.fifo().len() implies n1[#[trigger] l.fifo()[k] as int] == n0[l.fifo()[k] as int] by {
                        let j = l.fifo()[k];
                        assert(b0.entry_ok(&a0, sd, p, j));
                        assert(j != arena_index);
                        if l0.fifo().contains(j) {
                            let m = choose|m: int| 0 <= m < l0.fifo().len() && l0.fifo()[m] == j;
                            assert(b0.level_ok(&a0, side, price));
                            assert(b0.entry_ok(&a0, side, price, l0.fifo()[m]));
                        }
                        assert(!s.contains(j));
                    }
                    crate::price_level::lemma_wf_in_frame(l, n0, n1);
                    assert forall|k: int| 0 <= k < l.fifo().len() implies self.entry_ok(arena, sd, p, #[trigger] l.fifo()[k]) by {
                        assert(b0.entry_ok(&a0, sd, p, l.fifo()[k]));
                    }
                    assert forall|k: int| 0 <= k < l.fifo().len() implies arena.is_live(#[trigger] l.fifo()[k]) by {
                        assert(a0.is_live(l.fifo()[k]));
                    }
                }
            }
            assert forall|id: u64| #[trigger] self.locator().contains_key(id) implies self.locator_entry_ok(arena, id) by {
                if id == order_id {
                    assert(level.fifo()[level.fifo().len() - 1] == arena_index);
                    assert(level.fifo().contains(arena_index));
                } else {
                    assert(b0.locator_entry_ok(&a0, id));
                    let inf = b0.locator()[id];
                    assert(n1[inf.arena_index as int].same_payload(n0[inf.arena_index as int]));
                    if inf.side == side && inf.price == price {
                        let m = choose|m: int| 0 <= m < l0.fifo().len() && l0.fifo()[m] == inf.arena_index;
                        assert(level.fifo()[m] == inf.arena_index);
                    }
                }
            }
            if side == Side::Bid {
                assert(self.levels(Side::Bid).dom() == b0.levels(Side::Bid).dom().insert(price));
            } else {
                assert(self.levels(Side::Ask).dom() == b0.levels(Side::Ask).dom().insert(price));
            }
        }
        true
    }

    /// Both books hold the same levels, locator and best prices.
    pub open spec fn same_view(&self, other: &OrderBook) -> bool {
        &&& self.levels(Side::Bid) == other.levels(Side::Bid)
        &&& self.levels(Side::Ask) == other.levels(Side::Ask)
        &&& self.locator() == other.locator()
        &&& self.spec_best_bid() == other.spec_best_bid()
        &&& self.spec_best_ask() == other.spec_best_ask()
    }

    /// `b1` and `a1` are `b0` and `a0` after `remove_order` has taken
    /// `order_id` out of the locator, unlinked its record from its level,
    /// and written back that level as `level` (or dropped it when empty).
    pub open spec fn removal_step(b0: OrderBook, b1: OrderBook, a0: Arena, a1: Arena, order_id: u64, level: PriceLevel) -> bool {
        let info = b0.locator()[order_id];
        let l0 = b0.levels(info.side)[info.price];
        let idx = info.arena_index;
        &&& b0.wf(&a0)
        &&& b0.locator().contains_key(order_id)
        &&& b0.levels(info.side).contains_key(info.price)
        &&& l0.fifo().contains(idx)
        &&& level.fifo() == l0.fifo().remove(l0.fifo().index_of(idx))
        &&& level.wf_in(a1.spec_nodes())
        &&& level.members_live(&a1)
        &&& level.count == 0 ==> b1.levels(info.side) == b0.levels(info.side).remove(info.price)
        &&& level.count > 0 ==> b1.levels(info.side) == b0.levels(info.side).insert(info.price, level)
        &&& b1.levels(info.side.spec_opposite()) == b0.levels(info.side.spec_opposite())
        &&& links_changed_within(a0.spec_nodes(), a1.spec_nodes(), l0.fifo().to_set())
        &&& a1.wf()
        &&& a1.spec_free() == a0.spec_free()
        &&& a1.spec_capacity() == a0.spec_capacity()
        &&& b1.locator() == b0.locator().remove(order_id)
        &&& b1.best_ok()
    }

    /// Records queued in `b0` other than that of `order_id` carry other ids.
    proof fn lemma_other_records(b0: OrderBook, a0: Arena, order_id: u64, sd: Side, p: u64, j: ArenaIndex)
        requires
            b0.wf(&a0),
            b0.locator().contains_key(order_id),
            b0.levels(sd).contains_key(p),
            b0.levels(sd)[p].fifo().contains(j),
            j != b0.locator()[order_id].arena_index,
        ensures
            a0.spec_nodes()[j as int].order_id != order_id,
            b0.entry_ok(&a0, sd, p, j),
    {
        assert(b0.level_ok(&a0, sd, p));
        let k = choose|k: int| 0 <= k < b0.levels(sd)[p].fifo().len() && b0.levels(sd)[p].fifo()[k] == j;
        assert(b0.entry_ok(&a0, sd, p, b0.levels(sd)[p].fifo()[k]));
    }

    /// After a removal step, each remaining level is in order.
    #[verifier::spinoff_prover]
    proof fn lemma_after_remove_level(b0: OrderBook, b1: OrderBook, a0: Arena, a1: Arena, order_id: u64, level: PriceLevel, sd: Side, p: u64)
        requires
            OrderBook::removal_step(b0, b1, a0, a1, order_id, level),
            b1.levels(sd).contains_key(p),
        ensures
            b1.level_ok(&a1, sd, p),
    {
        let info = b0.locator()[order_id];
        let idx = info.arena_index;
        let side = info.side;
        let price = info.price;
        let f = b0.levels(side)[price].fifo();
        let q = f.index_of(idx);
        let n0 = a0.spec_nodes();
        let n1 = a1.spec_nodes();
        assert(b0.levels(sd).contains_key(p));
        assert(b0.level_ok(&a0, sd, p));
        if sd == side && p == price {
            assert(b1.levels(sd)[p] == level);
            assert forall|k: int| 0 <= k < level.fifo().len() implies b1.entry_ok(&a1, sd, p, #[trigger] level.fifo()[k]) by {
                let fk = if k < q { k } else { k + 1 };
                assert(level.fifo()[k] == f[fk]);
                assert(f[fk] != idx);
                OrderBook::lemma_other_records(b0, a0, order_id, sd, p, f[fk]);
                assert(n1[f[fk] as int].same_payload(n0[f[fk] as int]));
            }
        } else {
            let l = b0.levels(sd)[p];
            assert(b1.levels(sd)[p] == l);
            assert forall|k: int| 0 <= k < l.fifo().len() implies n1[#[trigger] l.fifo()[k] as int] == n0[l.fifo()[k] as int] by {
                let j = l.fifo()[k];
                assert(b0.entry_ok(&a0, sd, p, j));
                if f.contains(j) {
                    let m = choose|m: int| 0 <= m < f.len() && f[m] == j;
                    assert(b0.level_ok(&a0, side, price));
                    assert(b0.entry_ok(&a0, side, price, f[m]));
                }
                assert(!f.to_set().contains(j));
            }
            crate::price_level::lemma_wf_in_frame(l, n0, n1);
            assert forall|k: int| 0 <= k < l.fifo().len() implies b1.entry_ok(&a1, sd, p, #[trigger] l.fifo()[k]) by {
                let j = l.fifo()[k];
                assert(b0.entry_ok(&a0, sd, p, j));
                assert(b0.level_ok(&a0, side, price));
                assert(f.contains(idx));
                if j == idx {
                    let m = choose|m: int| 0 <= m < f.len() && f[m] == idx;
                    assert(b0.entry_ok(&a0, side, price, f[m]));
                }
                OrderBook::lemma_other_records(b0, a0, order_id, sd, p, j);
            }
            assert forall|k: int| 0 <= k < l.fifo().len() implies a1.is_live(#[trigger] l.fifo()[k]) by {
                assert(a0.is_live(l.fifo()[k]));
            }
        }
    }

    /// After a removal step the book is well-formed again and no locator
    /// entry names the removed record.
    #[verifier::spinoff_prover]
    proof fn lemma_after_remove(b0: OrderBook, b1: OrderBook, a0: Arena, a1: Arena, order_id: u64, level: PriceLevel)
        requires
            OrderBook::removal_step(b0, b1, a0, a1, order_id, level),
        ensures
            b1.wf(&a1),
            b1.unreferenced(b0.locator()[order_id].arena_index),
    {
        let info = b0.locator()[order_id];
        let idx = info.arena_index;
        let side = info.side;
        let price = info.price;
        let f = b0.levels(side)[price].fifo();
        let q = f.index_of(idx);
        let n0 = a0.spec_nodes();
        let n1 = a1.spec_nodes();
        assert(b0.locator_entry_ok(&a0, order_id));
        assert forall|sd: Side, p: u64| #[trigger] b1.levels(sd).contains_key(p) implies b1.level_ok(&a1, sd, p) by {
            OrderBook::lemma_after_remove_level(b0, b1, a0, a1, order_id, level, sd, p);
        }
        assert forall|id: u64| #[trigger] b1.locator().contains_key(id) implies b1.locator_entry_ok(&a1, id) && b1.locator()[id].arena_index != idx by {
            assert(b0.locator_entry_ok(&a0, id));
            let inf = b0.locator()[id];
            assert(inf.arena_index != idx);
            assert(n1[inf.arena_index as int].same_payload(n0[inf.arena_index as int]));
            if inf.side == side && inf.price == price {
                let m = choose|m: int| 0 <= m < f.len() && f[m] == inf.arena_index;
                assert(m != q);
                let gm = if m < q { m } else { m - 1 };
                assert(level.fifo()[gm] == inf.arena_index);
                assert(level.fifo().len() > 0);
            }
        }
    }

    /// Takes `order_id` out of the locator and unlinks its record from its
    /// level, dropping the level (and rescanning the best price) when it
    /// empties. The record stays allocated. `None`, with no change, when the
    /// id does not rest.
    #[verifier::rlimit(100)]
    #[verifier::spinoff_prover]
    pub fn remove_order(&mut self, arena: &mut Arena, order_id: u64) -> (r: Option<OrderInfo>)
        requires
            old(self).wf(old(arena)),
        ensures
            final(self).wf(final(arena)),
            r == (if old(self).locator().contains_key(order_id) {
                Some(old(self).locator()[order_id])
            } else {
                None
            }),
            final(arena).spec_free() == old(arena).spec_free(),
            final(arena).spec_allocated() == old(arena).spec_allocated(),
            final(arena).spec_capacity() == old(arena).spec_capacity(),
            final(arena).spec_nodes().len() == old(arena).spec_nodes().len(),
            forall|j: int|
                0 <= j < old(arena).spec_nodes().len() ==> #[trigger] final(arena).spec_nodes()[j].same_payload(
                    old(arena).spec_nodes()[j],
                ),
            r is None ==> final(self).same_view(old(self)) && *final(arena) == *old(arena),
            r is Some ==> {
                let info = r.unwrap();
                let l0 = old(self).levels(info.side)[info.price];
                let i = info.arena_index;
                &&& final(self).locator() == old(self).locator().remove(order_id)
                &&& final(self).levels(info.side.spec_opposite()) == old(self).levels(info.side.spec_opposite())
                &&& final(self).spec_best(info.side.spec_opposite()) == old(self).spec_best(info.side.spec_opposite())
                &&& l0.count == 1 ==> final(self).levels(info.side) == old(self).levels(info.side).remove(info.price)
                &&& l0.count > 1 ==> {
                    let l1 = final(self).levels(info.side)[info.price];
                    &&& final(self).levels(info.side) == old(self).levels(info.side).insert(info.price, l1)
                    &&& l1.fifo() == l0.fifo().remove(l0.fifo().index_of(i))
                    &&& l1.count == l0.count - 1
                    &&& l1.total_qty == l0.total_qty - old(arena).spec_nodes()[i as int].qty
                    &&& final(self).spec_best(info.side) == old(self).spec_best(info.side)
                }
                &&& final(arena).spec_nodes()[i as int] == old(arena).spec_nodes()[i as int].unlinked()
                &&& final(arena).is_live(i)
                &&& final(self).unreferenced(i)
            },
    {
        let info = match self.order_map.get(order_id) {
            Some(info) => *info,
            None => {
                return None;
            },
        };
        let ghost b0 = *self;
        let ghost a0 = *arena;
        self.order_map.remove(order_id);
        proof {
            assert(b0.locator_entry_ok(&a0, order_id));
            assert(b0.level_ok(&a0, info.side, info.price));
        }
        let mut level = match self.get_level(info.side, info.price) {
            Some(l) => *l,
            None => {
                return None;
            },
        };
        let ghost l0 = level;
        let ghost idx = info.arena_index;
        let is_empty = level.remove(arena, info.arena_index);
        proof {
            let f = l0.fifo();
            let q = f.index_of(idx);
            assert(f[q] == idx);
            assert(a0.is_live(f[q]));
        }
        if is_empty {
            self.remove_empty_level(info.side, info.price);
        } else {
            match info.side {
                Side::Bid => self.bids.insert(info.price, level),
                Side::Ask => self.asks.insert(info.price, level),
            }
        }
        proof {
            OrderBook::lemma_after_remove(b0, *self, a0, *arena, order_id, level);
        }
        Some(info)
    }

    /// Lowers the remaining quantity of resting order `order_id` by `by`,
    /// in its record and in its level's total.
    #[verifier::rlimit(100)]
    #[verifier::spinoff_prover]
    pub fn reduce_order_qty(&mut self, arena: &mut Arena, order_id: u64, by: u32)
        requires
            old(self).wf(old(arena)),
            old(self).locator().contains_key(order_id),
            0 < by < old(arena).spec_nodes()[old(self).locator()[order_id].arena_index as int].qty,
        ensures
            final(self).wf(final(arena)),
            ({
                let info = old(self).locator()[order_id];
                let i = info.arena_index;
                let l0 = old(self).levels(info.side)[info.price];
                &&& final(self).locator() == old(self).locator()
                &&& final(self).levels(info.side) == old(self).levels(info.side).insert(
                    info.price,
                    PriceLevel { total_qty: (l0.total_qty - by) as u64, ..l0 },
                )
                &&& final(self).levels(info.side.spec_opposite()) == old(self).levels(info.side.spec_opposite())
                &&& final(arena).spec_nodes() == old(arena).spec_nodes().update(
                    i as int,
                    OrderNode { qty: (old(arena).spec_nodes()[i as int].qty - by) as u32, ..old(arena).spec_nodes()[i as int] },
                )
            }),
            final(self).spec_best_bid() == old(self).spec_best_bid(),
            final(self).spec_best_ask() == old(self).spec_best_ask(),
            final(arena).spec_free() == old(arena).spec_free(),
            final(arena).spec_allocated() == old(arena).spec_allocated(),
            final(arena).spec_capacity() == old(arena).spec_capacity(),
    {
        let ghost b0 = *self;
        let ghost a0 = *arena;
        let info = *self.order_map.get(order_id).unwrap();
        proof {
            assert(b0.locator_entry_ok(&a0, order_id));
            assert(b0.level_ok(&a0, info.side, info.price));
        }
        let mut level = *self.get_level(info.side, info.price).unwrap();
        let idx = info.arena_index;
        let node = *arena.get(idx);
        proof {
            let f = level.fifo();
            let q = f.index_of(idx);
            assert(f[q] == idx);
            assert(a0.is_live(f[q]));
            crate::price_level::lemma_sum_remove(a0.spec_nodes(), f, q);
            crate::price_level::lemma_sum_bound(a0.spec_nodes(), f.remove(q));
            crate::price_level::lemma_sum_update_qty(a0.spec_nodes(), a0.spec_nodes().update(
                idx as int,
                OrderNode { qty: (node.qty - by) as u32, ..node },
            ), f, q);
        }
        arena.set_order(idx, node.order_id, node.user_id, node.price, node.qty - by);
        level.subtract_qty(by);
        match info.side {
            Side::Bid => self.bids.insert(info.price, level),
            Side::Ask => self.asks.insert(info.price, level),
        }
        proof {
            let n0 = a0.spec_nodes();
            let n1 = arena.spec_nodes();
            let side = info.side;
            let price = info.price;
            let f = level.fifo();
            assert forall|sd: Side, p: u64| #[trigger] self.levels(sd).contains_key(p) implies self.level_ok(arena, sd, p) by {
                assert(b0.level_ok(&a0, sd, p));
                if sd == side && p == price {
                    let q = f.index_of(idx);
                    assert forall|k: int| 0 <= k < f.len() implies {
                        &&& (#[trigger] n1[f[k] as int]).next == (if k + 1 < f.len() {
                            f[k + 1]
                        } else {
                            crate::arena::NULL_INDEX
                        })
                        &&& n1[f[k] as int].prev == (if k > 0 {
                            f[k - 1]
                        } else {
                            crate::arena::NULL_INDEX
                        })
                    } by {
                    }
                    assert forall|k: int| 0 <= k < f.len() implies self.entry_ok(arena, sd, p, #[trigger] f[k]) by {
                        assert(b0.entry_ok(&a0, sd, p, f[k]));
                    }
                    assert forall|k: int| 0 <= k < f.len() implies arena.is_live(#[trigger] f[k]) by {
                        assert(a0.is_live(f[k]));
                    }
                } else {
                    let l = b0.levels(sd)[p];
                    assert forall|k: int| 0 <= k < l.fifo().len() implies n1[#[trigger] l.fifo()[k] as int] == n0[l.fifo()[k] as int] by {
                        let j = l.fifo()[k];
                        assert(b0.entry_ok(&a0, sd, p, j));
                    }
                    crate::price_level::lemma_wf_in_frame(l, n0, n1);
                    assert forall|k: int| 0 <= k < l.fifo().len() implies self.entry_ok(arena, sd, p, #[trigger] l.fifo()[k]) by {
                        assert(b0.entry_ok(&a0, sd, p, l.fifo()[k]));
                    }
                    assert forall|k: int| 0 <= k < l.fifo().len() implies arena.is_live(#[trigger] l.fifo()[k]) by {
                        assert(a0.is_live(l.fifo()[k]));
                    }
                }
            }
            assert forall|id: u64| #[trigger] self.locator().contains_key(id) implies self.locator_entry_ok(arena, id) by {
                assert(b0.locator_entry_ok(&a0, id));
            }
            assert(self.levels(side) == b0.levels(side).insert(price, level));
            assert(self.levels(side).dom() == b0.levels(side).dom());
        }
    }

    /// The prices of all levels on `side`, each once, in no set order.
    pub fn level_prices(&self, side: Side) -> (r: Vec<u64>)
        ensures
            r@.to_set() == self.levels(side).dom(),
            r@.no_duplicates(),
    {
        match side {
            Side::Bid => self.bids.keys(),
            Side::Ask => self.asks.keys(),
        }
    }

    /// A record on the free list is named by no locator entry.
    pub proof fn lemma_free_unreferenced(&self, arena: &Arena, i: ArenaIndex)
        requires
            self.wf(arena),
            arena.is_free(i),
        ensures
            self.unreferenced(i),
    {
        assert forall|id: u64| #[trigger] self.locator().contains_key(id) implies self.locator()[id].arena_index != i by {
            assert(self.locator_entry_ok(arena, id));
            let info = self.locator()[id];
            assert(self.level_ok(arena, info.side, info.price));
            let l = self.levels(info.side)[info.price];
            let k = choose|k: int| 0 <= k < l.fifo().len() && l.fifo()[k] == info.arena_index;
            assert(arena.is_live(l.fifo()[k]));
        }
    }

    /// The book stays well-formed over an arena whose records keep their
    /// order data and links.
    #[verifier::spinoff_prover]
    pub proof fn lemma_same_records(&self, a0: &Arena, a1: &Arena)
        requires
            self.wf(a0),
            a1.wf(),
            a1.spec_free() == a0.spec_free(),
            a1.spec_capacity() == a0.spec_capacity(),
            a1.spec_nodes().len() == a0.spec_nodes().len(),
            forall|j: int|
                0 <= j < a0.spec_nodes().len() ==> (#[trigger] a1.spec_nodes()[j]).same_payload(a0.spec_nodes()[j])
                    && a1.spec_nodes()[j].next == a0.spec_nodes()[j].next && a1.spec_nodes()[j].prev
                    == a0.spec_nodes()[j].prev,
        ensures
            self.wf(a1),
    {
        assert forall|side: Side, price: u64| #[trigger] self.levels(side).contains_key(price) implies self.level_ok(a1, side, price) by {
            assert(self.level_ok(a0, side, price));
            let l = self.levels(side)[price];
            assert forall|k: int| 0 <= k < l.fifo().len() implies {
                &&& a1.spec_nodes()[#[trigger] l.fifo()[k] as int].next == a0.spec_nodes()[l.fifo()[k] as int].next
                &&& a1.spec_nodes()[l.fifo()[k] as int].prev == a0.spec_nodes()[l.fifo()[k] as int].prev
                &&& a1.spec_nodes()[l.fifo()[k] as int].qty == a0.spec_nodes()[l.fifo()[k] as int].qty
            } by {
                assert(a1.spec_nodes()[l.fifo()[k] as int].same_payload(a0.spec_nodes()[l.fifo()[k] as int]));
            }
            crate::price_level::lemma_wf_in_frame(l, a0.spec_nodes(), a1.spec_nodes());
            assert forall|k: int| 0 <= k < l.fifo().len() implies self.entry_ok(a1, side, price, #[trigger] l.fifo()[k]) by {
                assert(self.entry_ok(a0, side, price, l.fifo()[k]));
                assert(a1.spec_nodes()[l.fifo()[k] as int].same_payload(a0.spec_nodes()[l.fifo()[k] as int]));
            }
            assert forall|k: int| 0 <= k < l.fifo().len() implies a1.is_live(#[trigger] l.fifo()[k]) by {
                assert(a0.is_live(l.fifo()[k]));
            }
        }
        assert forall|id: u64| #[trigger] self.locator().contains_key(id) implies self.locator_entry_ok(a1, id) by {
            assert(self.locator_entry_ok(a0, id));
            let i = self.locator()[id].arena_index;
            assert(a1.spec_nodes()[i as int].same_payload(a0.spec_nodes()[i as int]));
        }
    }

    /// An empty book with room reserved for `levels` price levels per side
    /// and `orders` orders.
    pub fn with_capacity(levels: usize, orders: usize) -> (r: Self)
        requires
            levels <= 4294967295,
            orders <= 4294967295,
        ensures
            r.levels(Side::Bid) == Map::<u64, PriceLevel>::empty(),
            r.levels(Side::Ask) == Map::<u64, PriceLevel>::empty(),
            r.locator() == Map::<u64, OrderInfo>::empty(),
            r.spec_best_bid() is None,
            r.spec_best_ask() is None,
            forall|arena: &Arena| arena.wf() ==> r.wf(arena),
    {
        let r = OrderBook {
            bids: LevelMap::with_capacity(levels),
            asks: LevelMap::with_capacity(levels),
            best_bid: None,
            best_ask: None,
            order_map: OrderMap::with_capacity(orders),
        };
        assert(r.levels(Side::Bid).dom() =~= Set::empty());
        assert(r.levels(Side::Ask).dom() =~= Set::empty());
        r
    }

    /// An empty book.
    pub fn new() -> (r: Self)
        ensures
            r.levels(Side::Bid) == Map::<u64, PriceLevel>::empty(),
            r.levels(Side::Ask) == Map::<u64, PriceLevel>::empty(),
            r.locator() == Map::<u64, OrderInfo>::empty(),
            r.spec_best_bid() is None,
            r.spec_best_ask() is None,
            forall|arena: &Arena| arena.wf() ==> r.wf(arena),
    {
        OrderBook::with_capacity(0, 0)
    }

    /// The highest bid price.
    pub fn best_bid(&self) -> (r: Option<u64>)
        ensures
            r == self.spec_best_bid(),
    {
        self.best_bid
    }

    /// The lowest ask price.
    pub fn best_ask(&self) -> (r: Option<u64>)
        ensures
            r == self.spec_best_ask(),
    {
        self.best_ask
    }

    /// The best price of `side`.
    pub fn best_price(&self, side: Side) -> (r: Option<u64>)
        ensures
            r == self.spec_best(side),
    {
        match side {
            Side::Bid => self.best_bid,
            Side::Ask => self.best_ask,
        }
    }

    /// The best price an incoming order of `side` could trade against.
    pub fn best_opposite_price(&self, side: Side) -> (r: Option<u64>)
        ensures
            r == self.spec_best(side.spec_opposite()),
    {
        match side {
            Side::Bid => self.best_ask,
            Side::Ask => self.best_bid,
        }
    }

    /// The level at `price` on `side`, if there is one.
    pub fn get_level(&self, side: Side, price: u64) -> (r: Option<&PriceLevel>)
        ensures
            match r {
                Some(l) => self.levels(side).contains_key(price) && *l == self.levels(side)[price],
                None => !self.levels(side).contains_key(price),
            },
    {
        match side {
            Side::Bid => self.bids.get(price),
            Side::Ask => self.asks.get(price),
        }
    }

    /// Mutable access to the level at `price` on `side`, if there is one.
    /// Writes through it bypass the book's bookkeeping.
    pub fn get_level_mut(&mut self, side: Side, price: u64) -> (r: Option<&mut PriceLevel>)
        ensures
            old(self).levels(side).contains_key(price) <==> r is Some,
            r is Some ==> *r.unwrap() == old(self).levels(side)[price] && final(self).levels(side) == old(
                self,
            ).levels(side).insert(price, *final(r.unwrap())),
            r is None ==> final(self).levels(side) == old(self).levels(side),
            final(self).levels(side.spec_opposite()) == old(self).levels(side.spec_opposite()),
            final(self).locator() == old(self).locator(),
            final(self).spec_best_bid() == old(self).spec_best_bid(),
            final(self).spec_best_ask() == old(self).spec_best_ask(),
    {
        match side {
            Side::Bid => self.bids.get_mut(price),
            Side::Ask => self.asks.get_mut(price),
        }
    }

    /// Mutable access to the level at `price` on `side`, creating an empty
    /// one where there is none. Writes through it bypass the book's
    /// bookkeeping.
    pub fn get_or_create_level(&mut self, side: Side, price: u64) -> (r: &mut PriceLevel)
        ensures
            *r == old(self).level_or_empty(side, price),
            final(self).levels(side) == old(self).levels(side).insert(price, *final(r)),
            final(self).levels(side.spec_opposite()) == old(self).levels(side.spec_opposite()),
            final(self).locator() == old(self).locator(),
            final(self).spec_best_bid() == old(self).spec_best_bid(),
            final(self).spec_best_ask() == old(self).spec_best_ask(),
    {
        match side {
            Side::Bid => self.bids.get_or_insert_empty(price),
            Side::Ask => self.asks.get_or_insert_empty(price),
        }
    }

    /// The locator entry of `order_id`, if it rests.
    pub fn get_order(&self, order_id: u64) -> (r: Option<&OrderInfo>)
        ensures
            match r {
                Some(info) => self.locator().contains_key(order_id) && *info == self.locator()[order_id],
                None => !self.locator().contains_key(order_id),
            },
    {
        self.order_map.get(order_id)
    }

    /// Whether `order_id` rests in the book.
    pub fn contains_order(&self, order_id: u64) -> (r: bool)
        ensures
            r == self.locator().contains_key(order_id),
    {
        self.order_map.contains_key(order_id)
    }

    /// Drops the locator entry of `order_id` and nothing else.
    pub fn remove_order_from_map(&mut self, order_id: u64)
        ensures
            final(self).locator() == old(self).locator().remove(order_id),
            final(self).levels(Side::Bid) == old(self).levels(Side::Bid),
            final(self).levels(Side::Ask) == old(self).levels(Side::Ask),
            final(self).spec_best_bid() == old(self).spec_best_bid(),
            final(self).spec_best_ask() == old(self).spec_best_ask(),
    {
        self.order_map.remove(order_id);
    }

    /// The number of resting orders.
    pub fn order_count(&self) -> (r: usize)
        ensures
            r == self.locator().dom().len(),
    {
        self.order_map.len()
    }

    /// The number of bid levels.
    pub fn bid_levels(&self) -> (r: usize)
        ensures
            r == self.levels(Side::Bid).dom().len(),
    {
        self.bids.len()
    }

    /// The number of ask levels.
    pub fn ask_levels(&self) -> (r: usize)
        ensures
            r == self.levels(Side::Ask).dom().len(),
    {
        self.asks.len()
    }

    /// Whether no order rests.
    pub fn is_empty(&self) -> (r: bool)
        ensures
            r == (self.locator().dom().len() == 0),
    {
        self.order_map.len() == 0
    }

    /// Removes every level and locator entry.
    pub fn clear(&mut self)
        ensures
            final(self).levels(Side::Bid) == Map::<u64, PriceLevel>::empty(),
            final(self).levels(Side::Ask) == Map::<u64, PriceLevel>::empty(),
            final(self).locator() == Map::<u64, OrderInfo>::empty(),
            final(self).spec_best_bid() is None,
            final(self).spec_best_ask() is None,
    {
        self.bids.clear();
        self.asks.clear();
        self.best_bid = None;
        self.best_ask = None;
        self.order_map.clear();
    }

    /// Best ask minus best bid, when both exist and the ask is higher.
    pub fn spread(&self) -> (r: Option<u64>)
        ensures
            r == (match (self.spec_best_bid(), self.spec_best_ask()) {
                (Some(b), Some(a)) => if a > b { Some((a - b) as u64) } else { None },
                _ => None,
            }),
    {
        match (self.best_bid, self.best_ask) {
            (Some(bid), Some(ask)) => if ask > bid { Some(ask - bid) } else { None },
            _ => None,
        }
    }

    /// Total quantity and order count at a level; `(0, 0)` when absent.
    pub open spec fn spec_depth(&self, side: Side, price: u64) -> (u64, u32) {
        if self.levels(side).contains_key(price) {
            (self.levels(side)[price].total_qty, self.levels(side)[price].count)
        } else {
            (0u64, 0u32)
        }
    }

    /// Total quantity and order count at a level; `(0, 0)` when absent.
    pub fn depth_at(&self, side: Side, price: u64) -> (r: (u64, u32))
        ensures
            r == self.spec_depth(side, price),
    {
        match self.get_level(side, price) {
            Some(l) => (l.total_qty, l.count),
            None => (0, 0),
        }
    }
}

impl Default for OrderBook {
    /// An empty book.
    fn default() -> (r: Self)
        ensures
            r.levels(Side::Bid) == Map::<u64, PriceLevel>::empty(),
            r.levels(Side::Ask) == Map::<u64, PriceLevel>::empty(),
            r.locator() == Map::<u64, OrderInfo>::empty(),
            r.spec_best_bid() is None,
            r.spec_best_ask() is None,
    {
        OrderBook::new()
    }
}

} // verus!
