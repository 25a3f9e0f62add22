//! A FIFO queue of orders at one price, linked through arena indices.
//!
//! The queue is doubly linked so that any member can be unlinked in O(1);
//! the level also keeps the member count and their total quantity.
use crate::arena::{Arena, ArenaIndex, OrderNode, NULL_INDEX};
use vstd::prelude::*;

verus! {

/// Sum of the quantities of the records at the indices `f`.
pub open spec fn sum_qty(nodes: Seq<OrderNode>, f: Seq<ArenaIndex>) -> int
    decreases f.len(),
{
    if f.len() == 0 {
        0
    } else {
        sum_qty(nodes, f.drop_last()) + nodes[f.last() as int].qty
    }
}

/// The sum only reads the quantities of the listed records.
pub proof fn lemma_sum_frame(n1: Seq<OrderNode>, n2: Seq<OrderNode>, f: Seq<ArenaIndex>)
    requires
        forall|k: int| 0 <= k < f.len() ==> n1[#[trigger] f[k] as int].qty == n2[f[k] as int].qty,
    ensures
        sum_qty(n1, f) == sum_qty(n2, f),
    decreases f.len(),
{
    if f.len() > 0 {
        let g = f.drop_last();
        assert forall|k: int| 0 <= k < g.len() implies n1[#[trigger] g[k] as int].qty == n2[g[k] as int].qty by {
            assert(g[k] == f[k]);
        }
        lemma_sum_frame(n1, n2, g);
    }
}

/// Taking one entry out of the list takes its quantity out of the sum.
pub proof fn lemma_sum_remove(nodes: Seq<OrderNode>, f: Seq<ArenaIndex>, p: int)
    requires
        0 <= p < f.len(),
    ensures
        sum_qty(nodes, f) == sum_qty(nodes, f.remove(p)) + nodes[f[p] as int].qty,
    decreases f.len(),
{
    if p < f.len() - 1 {
        let g = f.remove(p);
        assert(g.drop_last() =~= f.drop_last().remove(p));
        assert(g.last() == f.last());
        lemma_sum_remove(nodes, f.drop_last(), p);
    } else {
        assert(f.remove(p) =~= f.drop_last());
    }
}

/// Each record holds at most `u32::MAX` units.
pub proof fn lemma_sum_bound(nodes: Seq<OrderNode>, f: Seq<ArenaIndex>)
    ensures
        0 <= sum_qty(nodes, f) <= f.len() * 4294967295,
    decreases f.len(),
{
    if f.len() > 0 {
        lemma_sum_bound(nodes, f.drop_last());
    }
}

/// A level's shape depends only on the records of its members.
pub proof fn lemma_wf_in_frame(l: PriceLevel, n0: Seq<OrderNode>, n1: Seq<OrderNode>)
    requires
        l.wf_in(n0),
        n1.len() == n0.len(),
        forall|k: int|
            0 <= k < l.fifo().len() ==> {
                &&& n1[#[trigger] l.fifo()[k] as int].next == n0[l.fifo()[k] as int].next
                &&& n1[l.fifo()[k] as int].prev == n0[l.fifo()[k] as int].prev
                &&& n1[l.fifo()[k] as int].qty == n0[l.fifo()[k] as int].qty
            },
    ensures
        l.wf_in(n1),
{
    let f = l.fifo();
    assert forall|k: int| 0 <= k < f.len() implies n0[#[trigger] f[k] as int].qty == n1[f[k] as int].qty by {
        assert(n1[f[k] as int].qty == n0[f[k] as int].qty);
    }
    lemma_sum_frame(n0, n1, f);
    assert forall|k: int| 0 <= k < f.len() implies {
        &&& (#[trigger] n1[f[k] as int]).next == (if k + 1 < f.len() {
            f[k + 1]
        } else {
            NULL_INDEX
        })
        &&& n1[f[k] as int].prev == (if k > 0 {
            f[k - 1]
        } else {
            NULL_INDEX
        })
    } by {
        assert(n1[f[k] as int].next == n0[f[k] as int].next);
    }
}

/// Changing the quantity of one member changes the level's sum by the
/// same amount.
pub proof fn lemma_sum_update_qty(n0: Seq<OrderNode>, n1: Seq<OrderNode>, f: Seq<ArenaIndex>, p: int)
    requires
        0 <= p < f.len(),
        f.no_duplicates(),
        forall|k: int| 0 <= k < f.len() && k != p ==> n1[#[trigger] f[k] as int].qty == n0[f[k] as int].qty,
    ensures
        sum_qty(n1, f) == sum_qty(n0, f) - n0[f[p] as int].qty + n1[f[p] as int].qty,
{
    lemma_sum_remove(n0, f, p);
    lemma_sum_remove(n1, f, p);
    let g = f.remove(p);
    assert forall|k: int| 0 <= k < g.len() implies n1[#[trigger] g[k] as int].qty == n0[g[k] as int].qty by {
        let fk = if k < p { k } else { k + 1 };
        assert(g[k] == f[fk]);
    }
    lemma_sum_frame(n0, n1, g);
}

/// Two record sequences of one length that differ at most in the links of
/// the records in `s`.
pub open spec fn links_changed_within(n1: Seq<OrderNode>, n2: Seq<OrderNode>, s: Set<ArenaIndex>) -> bool {
    &&& n1.len() == n2.len()
    &&& forall|j: int| 0 <= j < n1.len() ==> (#[trigger] n2[j]).same_payload(n1[j])
    &&& forall|j: int| 0 <= j < n1.len() && !s.contains(j as ArenaIndex) ==> #[trigger] n2[j] == n1[j]
}

/// The orders resting at one price, oldest first.
#[derive(Clone, Copy)]
pub struct PriceLevel {
    /// Oldest order (first to match), or `NULL_INDEX`.
    pub head: ArenaIndex,
    /// Newest order, or `NULL_INDEX`.
    pub tail: ArenaIndex,
    /// Total remaining quantity of the orders at this level.
    pub total_qty: u64,
    /// Number of orders at this level.
    pub count: u32,
    /// The arena indices of the queue, from head to tail.
    pub orders: Ghost<Seq<ArenaIndex>>,
}

impl PriceLevel {
    /// The arena indices of the queue, from head to tail.
    pub open spec fn fifo(&self) -> Seq<ArenaIndex> {
        self.orders@
    }

    /// The queue is a doubly linked chain through `nodes` from `head` to
    /// `tail`; `count` is its length and `total_qty` the sum of its
    /// quantities.
    pub open spec fn wf_in(&self, nodes: Seq<OrderNode>) -> bool {
        let f = self.fifo();
        &&& f.len() == self.count
        &&& f.no_duplicates()
        &&& nodes.len() < NULL_INDEX
        &&& forall|k: int| 0 <= k < f.len() ==> (#[trigger] f[k] as int) < nodes.len()
        &&& f.len() == 0 ==> self.head == NULL_INDEX && self.tail == NULL_INDEX
        &&& f.len() > 0 ==> self.head == f[0] && self.tail == f.last()
        &&& forall|k: int|
            0 <= k < f.len() ==> {
                &&& (#[trigger] nodes[f[k] as int]).next == (if k + 1 < f.len() {
                    f[k + 1]
                } else {
                    NULL_INDEX
                })
                &&& nodes[f[k] as int].prev == (if k > 0 {
                    f[k - 1]
                } else {
                    NULL_INDEX
                })
            }
        &&& self.total_qty == sum_qty(nodes, f)
    }

    /// Every member of the queue is a handed-out record of `arena`.
    pub open spec fn members_live(&self, arena: &Arena) -> bool {
        forall|k: int| 0 <= k < self.fifo().len() ==> arena.is_live(#[trigger] self.fifo()[k])
    }

    /// The level with no orders.
    pub open spec fn empty_spec() -> PriceLevel {
        PriceLevel { head: NULL_INDEX, tail: NULL_INDEX, total_qty: 0, count: 0, orders: Ghost(Seq::empty()) }
    }

    /// A level with no orders.
    pub fn new() -> (r: Self)
        ensures
            r == PriceLevel::empty_spec(),
            r.fifo() == Seq::<ArenaIndex>::empty(),
            r.head == NULL_INDEX,
            r.tail == NULL_INDEX,
            r.total_qty == 0,
            r.count == 0,
    {
        PriceLevel { head: NULL_INDEX, tail: NULL_INDEX, total_qty: 0, count: 0, orders: Ghost(Seq::empty()) }
    }

    /// Whether the level holds no order.
    pub fn is_empty(&self) -> (r: bool)
        ensures
            r == (self.count == 0),
    {
        self.count == 0
    }

    /// The oldest order, or `NULL_INDEX` when the level is empty.
    pub fn peek_head(&self) -> (r: ArenaIndex)
        ensures
            r == self.head,
    {
        self.head
    }

    /// Appends record `index` after the current tail.
    #[verifier::spinoff_prover]
    pub fn push_back(&mut self, arena: &mut Arena, index: ArenaIndex)
        requires
            old(arena).wf(),
            old(self).wf_in(old(arena).spec_nodes()),
            old(self).members_live(old(arena)),
            old(arena).is_live(index),
            !old(self).fifo().contains(index),
        ensures
            final(self).fifo() == old(self).fifo().push(index),
            final(self).wf_in(final(arena).spec_nodes()),
            final(self).members_live(final(arena)),
            final(self).count == old(self).count + 1,
            final(self).total_qty == old(self).total_qty + old(arena).spec_nodes()[index as int].qty,
            final(arena).wf(),
            final(arena).spec_free() == old(arena).spec_free(),
            final(arena).spec_allocated() == old(arena).spec_allocated(),
            final(arena).spec_capacity() == old(arena).spec_capacity(),
            links_changed_within(
                old(arena).spec_nodes(),
                final(arena).spec_nodes(),
                old(self).fifo().to_set().insert(index),
            ),
    {
        let ghost f = self.orders@;
        let ghost n0 = arena.spec_nodes();
        let ghost g = f.push(index);
        proof {
            assert(g.no_duplicates()) by {
                assert forall|i: int, j: int| 0 <= i < g.len() && 0 <= j < g.len() && i != j implies g[i] != g[j] by {
                    if i < f.len() && j < f.len() {
                        assert(g[i] == f[i] && g[j] == f[j]);
                    } else if i < f.len() {
                        assert(g[i] == f[i]);
                    } else {
                        assert(g[j] == f[j]);
                    }
                }
            }
            assert forall|k: int| 0 <= k < g.len() implies (g[k] as int) < arena.spec_capacity() by {
                if k < f.len() {
                    assert(g[k] == f[k]);
                }
            }
            crate::arena::lemma_distinct_below(g, arena.spec_capacity());
            lemma_sum_bound(n0, f);
            assert(f.len() * 4294967295 <= 4294967294 * 4294967295) by (nonlinear_arith)
                requires
                    f.len() <= 4294967294,
            ;
        }
        let qty = arena.get(index).qty;
        if self.tail == NULL_INDEX {
            self.head = index;
            self.tail = index;
            arena.set_prev(index, NULL_INDEX);
            arena.set_next(index, NULL_INDEX);
        } else {
            let old_tail = self.tail;
            assert(f[f.len() - 1] == old_tail);
            arena.set_next(old_tail, index);
            arena.set_prev(index, old_tail);
            arena.set_next(index, NULL_INDEX);
            self.tail = index;
        }
        self.count = self.count + 1;
        self.total_qty = self.total_qty + qty as u64;
        self.orders = Ghost(g);
        proof {
            let n1 = arena.spec_nodes();
            assert(g.drop_last() =~= f);
            lemma_sum_frame(n0, n1, f);
            assert forall|k: int| 0 <= k < g.len() implies {
                &&& (#[trigger] n1[g[k] as int]).next == (if k + 1 < g.len() {
                    g[k + 1]
                } else {
                    NULL_INDEX
                })
                &&& n1[g[k] as int].prev == (if k > 0 {
                    g[k - 1]
                } else {
                    NULL_INDEX
                })
            } by {
                if k < f.len() {
                    assert(g[k] == f[k]);
                    if k + 1 < f.len() {
                        assert(g[k + 1] == f[k + 1]);
                    }
                    if k > 0 {
                        assert(g[k - 1] == f[k - 1]);
                    }
                }
            }
            assert(links_changed_within(n0, n1, f.to_set().insert(index))) by {
                assert forall|j: int| 0 <= j < n0.len() && !f.to_set().insert(index).contains(j as ArenaIndex) implies #[trigger] n1[j] == n0[j] by {
                    if f.len() > 0 {
                        assert(f.to_set().contains(f.last()));
                    }
                }
            }
            assert forall|k: int| 0 <= k < g.len() implies arena.is_live(#[trigger] g[k]) by {
                if k < f.len() {
                    assert(g[k] == f[k]);
                }
            }
        }
    }

    /// Unlinks record `index`, which must be a member, from anywhere in the
    /// queue and clears its links; the record stays allocated. Returns
    /// whether the level became empty.
    #[verifier::rlimit(60)]
    #[verifier::spinoff_prover]
    pub fn remove(&mut self, arena: &mut Arena, index: ArenaIndex) -> (r: bool)
        requires
            old(arena).wf(),
            old(self).wf_in(old(arena).spec_nodes()),
            old(self).members_live(old(arena)),
            old(self).fifo().contains(index),
        ensures
            final(self).fifo() == old(self).fifo().remove(old(self).fifo().index_of(index)),
            final(self).wf_in(final(arena).spec_nodes()),
            final(self).members_live(final(arena)),
            final(self).count == old(self).count - 1,
            final(self).total_qty == old(self).total_qty - old(arena).spec_nodes()[index as int].qty,
            r == (final(self).count == 0),
            final(arena).wf(),
            final(arena).spec_free() == old(arena).spec_free(),
            final(arena).spec_allocated() == old(arena).spec_allocated(),
            final(arena).spec_capacity() == old(arena).spec_capacity(),
            final(arena).spec_nodes()[index as int] == old(arena).spec_nodes()[index as int].unlinked(),
            links_changed_within(old(arena).spec_nodes(), final(arena).spec_nodes(), old(self).fifo().to_set()),
    {
        let ghost f = self.orders@;
        let ghost n0 = arena.spec_nodes();
        let ghost p = f.index_of(index);
        let ghost g = f.remove(p);
        proof {
            assert(f[p] == index);
            lemma_sum_remove(n0, f, p);
            lemma_sum_bound(n0, g);
            assert(g.no_duplicates()) by {
                assert forall|i: int, j: int| 0 <= i < g.len() && 0 <= j < g.len() && i != j implies g[i] != g[j] by {
                    let fi = if i < p { i } else { i + 1 };
                    let fj = if j < p { j } else { j + 1 };
                    assert(g[i] == f[fi] && g[j] == f[fj]);
                }
            }
        }
        let node = arena.get(index);
        let prev_idx = node.prev;
        let next_idx = node.next;
        let qty = node.qty;
        if prev_idx == NULL_INDEX && next_idx == NULL_INDEX {
            self.head = NULL_INDEX;
            self.tail = NULL_INDEX;
        } else if prev_idx == NULL_INDEX {
            assert(f[p + 1] == next_idx);
            self.head = next_idx;
            arena.set_prev(next_idx, NULL_INDEX);
        } else if next_idx == NULL_INDEX {
            assert(f[p - 1] == prev_idx);
            self.tail = prev_idx;
            arena.set_next(prev_idx, NULL_INDEX);
        } else {
            assert(f[p + 1] == next_idx);
            assert(f[p - 1] == prev_idx);
            arena.set_next(prev_idx, next_idx);
            arena.set_prev(next_idx, prev_idx);
        }
        self.count = self.count - 1;
        self.total_qty = self.total_qty - qty as u64;
        arena.set_next(index, NULL_INDEX);
        arena.set_prev(index, NULL_INDEX);
        self.orders = Ghost(g);
        proof {
            let n1 = arena.spec_nodes();
            assert forall|k: int| 0 <= k < g.len() implies n0[#[trigger] g[k] as int].qty == n1[g[k] as int].qty by {
                let fk = if k < p { k } else { k + 1 };
                assert(g[k] == f[fk]);
            }
            lemma_sum_frame(n0, n1, g);
            assert forall|k: int| 0 <= k < g.len() implies {
                &&& (#[trigger] n1[g[k] as int]).next == (if k + 1 < g.len() {
                    g[k + 1]
                } else {
                    NULL_INDEX
                })
                &&& n1[g[k] as int].prev == (if k > 0 {
                    g[k - 1]
                } else {
                    NULL_INDEX
                })
            } by {
                let fk = if k < p { k } else { k + 1 };
                assert(g[k] == f[fk]);
                assert(f[fk] != index);
                if k + 1 < g.len() {
                    let fk1 = if k + 1 < p { k + 1 } else { k + 2 };
                    assert(g[k + 1] == f[fk1]);
                }
                if k > 0 {
                    let fkm = if k - 1 < p { k - 1 } else { k };
                    assert(g[k - 1] == f[fkm]);
                }
            }
            assert forall|k: int| 0 <= k < g.len() implies (#[trigger] g[k] as int) < n1.len() by {
                let fk = if k < p { k } else { k + 1 };
                assert(g[k] == f[fk]);
            }
            if g.len() > 0 {
                if p == 0 {
                    assert(g[0] == f[1]);
                } else {
                    assert(g[0] == f[0]);
                }
                if p == f.len() - 1 {
                    assert(g.last() == f[p - 1]);
                } else {
                    assert(g.last() == f.last());
                }
            }
            assert(links_changed_within(n0, n1, f.to_set())) by {
                assert(f.to_set().contains(f[p]));
                if p > 0 {
                    assert(f.to_set().contains(f[p - 1]));
                }
                if p + 1 < f.len() {
                    assert(f.to_set().contains(f[p + 1]));
                }
            }
            assert forall|k: int| 0 <= k < g.len() implies arena.is_live(#[trigger] g[k]) by {
                let fk = if k < p { k } else { k + 1 };
                assert(g[k] == f[fk]);
            }
        }
        self.count == 0
    }

    /// Detaches and returns the oldest order, clearing its links; the
    /// record stays allocated. `None` when the level is empty.
    pub fn pop_front(&mut self, arena: &mut Arena) -> (r: Option<ArenaIndex>)
        requires
            old(arena).wf(),
            old(self).wf_in(old(arena).spec_nodes()),
            old(self).members_live(old(arena)),
        ensures
            old(self).count == 0 ==> r is None && *final(self) == *old(self) && *final(arena) == *old(arena),
            old(self).count > 0 ==> {
                let i = old(self).fifo()[0];
                &&& r == Some(i)
                &&& final(self).fifo() == old(self).fifo().drop_first()
                &&& final(self).count == old(self).count - 1
                &&& final(self).total_qty == old(self).total_qty - old(arena).spec_nodes()[i as int].qty
                &&& final(arena).spec_nodes()[i as int] == old(arena).spec_nodes()[i as int].unlinked()
            },
            final(self).wf_in(final(arena).spec_nodes()),
            final(self).members_live(final(arena)),
            final(arena).wf(),
            final(arena).spec_free() == old(arena).spec_free(),
            final(arena).spec_allocated() == old(arena).spec_allocated(),
            final(arena).spec_capacity() == old(arena).spec_capacity(),
            links_changed_within(old(arena).spec_nodes(), final(arena).spec_nodes(), old(self).fifo().to_set()),
    {
        if self.head == NULL_INDEX {
            return None;
        }
        let index = self.head;
        proof {
            let f = self.orders@;
            assert(f.contains(index));
            assert(f.index_of(index) == 0) by {
                assert(f[0] == index);
            }
            assert(f.remove(0) =~= f.drop_first());
        }
        self.remove(arena, index);
        Some(index)
    }

    /// Lowers `total_qty` after the head order was partly filled in place.
    pub fn subtract_qty(&mut self, qty: u32)
        requires
            old(self).total_qty >= qty,
        ensures
            final(self).total_qty == old(self).total_qty - qty,
            final(self).head == old(self).head,
            final(self).tail == old(self).tail,
            final(self).count == old(self).count,
            final(self).fifo() == old(self).fifo(),
    {
        self.total_qty = self.total_qty - qty as u64;
    }
}

impl Default for PriceLevel {
    /// A level with no orders.
    fn default() -> (r: Self)
        ensures
            r == PriceLevel::empty_spec(),
    {
        PriceLevel::new()
    }
}

} // verus!
