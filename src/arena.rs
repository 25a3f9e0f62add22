//! Fixed-capacity slab of order records with an intrusive free list.
//!
//! Free records are chained through their `next` field; allocation pops
//! the head of that chain and freeing pushes onto it, both in O(1).
use vstd::prelude::*;
use vstd::set_lib::*;

verus! {

/// Sentinel index meaning "no record".
pub const NULL_INDEX: u32 = 4294967295u32;

/// Index of a record in the arena.
pub type ArenaIndex = u32;

/// One resting order: price, remaining quantity, identity and FIFO links.
#[derive(Clone, Copy, Debug)]
pub struct OrderNode {
    /// Fixed-point price.
    pub price: u64,
    /// Remaining unfilled quantity.
    pub qty: u32,
    /// External, caller-assigned order id.
    pub order_id: u64,
    /// Attribution tag of the order's owner.
    pub user_id: u64,
    /// Next record in the FIFO or the free list.
    pub next: ArenaIndex,
    /// Previous record in the FIFO.
    pub prev: ArenaIndex,
    /// Padding that fills the record up to one cache line.
    pub _reserved: [u8; 24],
}

impl OrderNode {
    /// The same record with both links cleared.
    pub open spec fn unlinked(self) -> OrderNode {
        OrderNode { next: NULL_INDEX, prev: NULL_INDEX, ..self }
    }

    /// Whether two records agree on everything but their links.
    pub open spec fn same_payload(self, other: OrderNode) -> bool {
        &&& self.price == other.price
        &&& self.qty == other.qty
        &&& self.order_id == other.order_id
        &&& self.user_id == other.user_id
    }

    /// A fresh, unlinked record holding the given order.
    pub fn new(order_id: u64, user_id: u64, price: u64, qty: u32) -> (r: Self)
        ensures
            r.order_id == order_id,
            r.user_id == user_id,
            r.price == price,
            r.qty == qty,
            r.next == NULL_INDEX,
            r.prev == NULL_INDEX,
    {
        OrderNode { price, qty, order_id, user_id, next: NULL_INDEX, prev: NULL_INDEX, _reserved: [0u8; 24] }
    }

    /// An all-zero, unlinked record.
    pub fn empty() -> (r: Self)
        ensures
            r.order_id == 0,
            r.user_id == 0,
            r.price == 0,
            r.qty == 0,
            r.next == NULL_INDEX,
            r.prev == NULL_INDEX,
    {
        OrderNode { price: 0, qty: 0, order_id: 0, user_id: 0, next: NULL_INDEX, prev: NULL_INDEX, _reserved: [0u8; 24] }
    }

    /// Clears the order data and the links, keeping the padding.
    pub fn reset(&mut self)
        ensures
            final(self).order_id == 0,
            final(self).user_id == 0,
            final(self).price == 0,
            final(self).qty == 0,
            final(self).next == NULL_INDEX,
            final(self).prev == NULL_INDEX,
            final(self)._reserved == old(self)._reserved,
    {
        self.price = 0;
        self.qty = 0;
        self.order_id = 0;
        self.user_id = 0;
        self.next = NULL_INDEX;
        self.prev = NULL_INDEX;
    }
}

/// A distinct sequence of indices below `n` has at most `n` entries.
pub proof fn lemma_distinct_below(s: Seq<u32>, n: nat)
    requires
        s.no_duplicates(),
        forall|k: int| 0 <= k < s.len() ==> (s[k] as int) < n,
    ensures
        s.len() <= n,
{
    let m = s.map_values(|x: u32| x as int);
    assert(m.no_duplicates()) by {
        assert forall|i: int, j: int| 0 <= i < m.len() && 0 <= j < m.len() && i != j implies m[i] != m[j] by {
            assert(s[i] != s[j]);
        }
    }
    m.unique_seq_to_set();
    lemma_int_range(0, n as int);
    assert(m.to_set().subset_of(set_int_range(0, n as int))) by {
        assert forall|x: int| m.to_set().contains(x) implies set_int_range(0, n as int).contains(x) by {
            let k = choose|k: int| 0 <= k < m.len() && m[k] == x;
            assert(s[k] < n);
        }
    }
    lemma_len_subset(m.to_set(), set_int_range(0, n as int));
}

/// Pool of `capacity` order records with O(1) allocation and release.
pub struct Arena {
    nodes: Vec<OrderNode>,
    free_head: ArenaIndex,
    allocated_count: u32,
    capacity: u32,
    free_list: Ghost<Seq<ArenaIndex>>,
}

impl Arena {
    /// The records, indexed by arena index.
    pub closed spec fn spec_nodes(&self) -> Seq<OrderNode> {
        self.nodes@
    }

    /// The free indices, in the order in which `alloc` hands them out.
    pub closed spec fn spec_free(&self) -> Seq<ArenaIndex> {
        self.free_list@
    }

    /// The head of the free chain.
    pub closed spec fn spec_free_head(&self) -> ArenaIndex {
        self.free_head
    }

    /// The number of records handed out and not yet released.
    pub closed spec fn spec_allocated(&self) -> nat {
        self.allocated_count as nat
    }

    /// The number of records.
    pub closed spec fn spec_capacity(&self) -> nat {
        self.capacity as nat
    }

    /// Whether index `i` sits on the free list.
    pub open spec fn is_free(&self, i: ArenaIndex) -> bool {
        self.spec_free().contains(i)
    }

    /// Whether index `i` is a record that is handed out.
    pub open spec fn is_live(&self, i: ArenaIndex) -> bool {
        (i as nat) < self.spec_capacity() && !self.is_free(i)
    }

    /// The free list is a chain through `next`, starting at the free head.
    pub open spec fn free_chain_ok(&self) -> bool {
        let f = self.spec_free();
        let n = self.spec_nodes();
        &&& f.no_duplicates()
        &&& forall|k: int| 0 <= k < f.len() ==> (#[trigger] f[k] as nat) < self.spec_capacity()
        &&& forall|k: int|
            0 <= k < f.len() ==> (#[trigger] n[f[k] as int]).next == (if k + 1 < f.len() {
                f[k + 1]
            } else {
                NULL_INDEX
            })
        &&& self.spec_free_head() == (if f.len() > 0 { f[0] } else { NULL_INDEX })
    }

    /// Well-formedness: sizes agree, the capacity stays below the sentinel,
    /// allocated plus free records make up the capacity, and the free chain
    /// is intact.
    pub open spec fn wf(&self) -> bool {
        &&& self.spec_nodes().len() == self.spec_capacity()
        &&& self.spec_capacity() < NULL_INDEX
        &&& self.spec_allocated() + self.spec_free().len() == self.spec_capacity()
        &&& self.free_chain_ok()
    }

    /// Slab conservation: allocated plus free records equal the capacity.
    pub proof fn lemma_conservation(&self)
        requires
            self.wf(),
        ensures
            self.spec_allocated() + self.spec_free().len() == self.spec_capacity(),
            self.spec_free().len() <= self.spec_capacity(),
    {
    }

    /// An arena of `capacity` free records.
    #[verifier::spinoff_prover]
    pub fn new(capacity: u32) -> (r: Self)
        requires
            capacity < NULL_INDEX,
        ensures
            r.wf(),
            r.spec_capacity() == capacity,
            r.spec_allocated() == 0,
            r.spec_free() == Seq::new(capacity as nat, |k: int| k as ArenaIndex),
            forall|j: int|
                0 <= j < capacity ==> {
                    &&& (#[trigger] r.spec_nodes()[j]).order_id == 0
                    &&& r.spec_nodes()[j].user_id == 0
                    &&& r.spec_nodes()[j].price == 0
                    &&& r.spec_nodes()[j].qty == 0
                    &&& r.spec_nodes()[j].prev == NULL_INDEX
                },
    {
        let mut nodes: Vec<OrderNode> = Vec::new();
        let mut i: u32 = 0;
        while i < capacity
            invariant
                i <= capacity,
                capacity < NULL_INDEX,
                nodes@.len() == i,
                forall|k: int| 0 <= k < i ==> (#[trigger] nodes@[k]).next == (if k + 1 < capacity {
                    (k + 1) as u32
                } else {
                    NULL_INDEX
                }),
                forall|k: int|
                    0 <= k < i ==> {
                        &&& (#[trigger] nodes@[k]).order_id == 0
                        &&& nodes@[k].user_id == 0
                        &&& nodes@[k].price == 0
                        &&& nodes@[k].qty == 0
                        &&& nodes@[k].prev == NULL_INDEX
                    },
            decreases capacity - i,
        {
            let mut node = OrderNode::empty();
            if i + 1 < capacity {
                node.next = i + 1;
            }
            nodes.push(node);
            i = i + 1;
        }
        let ghost f = Seq::new(capacity as nat, |k: int| k as ArenaIndex);
        let r = Arena {
            nodes,
            free_head: if capacity > 0 { 0 } else { NULL_INDEX },
            allocated_count: 0,
            capacity,
            free_list: Ghost(f),
        };
        assert(r.free_chain_ok()) by {
            assert forall|k: int| 0 <= k < f.len() implies (#[trigger] r.spec_nodes()[f[k] as int]).next == (
            if k + 1 < f.len() {
                f[k + 1]
            } else {
                NULL_INDEX
            }) by {
                assert(f[k] == k);
            }
        }
        r
    }

    /// Takes the head of the free list, with its links cleared.
    #[verifier::spinoff_prover]
    pub fn allocate(&mut self) -> (r: Option<ArenaIndex>)
        requires
            old(self).wf(),
        ensures
            final(self).wf(),
            final(self).spec_capacity() == old(self).spec_capacity(),
            old(self).spec_free().len() == 0 ==> r is None && *final(self) == *old(self),
            old(self).spec_free().len() > 0 ==> {
                let i = old(self).spec_free()[0];
                &&& r == Some(i)
                &&& final(self).spec_free() == old(self).spec_free().drop_first()
                &&& final(self).spec_allocated() == old(self).spec_allocated() + 1
                &&& final(self).spec_nodes() == old(self).spec_nodes().update(
                    i as int,
                    old(self).spec_nodes()[i as int].unlinked(),
                )
            },
    {
        if self.free_head == NULL_INDEX {
            return None;
        }
        let index = self.free_head;
        let ghost f = self.free_list@;
        assert(f[0] == index);
        self.free_head = self.nodes[index as usize].next;
        self.allocated_count = self.allocated_count + 1;
        let mut node = self.nodes[index as usize];
        node.next = NULL_INDEX;
        node.prev = NULL_INDEX;
        self.nodes.set(index as usize, node);
        self.free_list = Ghost(f.drop_first());
        assert(self.free_chain_ok()) by {
            let g = f.drop_first();
            assert forall|k: int| 0 <= k < g.len() implies (#[trigger] self.nodes@[g[k] as int]).next == (
            if k + 1 < g.len() {
                g[k + 1]
            } else {
                NULL_INDEX
            }) by {
                assert(g[k] == f[k + 1]);
                assert(f[k + 1] != f[0]);
            }
        }
        Some(index)
    }

    /// Resets record `index` and pushes it onto the free list.
    #[verifier::spinoff_prover]
    pub fn free(&mut self, index: ArenaIndex)
        requires
            old(self).wf(),
            old(self).is_live(index),
        ensures
            final(self).wf(),
            final(self).spec_capacity() == old(self).spec_capacity(),
            final(self).spec_free() == seq![index].add(old(self).spec_free()),
            final(self).spec_allocated() + 1 == old(self).spec_allocated(),
            final(self).spec_nodes() == old(self).spec_nodes().update(
                index as int,
                final(self).spec_nodes()[index as int],
            ),
            final(self).spec_nodes()[index as int].qty == 0,
            final(self).spec_nodes()[index as int].order_id == 0,
            final(self).spec_nodes()[index as int].user_id == 0,
            final(self).spec_nodes()[index as int].price == 0,
            final(self).spec_nodes()[index as int].prev == NULL_INDEX,
            final(self).spec_nodes()[index as int].next == old(self).spec_free_head(),
    {
        let ghost f = self.free_list@;
        let ghost g = seq![index].add(f);
        proof {
            assert(g.no_duplicates()) by {
                assert forall|i: int, j: int| 0 <= i < g.len() && 0 <= j < g.len() && i != j implies g[i] != g[j] by {
                    if i > 0 && j > 0 {
                        assert(g[i] == f[i - 1] && g[j] == f[j - 1]);
                    } else if i == 0 {
                        assert(g[j] == f[j - 1]);
                    } else {
                        assert(g[i] == f[i - 1]);
                    }
                }
            }
            assert forall|k: int| 0 <= k < g.len() implies (g[k] as int) < self.capacity by {
                if k > 0 {
                    assert(g[k] == f[k - 1]);
                }
            }
            lemma_distinct_below(g, self.capacity as nat);
        }
        let mut node = self.nodes[index as usize];
        node.reset();
        node.next = self.free_head;
        self.nodes.set(index as usize, node);
        self.free_head = index;
        self.allocated_count = self.allocated_count - 1;
        self.free_list = Ghost(g);
        assert(self.free_chain_ok()) by {
            assert forall|k: int| 0 <= k < g.len() implies (#[trigger] self.nodes@[g[k] as int]).next == (
            if k + 1 < g.len() {
                g[k + 1]
            } else {
                NULL_INDEX
            }) by {
                if k > 0 {
                    assert(g[k] == f[k - 1]);
                    assert(f[k - 1] != index);
                }
            }
        }
    }

    /// The record at `index`.
    pub fn get(&self, index: ArenaIndex) -> (r: &OrderNode)
        requires
            (index as nat) < self.spec_capacity(),
            self.wf(),
        ensures
            *r == self.spec_nodes()[index as int],
    {
        &self.nodes[index as usize]
    }

    /// Mutable access to the record at `index`. Writes to a handed-out record
    /// keep the arena well-formed.
    pub fn get_mut(&mut self, index: ArenaIndex) -> (r: &mut OrderNode)
        requires
            (index as nat) < old(self).spec_capacity(),
            old(self).wf(),
        ensures
            *r == old(self).spec_nodes()[index as int],
            final(self).spec_nodes() == old(self).spec_nodes().update(index as int, *final(r)),
            final(self).spec_free() == old(self).spec_free(),
            final(self).spec_free_head() == old(self).spec_free_head(),
            final(self).spec_allocated() == old(self).spec_allocated(),
            final(self).spec_capacity() == old(self).spec_capacity(),
    {
        &mut self.nodes[index as usize]
    }

    /// Sets the `next` link of a handed-out record.
    pub(crate) fn set_next(&mut self, index: ArenaIndex, next: ArenaIndex)
        requires
            old(self).wf(),
            old(self).is_live(index),
        ensures
            final(self).wf(),
            final(self).spec_nodes() == old(self).spec_nodes().update(
                index as int,
                OrderNode { next, ..old(self).spec_nodes()[index as int] },
            ),
            final(self).spec_free() == old(self).spec_free(),
            final(self).spec_allocated() == old(self).spec_allocated(),
            final(self).spec_capacity() == old(self).spec_capacity(),
    {
        let mut node = self.nodes[index as usize];
        node.next = next;
        self.nodes.set(index as usize, node);
    }

    /// Sets the `prev` link of a handed-out record.
    pub(crate) fn set_prev(&mut self, index: ArenaIndex, prev: ArenaIndex)
        requires
            old(self).wf(),
            old(self).is_live(index),
        ensures
            final(self).wf(),
            final(self).spec_nodes() == old(self).spec_nodes().update(
                index as int,
                OrderNode { prev, ..old(self).spec_nodes()[index as int] },
            ),
            final(self).spec_free() == old(self).spec_free(),
            final(self).spec_allocated() == old(self).spec_allocated(),
            final(self).spec_capacity() == old(self).spec_capacity(),
    {
        let mut node = self.nodes[index as usize];
        node.prev = prev;
        self.nodes.set(index as usize, node);
    }

    /// Overwrites the order data of a handed-out record, keeping its links.
    pub(crate) fn set_order(&mut self, index: ArenaIndex, order_id: u64, user_id: u64, price: u64, qty: u32)
        requires
            old(self).wf(),
            old(self).is_live(index),
        ensures
            final(self).wf(),
            final(self).spec_nodes() == old(self).spec_nodes().update(
                index as int,
                OrderNode { order_id, user_id, price, qty, ..old(self).spec_nodes()[index as int] },
            ),
            final(self).spec_free() == old(self).spec_free(),
            final(self).spec_allocated() == old(self).spec_allocated(),
            final(self).spec_capacity() == old(self).spec_capacity(),
    {
        let mut node = self.nodes[index as usize];
        node.order_id = order_id;
        node.user_id = user_id;
        node.price = price;
        node.qty = qty;
        self.nodes.set(index as usize, node);
    }

    /// Writes every record's padding once, so that all pages of the arena
    /// are touched before the hot path; no order data or link changes.
    pub fn warm_up(&mut self)
        requires
            old(self).wf(),
        ensures
            final(self).wf(),
            final(self).spec_free() == old(self).spec_free(),
            final(self).spec_allocated() == old(self).spec_allocated(),
            final(self).spec_capacity() == old(self).spec_capacity(),
            final(self).spec_nodes().len() == old(self).spec_nodes().len(),
            forall|j: int|
                0 <= j < old(self).spec_nodes().len() ==> (#[trigger] final(self).spec_nodes()[j]).same_payload(
                    old(self).spec_nodes()[j],
                ) && final(self).spec_nodes()[j].next == old(self).spec_nodes()[j].next
                    && final(self).spec_nodes()[j].prev == old(self).spec_nodes()[j].prev,
    {
        let ghost n0 = self.nodes@;
        let mut i: usize = 0;
        while i < self.nodes.len()
            invariant
                i <= self.nodes@.len(),
                self.nodes@.len() == n0.len(),
                self.free_head == old(self).free_head,
                self.free_list == old(self).free_list,
                self.allocated_count == old(self).allocated_count,
                self.capacity == old(self).capacity,
                forall|j: int|
                    0 <= j < n0.len() ==> (#[trigger] self.nodes@[j]).same_payload(n0[j]) && self.nodes@[j].next
                        == n0[j].next && self.nodes@[j].prev == n0[j].prev,
            decreases self.nodes@.len() - i,
        {
            let mut node = self.nodes[i];
            node._reserved = [0u8; 24];
            self.nodes.set(i, node);
            i = i + 1;
        }
        proof {
            assert forall|k: int| 0 <= k < self.free_list@.len() implies (#[trigger] self.nodes@[self.free_list@[k] as int]).next == (
            if k + 1 < self.free_list@.len() {
                self.free_list@[k + 1]
            } else {
                NULL_INDEX
            }) by {
                assert(old(self).free_chain_ok());
                assert(n0[self.free_list@[k] as int].next == self.nodes@[self.free_list@[k] as int].next);
            }
        }
    }

    /// Number of records handed out.
    pub fn allocated(&self) -> (r: u32)
        ensures
            r == self.spec_allocated(),
    {
        self.allocated_count
    }

    /// Number of records in the arena.
    pub fn capacity(&self) -> (r: u32)
        ensures
            r == self.spec_capacity(),
    {
        self.capacity
    }

    /// Whether no record is handed out.
    pub fn is_empty(&self) -> (r: bool)
        ensures
            r == (self.spec_allocated() == 0),
    {
        self.allocated_count == 0
    }

    /// Whether every record is handed out.
    pub fn is_full(&self) -> (r: bool)
        requires
            self.wf(),
        ensures
            r == (self.spec_free().len() == 0),
    {
        self.free_head == NULL_INDEX
    }
}

} // verus!
