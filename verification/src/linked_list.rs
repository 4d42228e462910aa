//! A doubly-linked list whose nodes live in a growable arena and are named by
//! integer indices instead of pointers. Detached nodes are kept on an
//! intrusive free chain, threaded through the `next` field, and are reused by
//! later pushes.

use vstd::prelude::*;

verus! {

/// Index type standing in for a node address within one list's arena.
pub type Ptr = u32;

/// Sentinel index meaning "no node".
pub const NULL: Ptr = 0xFFFF_FFFF;

/// One arena slot: a payload (`None` while the slot is on the free chain)
/// and the indices of the neighbouring nodes.
struct ListNode<T> {
    data: Option<T>,
    prev: Ptr,
    next: Ptr,
}

/// A doubly-linked list over a private arena.
///
/// The ghost fields carry the proof's picture of the arena: `order` is the
/// chain of occupied slots from front to rear, `free` the chain of detached
/// slots starting at `pool`.
pub struct LinkedList<T> {
    front: Ptr,
    rear: Ptr,
    memory: Vec<ListNode<T>>,
    pool: Ptr,
    length: usize,
    order: Ghost<Seq<Ptr>>,
    free: Ghost<Seq<Ptr>>,
}

impl<T> View for LinkedList<T> {
    type V = Seq<T>;

    /// The payloads of the list, front to rear.
    closed spec fn view(&self) -> Seq<T> {
        Seq::new(self.order@.len(), |i: int| self.memory@[self.order@[i] as int].data->0)
    }
}

impl<T> LinkedList<T> {
    /// The indices of the occupied slots, front to rear.
    pub closed spec fn ptrs(self) -> Seq<Ptr> {
        self.order@
    }

    /// The index of the front node, `NULL` when the list is empty.
    pub closed spec fn front_of(self) -> Ptr {
        self.front
    }

    /// The index of the rear node, `NULL` when the list is empty.
    pub closed spec fn rear_of(self) -> Ptr {
        self.rear
    }

    /// The index of the front node, `NULL` when the list is empty.
    pub fn front_ptr(&self) -> (r: Ptr)
        ensures
            r == self.front_of(),
            self.wf() ==> r == (if self.ptrs().len() == 0 {
                NULL
            } else {
                self.ptrs()[0]
            }),
    {
        self.front
    }

    /// The index of the rear node, `NULL` when the list is empty.
    pub fn rear_ptr(&self) -> (r: Ptr)
        ensures
            r == self.rear_of(),
            self.wf() ==> r == (if self.ptrs().len() == 0 {
                NULL
            } else {
                self.ptrs().last()
            }),
    {
        self.rear
    }

    /// How many arena slots exist, occupied or free.
    pub closed spec fn arena_size(self) -> int {
        self.memory@.len() as int
    }

    /// How many arena slots sit on the free chain.
    pub closed spec fn free_count(self) -> int {
        self.free@.len() as int
    }

    /// A push can be served without the arena outgrowing the index type.
    pub open spec fn can_push(self) -> bool {
        self.free_count() > 0 || self.arena_size() < NULL
    }

    /// Structural soundness: the occupied chain and the free chain together
    /// partition the arena, and the `prev`/`next` fields trace exactly those
    /// two chains.
    pub closed spec fn wf(self) -> bool {
        let mem = self.memory@;
        let ord = self.order@;
        let fr = self.free@;
        &&& mem.len() <= NULL
        &&& self.length == ord.len()
        &&& ord.len() + fr.len() == mem.len()
        &&& self.front == (if ord.len() == 0 {
            NULL
        } else {
            ord[0]
        })
        &&& self.rear == (if ord.len() == 0 {
            NULL
        } else {
            ord.last()
        })
        &&& self.pool == (if fr.len() == 0 {
            NULL
        } else {
            fr[0]
        })
        &&& forall|i: int|
            0 <= i < ord.len() ==> {
                &&& (#[trigger] ord[i]) < mem.len()
                &&& mem[ord[i] as int].data is Some
                &&& mem[ord[i] as int].prev == (if i == 0 {
                    NULL
                } else {
                    ord[i - 1]
                })
                &&& mem[ord[i] as int].next == (if i == ord.len() - 1 {
                    NULL
                } else {
                    ord[i + 1]
                })
            }
        &&& forall|i: int|
            0 <= i < fr.len() ==> {
                &&& (#[trigger] fr[i]) < mem.len()
                &&& mem[fr[i] as int].data is None
                &&& mem[fr[i] as int].next == (if i == fr.len() - 1 {
                    NULL
                } else {
                    fr[i + 1]
                })
            }
        &&& forall|p: Ptr| (p as int) < mem.len() ==> ord.contains(p) || fr.contains(p)
        &&& ord.no_duplicates()
        &&& fr.no_duplicates()
    }

    /// Creates an empty list. No arena slot is allocated here.
    pub fn new() -> (list: Self)
        ensures
            list.wf(),
            list@ == Seq::<T>::empty(),
            list.ptrs() == Seq::<Ptr>::empty(),
            list.arena_size() == 0,
            list.free_count() == 0,
    {
        Self {
            front: NULL,
            rear: NULL,
            memory: Vec::new(),
            pool: NULL,
            length: 0,
            order: Ghost(Seq::empty()),
            free: Ghost(Seq::empty()),
        }
    }

    /// The number of elements in the list.
    pub fn len(&self) -> (r: usize)
        requires
            self.wf(),
        ensures
            r == self@.len(),
    {
        self.length
    }

    /// Inserts `val` at the front. The claimed slot is recycled from the
    /// free chain when one is available, freshly grown otherwise; either way
    /// it was not part of the list before the call.
    #[verifier::rlimit(60)]
    pub fn push_front(&mut self, val: T)
        requires
            old(self).wf(),
            old(self).can_push(),
        ensures
            final(self).wf(),
            final(self)@ == seq![val] + old(self)@,
            final(self).ptrs() == seq![final(self).front_of()] + old(self).ptrs(),
            !old(self).ptrs().contains(final(self).front_of()),
            final(self).front_of() < final(self).arena_size(),
            old(self).free_count() > 0 ==> {
                &&& final(self).arena_size() == old(self).arena_size()
                &&& final(self).free_count() == old(self).free_count() - 1
            },
            old(self).free_count() == 0 ==> {
                &&& final(self).arena_size() == old(self).arena_size() + 1
                &&& final(self).free_count() == 0
            },
    {
        let p: Ptr;
        if self.pool != NULL {
            p = self.pool;
            let idx = p as usize;
            proof {
                assert(self.free@.contains(self.free@[0]));
            }
            self.pool = self.memory[idx].next;
            self.memory[idx].data = Some(val);
            self.memory[idx].prev = NULL;
            self.memory[idx].next = self.front;
            proof {
                self.free@ = self.free@.drop_first();
            }
        } else {
            proof {
                if self.free@.len() > 0 {
                    assert(self.free@.contains(self.free@[0]));
                }
            }
            p = self.memory.len() as Ptr;
            self.memory.push(ListNode { data: Some(val), prev: NULL, next: self.front });
        }
        if self.front != NULL {
            proof {
                assert(old(self).order@.contains(old(self).order@[0]));
            }
            let fidx = self.front as usize;
            self.memory[fidx].prev = p;
        } else {
            self.rear = p;
        }
        self.front = p;
        self.length = self.length + 1;
        proof {
            self.order@ = seq![p] + self.order@;
            let mem = self.memory@;
            let ord = self.order@;
            let oord = old(self).order@;
            assert forall|i: int| 0 <= i < oord.len() implies !(oord[i] == p) by {
                assert(oord.contains(oord[i]));
            }
            assert forall|i: int| 0 <= i < ord.len() implies {
                &&& (#[trigger] ord[i]) < mem.len()
                &&& mem[ord[i] as int].data is Some
                &&& mem[ord[i] as int].prev == (if i == 0 {
                    NULL
                } else {
                    ord[i - 1]
                })
                &&& mem[ord[i] as int].next == (if i == ord.len() - 1 {
                    NULL
                } else {
                    ord[i + 1]
                })
            } by {
                if i > 0 {
                    assert(ord[i] == oord[i - 1]);
                    assert(oord.contains(oord[i - 1]));
                }
            }
            assert forall|i: int| 0 <= i < self.free@.len() implies {
                &&& (#[trigger] self.free@[i]) < mem.len()
                &&& mem[self.free@[i] as int].data is None
                &&& mem[self.free@[i] as int].next == (if i == self.free@.len() - 1 {
                    NULL
                } else {
                    self.free@[i + 1]
                })
            } by {
                assert(self.free@.contains(self.free@[i]));
                if old(self).free@.len() > 0 {
                    assert(self.free@[i] == old(self).free@[i + 1]);
                }
            }
            assert forall|q: Ptr| (q as int) < mem.len() implies self.order@.contains(q)
                || self.free@.contains(q) by {
                if q == p {
                    assert(self.order@[0] == p);
                } else {
                    assert(old(self).order@.contains(q) || old(self).free@.contains(q));
                    if old(self).order@.contains(q) {
                        let j = choose|j: int|
                            0 <= j < oord.len() && oord[j] == q;
                        assert(self.order@[j + 1] == q);
                    } else {
                        let j = choose|j: int|
                            0 <= j < old(self).free@.len() && old(self).free@[j] == q;
                        assert(j > 0);
                        assert(self.free@[j - 1] == q);
                    }
                }
            }
            assert(self@ =~= seq![val] + old(self)@);
        }
    }

    /// The arena is exactly the linked nodes plus the free chain, and every
    /// linked node has its own slot.
    pub proof fn lemma_counts(self)
        requires
            self.wf(),
        ensures
            self.arena_size() == self@.len() + self.free_count(),
            self.ptrs().len() == self@.len(),
            self.ptrs().no_duplicates(),
    {
    }

    /// Any index at or past the arena's end names no linked node.
    proof fn lemma_out_of_range(self, ptr: Ptr)
        requires
            self.wf(),
            (ptr as int) >= self.memory@.len(),
        ensures
            !self.order@.contains(ptr),
    {
        if self.order@.contains(ptr) {
            let j = choose|j: int| 0 <= j < self.order@.len() && self.order@[j] == ptr;
            assert(self.order@[j] < self.memory@.len());
        }
    }

    /// A slot is on the occupied chain exactly when it holds a payload.
    proof fn lemma_occupied_iff(self, ptr: Ptr)
        requires
            self.wf(),
            (ptr as int) < self.memory@.len(),
        ensures
            self.order@.contains(ptr) <==> self.memory@[ptr as int].data is Some,
    {
        if self.order@.contains(ptr) {
            let j = choose|j: int| 0 <= j < self.order@.len() && self.order@[j] == ptr;
            assert(self.memory@[self.order@[j] as int].data is Some);
        }
        if self.memory@[ptr as int].data is Some && !self.order@.contains(ptr) {
            assert(self.free@.contains(ptr));
            let a = choose|a: int| 0 <= a < self.free@.len() && self.free@[a] == ptr;
            assert(self.memory@[self.free@[a] as int].data is None);
        }
    }

    /// The unique position of a linked slot on the occupied chain.
    proof fn lemma_position(self, ptr: Ptr) -> (j: int)
        requires
            self.wf(),
            self.order@.contains(ptr),
        ensures
            0 <= j < self.order@.len(),
            self.order@[j] == ptr,
            self@[j] == self.memory@[ptr as int].data->0,
            forall|i: int| 0 <= i < self.order@.len() && i != j ==> self.order@[i] != ptr,
    {
        let j = choose|j: int| 0 <= j < self.order@.len() && self.order@[j] == ptr;
        assert forall|i: int| 0 <= i < self.order@.len() && i != j implies self.order@[i]
            != ptr by {
            assert(self.order@.no_duplicates());
        }
        j
    }

    /// Detaching position `j` and pushing its slot on the free chain takes a
    /// sound list to a sound list; stated over explicit pre and post states
    /// so the splice in `remove` can discharge it piecewise.
    #[verifier::rlimit(100)]
    #[verifier::spinoff_prover]
    proof fn lemma_remove_wf(pre: Self, post: Self, ptr: Ptr, j: int)
        requires
            pre.wf(),
            0 <= j < pre.order@.len(),
            pre.order@[j] == ptr,
            post.order@ == pre.order@.remove(j),
            post.free@ == seq![ptr] + pre.free@,
            post.length == pre.length - 1,
            post.pool == ptr,
            post.memory@.len() == pre.memory@.len(),
            post.memory@[ptr as int].data is None,
            post.memory@[ptr as int].next == pre.pool,
            post.front == (if j == 0 {
                pre.memory@[ptr as int].next
            } else {
                pre.front
            }),
            post.rear == (if j == pre.order@.len() - 1 {
                pre.memory@[ptr as int].prev
            } else {
                pre.rear
            }),
            j > 0 ==> {
                let pn = pre.order@[j - 1] as int;
                &&& post.memory@[pn].data == pre.memory@[pn].data
                &&& post.memory@[pn].prev == pre.memory@[pn].prev
                &&& post.memory@[pn].next == (if j < pre.order@.len() - 1 {
                    pre.order@[j + 1]
                } else {
                    NULL
                })
            },
            j < pre.order@.len() - 1 ==> {
                let nn = pre.order@[j + 1] as int;
                &&& post.memory@[nn].data == pre.memory@[nn].data
                &&& post.memory@[nn].next == pre.memory@[nn].next
                &&& post.memory@[nn].prev == (if j > 0 {
                    pre.order@[j - 1]
                } else {
                    NULL
                })
            },
            forall|q: int|
                0 <= q < pre.memory@.len() && q != ptr as int && (j == 0 || q != pre.order@[j - 1])
                    && (j == pre.order@.len() - 1 || q != pre.order@[j + 1])
                    ==> post.memory@[q] == pre.memory@[q],
        ensures
            post.wf(),
            post@ == pre@.remove(j),
    {
        let mem = post.memory@;
        let ord = post.order@;
        let fr = post.free@;
        let oord = pre.order@;
        let ofr = pre.free@;
        assert forall|a: int, b: int| 0 <= a < b < oord.len() implies oord[a] != oord[b] by {
            assert(oord.no_duplicates());
        }
        assert forall|i: int| 0 <= i < ofr.len() implies ofr[i] != ptr by {
            assert(ofr.contains(ofr[i]));
            assert(pre.memory@[oord[j] as int].data is Some);
        }
        assert forall|i: int| 0 <= i < ord.len() implies {
            &&& (#[trigger] ord[i]) < mem.len()
            &&& mem[ord[i] as int].data is Some
            &&& mem[ord[i] as int].prev == (if i == 0 {
                NULL
            } else {
                ord[i - 1]
            })
            &&& mem[ord[i] as int].next == (if i == ord.len() - 1 {
                NULL
            } else {
                ord[i + 1]
            })
        } by {
            if i < j {
                assert(ord[i] == oord[i]);
            } else {
                assert(ord[i] == oord[i + 1]);
            }
            if i > 0 {
                if i - 1 < j {
                    assert(ord[i - 1] == oord[i - 1]);
                } else {
                    assert(ord[i - 1] == oord[i]);
                }
            }
            if i < ord.len() - 1 {
                if i + 1 < j {
                    assert(ord[i + 1] == oord[i + 1]);
                } else {
                    assert(ord[i + 1] == oord[i + 2]);
                }
            }
        }
        assert forall|i: int| 0 <= i < fr.len() implies {
            &&& (#[trigger] fr[i]) < mem.len()
            &&& mem[fr[i] as int].data is None
            &&& mem[fr[i] as int].next == (if i == fr.len() - 1 {
                NULL
            } else {
                fr[i + 1]
            })
        } by {
            if i > 0 {
                assert(fr[i] == ofr[i - 1]);
                assert(ofr.contains(ofr[i - 1]));
                if j > 0 {
                    assert(pre.memory@[oord[j - 1] as int].data is Some);
                }
                if j < oord.len() - 1 {
                    assert(pre.memory@[oord[j + 1] as int].data is Some);
                }
            }
        }
        assert forall|q: Ptr| (q as int) < mem.len() implies ord.contains(q) || fr.contains(q) by {
            if q == ptr {
                assert(fr[0] == q);
            } else {
                assert(oord.contains(q) || ofr.contains(q));
                if oord.contains(q) {
                    let a = choose|a: int| 0 <= a < oord.len() && oord[a] == q;
                    assert(a != j);
                    if a < j {
                        assert(ord[a] == q);
                    } else {
                        assert(ord[a - 1] == q);
                    }
                } else {
                    let a = choose|a: int| 0 <= a < ofr.len() && ofr[a] == q;
                    assert(fr[a + 1] == q);
                }
            }
        }
        assert forall|a: int, b: int| 0 <= a < b < ord.len() implies ord[a] != ord[b] by {
            let a2: int = if a < j {
                a
            } else {
                a + 1
            };
            let b2: int = if b < j {
                b
            } else {
                b + 1
            };
            assert(ord[a] == oord[a2] && ord[b] == oord[b2]);
        }
        assert(ord.no_duplicates());
        assert(fr.no_duplicates());
        assert forall|i: int| 0 <= i < ord.len() implies post@[i] == pre@.remove(j)[i] by {
            if i < j {
                assert(ord[i] == oord[i]);
            } else {
                assert(ord[i] == oord[i + 1]);
            }
        }
        assert(post@ =~= pre@.remove(j));
    }

    /// Detaches the node at `ptr`, hands back its payload, and pushes the
    /// slot onto the free chain. Returns `None`, leaving the list untouched,
    /// when `ptr` does not name a currently-linked node.
    #[verifier::rlimit(100)]
    pub fn remove(&mut self, ptr: Ptr) -> (r: Option<T>)
        requires
            old(self).wf(),
        ensures
            final(self).wf(),
            r is Some <==> old(self).ptrs().contains(ptr),
            r is None ==> *final(self) == *old(self),
            r matches Some(v) ==> exists|j: int|
                {
                    &&& 0 <= j < old(self).ptrs().len()
                    &&& old(self).ptrs()[j] == ptr
                    &&& v == old(self)@[j]
                    &&& final(self)@ == old(self)@.remove(j)
                    &&& final(self).ptrs() == old(self).ptrs().remove(j)
                },
            r is Some ==> {
                &&& final(self).arena_size() == old(self).arena_size()
                &&& final(self).free_count() == old(self).free_count() + 1
            },
    {
        if ptr == NULL {
            proof {
                self.lemma_out_of_range(ptr);
            }
            return None;
        }
        let idx = ptr as usize;
        if idx >= self.memory.len() {
            proof {
                self.lemma_out_of_range(ptr);
            }
            return None;
        }
        if self.memory[idx].data.is_none() {
            proof {
                self.lemma_occupied_iff(ptr);
            }
            return None;
        }
        let ghost j = 0int;
        proof {
            self.lemma_occupied_iff(ptr);
            j = self.lemma_position(ptr);
        }
        let ghost oord = self.order@;
        let ghost ofr = self.free@;
        let prev = self.memory[idx].prev;
        let next = self.memory[idx].next;
        let v = self.memory[idx].data.take().unwrap();
        proof {
            if j > 0 {
                assert(prev == oord[j - 1]);
                assert(oord.contains(oord[j - 1]));
            }
            if j < oord.len() - 1 {
                assert(next == oord[j + 1]);
                assert(oord.contains(oord[j + 1]));
            }
        }
        if prev != NULL {
            self.memory[prev as usize].next = next;
        } else {
            self.front = next;
        }
        if next != NULL {
            self.memory[next as usize].prev = prev;
        } else {
            self.rear = prev;
        }
        self.memory[idx].next = self.pool;
        self.pool = ptr;
        self.length = self.length - 1;
        proof {
            self.order@ = oord.remove(j);
            self.free@ = seq![ptr] + ofr;
            assert(j > 0 ==> oord[j - 1] != ptr && (j < oord.len() - 1 ==> oord[j - 1] != oord[j
                + 1]));
            Self::lemma_remove_wf(*old(self), *self, ptr, j);
            assert({
                &&& 0 <= j < old(self).ptrs().len()
                &&& old(self).ptrs()[j] == ptr
                &&& v == old(self)@[j]
                &&& self@ == old(self)@.remove(j)
                &&& self.ptrs() == old(self).ptrs().remove(j)
            });
        }
        Some(v)
    }

    /// Detaches the rear (oldest) node and hands back its payload; `None`
    /// when the list is empty.
    pub fn pop_rear(&mut self) -> (r: Option<T>)
        requires
            old(self).wf(),
        ensures
            final(self).wf(),
            r is Some <==> old(self)@.len() > 0,
            r is None ==> *final(self) == *old(self),
            r matches Some(v) ==> {
                &&& v == old(self)@.last()
                &&& final(self)@ == old(self)@.drop_last()
                &&& final(self).ptrs() == old(self).ptrs().drop_last()
                &&& final(self).arena_size() == old(self).arena_size()
                &&& final(self).free_count() == old(self).free_count() + 1
            },
    {
        proof {
            if old(self)@.len() > 0 {
                assert(self.order@.contains(self.order@[self.order@.len() - 1]));
            }
        }
        let rear = self.rear;
        let r = self.remove(rear);
        proof {
            if r is Some {
                let j = choose|j: int|
                    {
                        &&& 0 <= j < old(self).ptrs().len()
                        &&& old(self).ptrs()[j] == rear
                        &&& r->0 == old(self)@[j]
                        &&& self@ == old(self)@.remove(j)
                        &&& self.ptrs() == old(self).ptrs().remove(j)
                    };
                assert(old(self).ptrs()[old(self).ptrs().len() - 1] == rear);
                if j != old(self).ptrs().len() - 1 {
                    assert(false);
                }
                assert(self@ =~= old(self)@.drop_last());
                assert(self.ptrs() =~= old(self).ptrs().drop_last());
            } else {
                if old(self)@.len() > 0 {
                    assert(old(self).ptrs().contains(rear));
                }
            }
        }
        r
    }

    /// A reference to the payload of the node at `ptr`, when `ptr` names a
    /// currently-linked node.
    pub fn peek(&self, ptr: Ptr) -> (r: Option<&T>)
        requires
            self.wf(),
        ensures
            r is Some <==> self.ptrs().contains(ptr),
            r matches Some(v) ==> exists|j: int|
                {
                    &&& 0 <= j < self.ptrs().len()
                    &&& self.ptrs()[j] == ptr
                    &&& v == self@[j]
                },
    {
        if ptr == NULL {
            proof {
                self.lemma_out_of_range(ptr);
            }
            return None;
        }
        let idx = ptr as usize;
        if idx >= self.memory.len() {
            proof {
                self.lemma_out_of_range(ptr);
            }
            return None;
        }
        let r = self.memory[idx].data.as_ref();
        proof {
            self.lemma_occupied_iff(ptr);
            if r is Some {
                let j = self.lemma_position(ptr);
                assert(self.ptrs()[j] == ptr && self@[j] == self.memory@[ptr as int].data->0);
            }
        }
        r
    }

    /// References to every payload, front to rear.
    pub fn to_refs(&self) -> (r: Vec<&T>)
        requires
            self.wf(),
        ensures
            r@.len() == self@.len(),
            forall|i: int| 0 <= i < r@.len() ==> r@[i] == self@[i],
    {
        let mut out: Vec<&T> = Vec::new();
        let mut cur: Ptr = self.front;
        while cur != NULL
            invariant
                self.wf(),
                out@.len() <= self@.len(),
                cur == (if out@.len() == self@.len() {
                    NULL
                } else {
                    self.ptrs()[out@.len() as int]
                }),
                forall|i: int| 0 <= i < out@.len() ==> out@[i] == self@[i],
            decreases self@.len() - out@.len(),
        {
            proof {
                assert(self.order@[out@.len() as int] < self.memory@.len());
            }
            let idx = cur as usize;
            let v = self.memory[idx].data.as_ref().unwrap();
            out.push(v);
            cur = self.memory[idx].next;
        }
        out
    }
}

} // verus!
