//! A multi-rooted N-ary forest over a growable arena of index-addressed
//! nodes. Freed slots are recycled through an intrusive free chain threaded
//! through the freed node's own children vector: a pooled slot holds exactly
//! one child entry, the next free slot.

use vstd::prelude::*;

verus! {

/// Index type standing in for a node address within one forest's arena.
pub type Pointer = u32;

/// Sentinel address meaning "no node".
pub const NULL: Pointer = 0xFFFF_FFFF;

/// The error of an out-of-range child insertion position.
pub struct CannotInsert;

/// One arena slot: an optional payload, the parent's address (`NULL` for a
/// root or a pooled slot), and the ordered addresses of the children.
#[derive(Clone)]
pub struct NaryNode<T> {
    pub parent: Pointer,
    pub data: Option<T>,
    pub children: Vec<Pointer>,
}

impl<T> NaryNode<T> {
    /// A detached node: no parent, no payload, no children.
    pub fn new() -> (node: NaryNode<T>)
        ensures
            node.parent == NULL,
            node.data is None,
            node.children@ == Seq::<Pointer>::empty(),
    {
        NaryNode { parent: NULL, data: None, children: Vec::new() }
    }

    /// The same node, now carrying `data` as its payload.
    pub fn with_data(self, data: T) -> (node: Self)
        ensures
            node.parent == self.parent,
            node.data == Some(data),
            node.children == self.children,
    {
        let mut node = self;
        node.data = Some(data);
        node
    }
}

/// A forest of ordered trees sharing one arena. `root_list` names the roots
/// in tree order; `pool` heads the free chain. The ghost field `free` spells
/// out the free chain for the proofs.
#[derive(Clone)]
pub struct NaryForest<T> {
    pub root_list: Vec<Pointer>,
    pub pool: Pointer,
    pub memory: Vec<NaryNode<T>>,
    pub free: Ghost<Seq<Pointer>>,
}

impl<T> NaryForest<T> {
    /// Free-chain soundness: `pool` heads the chain listed by `free`, whose
    /// slots are distinct, payload-less, and carry exactly one child entry,
    /// the next free slot (`NULL` at the chain's end).
    pub open spec fn wf(self) -> bool {
        &&& self.memory@.len() <= NULL
        &&& self.pool == (if self.free@.len() == 0 {
            NULL
        } else {
            self.free@[0]
        })
        &&& forall|i: int|
            0 <= i < self.free@.len() ==> {
                &&& (#[trigger] self.free@[i]) < self.memory@.len()
                &&& self.memory@[self.free@[i] as int].data is None
                &&& self.memory@[self.free@[i] as int].children@ == seq![
                    (if i == self.free@.len() - 1 {
                        NULL
                    } else {
                        self.free@[i + 1]
                    }),
                ]
            }
        &&& self.free@.no_duplicates()
    }

    /// Creates an empty forest. No arena slot is allocated here.
    pub fn new() -> (forest: Self)
        ensures
            forest.wf(),
            forest.root_list@ == Seq::<Pointer>::empty(),
            forest.pool == NULL,
            forest.memory@ == Seq::<NaryNode<T>>::empty(),
            forest.free@ == Seq::<Pointer>::empty(),
    {
        NaryForest {
            root_list: Vec::new(),
            pool: NULL,
            memory: Vec::new(),
            free: Ghost(Seq::empty()),
        }
    }

    /// Allocates a slot holding `val` — recycling the head of the free
    /// chain when there is one, growing the arena otherwise — and hands back
    /// its address. The slot starts with no parent and no children.
    pub fn allocate(&mut self, val: T) -> (ptr: Pointer)
        requires
            old(self).wf(),
            old(self).memory@.len() < NULL,
        ensures
            final(self).wf(),
            allocates_to(*old(self), val, *final(self), ptr),
    {
        if self.pool == NULL {
            self.memory.push(NaryNode { parent: NULL, data: Some(val), children: Vec::new() });
            (self.memory.len() - 1) as Pointer
        } else {
            let pool_node = self.pool;
            let idx = pool_node as usize;
            proof {
                assert(self.free@.contains(self.free@[0]));
            }
            self.pool = self.memory[idx].children[0];
            self.memory[idx].children.clear();
            self.memory[idx].parent = NULL;
            self.memory[idx].data = Some(val);
            proof {
                self.free@ = self.free@.drop_first();
                assert forall|i: int| 0 <= i < self.free@.len() implies {
                    &&& (#[trigger] self.free@[i]) < self.memory@.len()
                    &&& self.memory@[self.free@[i] as int].data is None
                    &&& self.memory@[self.free@[i] as int].children@ == seq![
                        (if i == self.free@.len() - 1 {
                            NULL
                        } else {
                            self.free@[i + 1]
                        }),
                    ]
                } by {
                    assert(self.free@[i] == old(self).free@[i + 1]);
                    assert(old(self).free@.contains(old(self).free@[i + 1]));
                }
            }
            pool_node
        }
    }

    /// Returns the slot at `node` to the free chain: its payload and
    /// children are cleared and its single remaining child entry becomes the
    /// link to the previous chain head. `NULL` is ignored. The slot's
    /// subtree is not freed and the slot is not detached from any parent or
    /// root listing: that is the caller's duty.
    pub fn free(&mut self, node: Pointer)
        requires
            old(self).wf(),
            node == NULL || ((node as int) < old(self).memory@.len() && !old(
                self,
            ).free@.contains(node)),
        ensures
            final(self).wf(),
            node == NULL ==> *final(self) == *old(self),
            node != NULL ==> frees_to(*old(self), node, *final(self)),
    {
        if node == NULL {
            return ;
        }
        let idx = node as usize;
        let old_pool = self.pool;
        self.memory[idx].children.clear();
        self.memory[idx].children.push(old_pool);
        self.memory[idx].data = None;
        self.pool = node;
        proof {
            self.free@ = seq![node] + old(self).free@;
            assert forall|i: int| 0 <= i < self.free@.len() implies {
                &&& (#[trigger] self.free@[i]) < self.memory@.len()
                &&& self.memory@[self.free@[i] as int].data is None
                &&& self.memory@[self.free@[i] as int].children@ == seq![
                    (if i == self.free@.len() - 1 {
                        NULL
                    } else {
                        self.free@[i + 1]
                    }),
                ]
            } by {
                if i > 0 {
                    assert(self.free@[i] == old(self).free@[i - 1]);
                    assert(old(self).free@.contains(old(self).free@[i - 1]));
                }
            }
            assert(self.free@.no_duplicates());
        }
    }

    /// Allocates a slot and moves the given `node` — parent, payload and
    /// children exactly as built by the caller — into it, handing back the
    /// slot's address.
    pub fn allocate_node(&mut self, node: NaryNode<T>) -> (ptr: Pointer)
        requires
            old(self).wf(),
            old(self).memory@.len() < NULL,
        ensures
            final(self).wf(),
            node_allocates_to(*old(self), node, *final(self), ptr),
    {
        let NaryNode { parent, data, children } = node;
        if self.pool == NULL {
            self.memory.push(NaryNode { parent, data, children });
            (self.memory.len() - 1) as Pointer
        } else {
            let pool_node = self.pool;
            let idx = pool_node as usize;
            proof {
                assert(self.free@.contains(self.free@[0]));
            }
            self.pool = self.memory[idx].children[0];
            self.memory[idx].parent = parent;
            self.memory[idx].data = data;
            self.memory[idx].children = children;
            proof {
                self.free@ = self.free@.drop_first();
                assert forall|i: int| 0 <= i < self.free@.len() implies {
                    &&& (#[trigger] self.free@[i]) < self.memory@.len()
                    &&& self.memory@[self.free@[i] as int].data is None
                    &&& self.memory@[self.free@[i] as int].children@ == seq![
                        (if i == self.free@.len() - 1 {
                            NULL
                        } else {
                            self.free@[i + 1]
                        }),
                    ]
                } by {
                    assert(self.free@[i] == old(self).free@[i + 1]);
                    assert(old(self).free@.contains(old(self).free@[i + 1]));
                }
            }
            pool_node
        }
    }

    /// Appends `child` to `parent`'s children and records the link in the
    /// child. No cycle or ownership check is made: the caller vouches for
    /// both addresses naming live nodes.
    pub fn add_child(&mut self, parent: Pointer, child: Pointer)
        requires
            old(self).wf(),
            (parent as int) < old(self).memory@.len(),
            (child as int) < old(self).memory@.len(),
            !old(self).free@.contains(parent),
            old(self).memory@[parent as int].children@.len() < usize::MAX,
        ensures
            final(self).wf(),
            final(self).memory@.len() == old(self).memory@.len(),
            final(self).root_list == old(self).root_list,
            final(self).pool == old(self).pool,
            final(self).free@ == old(self).free@,
            final(self).memory@[parent as int].children@ == old(self).memory@[
                parent as int
            ].children@.push(child),
            final(self).memory@[child as int].parent == parent,
            final(self).memory@[parent as int].data == old(self).memory@[parent as int].data,
            final(self).memory@[child as int].data == old(self).memory@[child as int].data,
            child != parent ==> final(self).memory@[parent as int].parent == old(self).memory@[
                parent as int
            ].parent,
            child != parent ==> final(self).memory@[child as int].children == old(self).memory@[
                child as int
            ].children,
            forall|q: int|
                0 <= q < old(self).memory@.len() && q != parent as int && q != child as int
                    ==> final(self).memory@[q] == old(self).memory@[q],
    {
        let pidx = parent as usize;
        let cidx = child as usize;
        self.memory[pidx].children.push(child);
        self.memory[cidx].parent = parent;
        proof {
            assert forall|i: int| 0 <= i < self.free@.len() implies {
                &&& (#[trigger] self.free@[i]) < self.memory@.len()
                &&& self.memory@[self.free@[i] as int].data is None
                &&& self.memory@[self.free@[i] as int].children@ == seq![
                    (if i == self.free@.len() - 1 {
                        NULL
                    } else {
                        self.free@[i + 1]
                    }),
                ]
            } by {
                assert(self.free@.contains(self.free@[i]));
            }
        }
    }

    /// Inserts `child` at position `index` of `parent`'s children, shifting
    /// the later ones right, and records the link in the child. Positions up
    /// to and including the current length are valid; a greater `index` is
    /// refused and the forest is left untouched.
    pub fn add_child_at(&mut self, parent: Pointer, child: Pointer, index: usize) -> (r: Result<
        (),
        CannotInsert,
    >)
        requires
            old(self).wf(),
            (parent as int) < old(self).memory@.len(),
            (child as int) < old(self).memory@.len(),
            !old(self).free@.contains(parent),
            old(self).memory@[parent as int].children@.len() < usize::MAX,
        ensures
            final(self).wf(),
            r is Err <==> index > old(self).memory@[parent as int].children@.len(),
            r is Err ==> *final(self) == *old(self),
            r is Ok ==> {
                &&& final(self).memory@.len() == old(self).memory@.len()
                &&& final(self).root_list == old(self).root_list
                &&& final(self).pool == old(self).pool
                &&& final(self).free@ == old(self).free@
                &&& final(self).memory@[parent as int].children@ == old(self).memory@[
                    parent as int
                ].children@.insert(index as int, child)
                &&& final(self).memory@[child as int].parent == parent
                &&& final(self).memory@[parent as int].data == old(self).memory@[
                    parent as int
                ].data
                &&& final(self).memory@[child as int].data == old(self).memory@[child as int].data
                &&& (child != parent ==> final(self).memory@[parent as int].parent == old(
                    self,
                ).memory@[parent as int].parent)
                &&& (child != parent ==> final(self).memory@[child as int].children == old(
                    self,
                ).memory@[child as int].children)
                &&& forall|q: int|
                    0 <= q < old(self).memory@.len() && q != parent as int && q != child as int
                        ==> final(self).memory@[q] == old(self).memory@[q]
            },
    {
        let pidx = parent as usize;
        let cidx = child as usize;
        if index > self.memory[pidx].children.len() {
            return Err(CannotInsert);
        }
        self.memory[pidx].children.insert(index, child);
        self.memory[cidx].parent = parent;
        proof {
            assert forall|i: int| 0 <= i < self.free@.len() implies {
                &&& (#[trigger] self.free@[i]) < self.memory@.len()
                &&& self.memory@[self.free@[i] as int].data is None
                &&& self.memory@[self.free@[i] as int].children@ == seq![
                    (if i == self.free@.len() - 1 {
                        NULL
                    } else {
                        self.free@[i + 1]
                    }),
                ]
            } by {
                assert(self.free@.contains(self.free@[i]));
            }
        }
        Ok(())
    }

    /// Pre-order search of the tree at `root` under an explicit grounding
    /// fuel; the workhorse behind `search`.
    fn search_inner<CB: Fn(&NaryNode<T>) -> bool + Copy>(
        &self,
        root: Pointer,
        predicate: CB,
        Ghost(fuel): Ghost<nat>,
    ) -> (r: Option<Pointer>)
        requires
            grounded(*self, root, fuel),
            forall|n: &NaryNode<T>| predicate.requires((n,)),
        ensures
            r is None ==> forall|i: int|
                0 <= i < subtree_seq(*self, root, fuel).len() ==> call_ensures(
                    predicate,
                    (&self.memory@[subtree_seq(*self, root, fuel)[i] as int],),
                    false,
                ),
            r matches Some(p) ==> exists|i: int|
                {
                    &&& 0 <= i < subtree_seq(*self, root, fuel).len()
                    &&& subtree_seq(*self, root, fuel)[i] == p
                    &&& call_ensures(predicate, (&self.memory@[p as int],), true)
                    &&& forall|q: int|
                        0 <= q < i ==> call_ensures(
                            predicate,
                            (&self.memory@[subtree_seq(*self, root, fuel)[q] as int],),
                            false,
                        )
                },
        decreases fuel, 0int, 0int,
    {
        if root == NULL {
            return None;
        }
        let ghost st = subtree_seq(*self, root, fuel);
        let ghost f1 = (fuel - 1) as nat;
        let idx = root as usize;
        let hit = predicate(&self.memory[idx]);
        if hit {
            proof {
                assert(st[0] == root);
            }
            return Some(root);
        }
        let n = self.memory[idx].children.len();
        let mut k: usize = 0;
        let ghost vis = Seq::<Pointer>::empty();
        while k < n
            invariant
                grounded(*self, root, fuel),
                root != NULL,
                fuel > 0,
                (root as int) < self.memory@.len(),
                idx as int == root as int,
                f1 == (fuel - 1) as nat,
                st == subtree_seq(*self, root, fuel),
                st == seq![root] + children_seq(*self, root, 0, f1),
                n == self.memory@[root as int].children@.len(),
                k <= n,
                forall|n2: &NaryNode<T>| predicate.requires((n2,)),
                call_ensures(predicate, (&self.memory@[root as int],), false),
                children_grounded(*self, root, k as int, f1),
                children_seq(*self, root, 0, f1) == vis + children_seq(*self, root, k as int, f1),
                forall|q: int|
                    0 <= q < vis.len() ==> call_ensures(
                        predicate,
                        (&self.memory@[vis[q] as int],),
                        false,
                    ),
            decreases n - k,
        {
            let child = self.memory[idx].children[k];
            proof {
                assert(grounded(*self, root, fuel));
                assert(children_grounded(*self, root, k as int, f1));
            }
            let r = self.search_inner(child, predicate, Ghost(f1));
            let ghost stc = subtree_seq(*self, child, f1);
            proof {
                assert(children_seq(*self, root, k as int, f1) == stc + children_seq(
                    *self,
                    root,
                    k as int + 1,
                    f1,
                ));
            }
            match r {
                Some(p) => {
                    proof {
                        let ic = choose|ic: int|
                            {
                                &&& 0 <= ic < stc.len()
                                &&& stc[ic] == p
                                &&& call_ensures(predicate, (&self.memory@[p as int],), true)
                                &&& forall|q: int|
                                    0 <= q < ic ==> call_ensures(
                                        predicate,
                                        (&self.memory@[stc[q] as int],),
                                        false,
                                    )
                            };
                        let gi = 1 + vis.len() + ic;
                        assert(st[gi] == stc[ic]);
                        assert forall|q: int| 0 <= q < gi implies call_ensures(
                            predicate,
                            (&self.memory@[st[q] as int],),
                            false,
                        ) by {
                            if q == 0 {
                                assert(st[q] == root);
                            } else if q <= vis.len() {
                                assert(st[q] == vis[q - 1]);
                            } else {
                                assert(st[q] == stc[q - 1 - vis.len()]);
                            }
                        }
                    }
                    return Some(p);
                },
                None => {
                    proof {
                        vis = vis + stc;
                    }
                },
            }
            k = k + 1;
        }
        proof {
            assert(children_seq(*self, root, n as int, f1) == Seq::<Pointer>::empty());
            assert(children_seq(*self, root, 0, f1) == vis + children_seq(
                *self,
                root,
                n as int,
                f1,
            ));
            assert(children_seq(*self, root, 0, f1) =~= vis);
            assert forall|i: int| 0 <= i < st.len() implies call_ensures(
                predicate,
                (&self.memory@[st[i] as int],),
                false,
            ) by {
                if i > 0 {
                    assert(st[i] == vis[i - 1]);
                }
            }
        }
        None
    }

    /// Pre-order search of the tree at `root`: hands back the first visited
    /// node satisfying `predicate` (parent before children, children left to
    /// right), or `None` when `root` is `NULL` or every reachable node is
    /// rejected.
    pub fn search<CB: Fn(&NaryNode<T>) -> bool + Copy>(&self, root: Pointer, predicate: CB) -> (r:
        Option<Pointer>)
        requires
            is_grounded(*self, root),
            forall|n: &NaryNode<T>| predicate.requires((n,)),
        ensures
            r is None ==> forall|i: int|
                0 <= i < reach(*self, root).len() ==> call_ensures(
                    predicate,
                    (&self.memory@[reach(*self, root)[i] as int],),
                    false,
                ),
            r matches Some(p) ==> exists|i: int|
                {
                    &&& 0 <= i < reach(*self, root).len()
                    &&& reach(*self, root)[i] == p
                    &&& call_ensures(predicate, (&self.memory@[p as int],), true)
                    &&& forall|q: int|
                        0 <= q < i ==> call_ensures(
                            predicate,
                            (&self.memory@[reach(*self, root)[q] as int],),
                            false,
                        )
                },
    {
        let ghost fuel = choose|fuel: nat| grounded(*self, root, fuel);
        proof {
            lemma_reach_is(*self, root, fuel);
        }
        self.search_inner(root, predicate, Ghost(fuel))
    }

    /// Pre-order collection over the tree at `root` under an explicit
    /// grounding fuel; the workhorse behind `search_and_collect`.
    fn collect_inner<CB: Fn(&NaryNode<T>) -> bool + Copy>(
        &self,
        root: Pointer,
        results: &mut Vec<Pointer>,
        max_results: usize,
        predicate: CB,
        Ghost(fuel): Ghost<nat>,
    )
        requires
            grounded(*self, root, fuel),
            forall|n: &NaryNode<T>| predicate.requires((n,)),
        ensures
            old(results)@.is_prefix_of(final(results)@),
            final(results)@.len() <= (if old(results)@.len() > max_results {
                old(results)@.len() as int
            } else {
                max_results as int
            }),
            forall|i: int|
                old(results)@.len() <= i < final(results)@.len() ==> {
                    &&& subtree_seq(*self, root, fuel).contains(#[trigger] final(results)@[i])
                    &&& call_ensures(
                        predicate,
                        (&self.memory@[final(results)@[i] as int],),
                        true,
                    )
                },
            final(results)@.len() < max_results ==> forall|i: int|
                0 <= i < subtree_seq(*self, root, fuel).len() ==> final(results)@.contains(
                    subtree_seq(*self, root, fuel)[i],
                ) || call_ensures(
                    predicate,
                    (&self.memory@[subtree_seq(*self, root, fuel)[i] as int],),
                    false,
                ),
            collects(
                *self,
                subtree_seq(*self, root, fuel),
                old(results)@,
                final(results)@,
                max_results as int,
                predicate,
            ),
        decreases fuel, 0int, 0int,
    {
        if root == NULL {
            proof {
                assert(collects_at(
                    *self,
                    subtree_seq(*self, root, fuel),
                    old(results)@,
                    results@,
                    max_results as int,
                    predicate,
                    Seq::<int>::empty(),
                    0,
                ));
            }
            return ;
        }
        if results.len() >= max_results {
            proof {
                assert(collects_at(
                    *self,
                    subtree_seq(*self, root, fuel),
                    old(results)@,
                    results@,
                    max_results as int,
                    predicate,
                    Seq::<int>::empty(),
                    0,
                ));
            }
            return ;
        }
        let ghost st = subtree_seq(*self, root, fuel);
        let ghost f1 = (fuel - 1) as nat;
        let ghost res0 = results@;
        let idx = root as usize;
        let hit = predicate(&self.memory[idx]);
        if hit {
            results.push(root);
            proof {
                assert(st[0] == root);
                assert(st.contains(root));
                assert(results@[results@.len() - 1] == root);
                assert(results@.contains(root));
            }
        }
        let n = self.memory[idx].children.len();
        let mut k: usize = 0;
        let ghost vis = Seq::<Pointer>::empty();
        let ghost gpos: Seq<int> = if hit {
            seq![0int]
        } else {
            Seq::<int>::empty()
        };
        let ghost gcut: int = 1;
        proof {
            if hit {
                assert(results@[res0.len() as int + 0] == root);
                assert(gpos[0] == 0);
                assert(gpos.contains(0));
            }
            assert((seq![root] + vis)[0] == root);
            assert(collects_at(
                *self,
                seq![root] + vis,
                res0,
                results@,
                max_results as int,
                predicate,
                gpos,
                gcut,
            ));
        }
        while k < n
            invariant
                grounded(*self, root, fuel),
                root != NULL,
                fuel > 0,
                (root as int) < self.memory@.len(),
                idx as int == root as int,
                f1 == (fuel - 1) as nat,
                st == subtree_seq(*self, root, fuel),
                st == seq![root] + children_seq(*self, root, 0, f1),
                n == self.memory@[root as int].children@.len(),
                k <= n,
                res0.len() < max_results,
                forall|n2: &NaryNode<T>| predicate.requires((n2,)),
                children_grounded(*self, root, k as int, f1),
                children_seq(*self, root, 0, f1) == vis + children_seq(*self, root, k as int, f1),
                res0.is_prefix_of(results@),
                results@.len() <= max_results,
                collects_at(
                    *self,
                    seq![root] + vis,
                    res0,
                    results@,
                    max_results as int,
                    predicate,
                    gpos,
                    gcut,
                ),
                forall|i: int|
                    res0.len() <= i < results@.len() ==> {
                        &&& st.contains(#[trigger] results@[i])
                        &&& call_ensures(predicate, (&self.memory@[results@[i] as int],), true)
                    },
                results@.len() < max_results ==> (call_ensures(
                    predicate,
                    (&self.memory@[root as int],),
                    false,
                ) || results@.contains(root)),
                results@.len() < max_results ==> forall|q: int|
                    0 <= q < vis.len() ==> results@.contains(vis[q]) || call_ensures(
                        predicate,
                        (&self.memory@[vis[q] as int],),
                        false,
                    ),
            decreases n - k,
        {
            let child = self.memory[idx].children[k];
            let ghost res_before = results@;
            self.collect_inner(child, results, max_results, predicate, Ghost(f1));
            let ghost stc = subtree_seq(*self, child, f1);
            proof {
                assert(children_seq(*self, root, k as int, f1) == stc + children_seq(
                    *self,
                    root,
                    k as int + 1,
                    f1,
                ));
                assert forall|x: Pointer| stc.contains(x) implies st.contains(x) by {
                    let ix = choose|ix: int| 0 <= ix < stc.len() && stc[ix] == x;
                    assert(st[1 + vis.len() + ix] == x);
                }
                assert forall|i: int|
                    res0.len() <= i < results@.len() implies {
                        &&& st.contains(#[trigger] results@[i])
                        &&& call_ensures(predicate, (&self.memory@[results@[i] as int],), true)
                    } by {
                    if i < res_before.len() {
                        assert(results@[i] == res_before[i]);
                    } else {
                        assert(stc.contains(results@[i]));
                    }
                }
                assert forall|x: Pointer| res_before.contains(x) implies results@.contains(x) by {
                    let ix = choose|ix: int| 0 <= ix < res_before.len() && res_before[ix] == x;
                    assert(results@[ix] == x);
                }
                let (pos_c, cut_c) = choose|pos_c: Seq<int>, cut_c: int|
                    collects_at(
                        *self,
                        stc,
                        res_before,
                        results@,
                        max_results as int,
                        predicate,
                        pos_c,
                        cut_c,
                    );
                let composed = lemma_collects_compose(
                    *self,
                    seq![root] + vis,
                    stc,
                    res0,
                    res_before,
                    results@,
                    max_results as int,
                    predicate,
                    gpos,
                    gcut,
                    pos_c,
                    cut_c,
                );
                gpos = composed.0;
                gcut = composed.1;
                assert((seq![root] + vis) + stc =~= seq![root] + (vis + stc));
                vis = vis + stc;
            }
            k = k + 1;
        }
        proof {
            assert(children_seq(*self, root, n as int, f1) == Seq::<Pointer>::empty());
            assert(children_seq(*self, root, 0, f1) =~= vis);
            if results@.len() < max_results {
                assert forall|i: int| 0 <= i < st.len() implies results@.contains(st[i])
                    || call_ensures(predicate, (&self.memory@[st[i] as int],), false) by {
                    if i > 0 {
                        assert(st[i] == vis[i - 1]);
                    }
                }
            }
            assert(st == seq![root] + vis);
            assert(collects_at(
                *self,
                st,
                res0,
                results@,
                max_results as int,
                predicate,
                gpos,
                gcut,
            ));
        }
    }

    /// Pre-order collection over the tree at `root`: appends to `results`
    /// every visited node satisfying `predicate`, visiting parent before
    /// children and children left to right, and stops as soon as `results`
    /// holds `max_results` entries. The `collects` clause pins the walk:
    /// the appended pointers are the approved visits of a prefix of the
    /// visitation sequence, in visitation order, nothing skipped but the
    /// rejected and nothing cut short but by the cap.
    pub fn search_and_collect<CB: Fn(&NaryNode<T>) -> bool + Copy>(
        &self,
        root: Pointer,
        results: &mut Vec<Pointer>,
        max_results: usize,
        predicate: CB,
    )
        requires
            is_grounded(*self, root),
            forall|n: &NaryNode<T>| predicate.requires((n,)),
        ensures
            old(results)@.is_prefix_of(final(results)@),
            final(results)@.len() <= (if old(results)@.len() > max_results {
                old(results)@.len() as int
            } else {
                max_results as int
            }),
            forall|i: int|
                old(results)@.len() <= i < final(results)@.len() ==> {
                    &&& reach(*self, root).contains(#[trigger] final(results)@[i])
                    &&& call_ensures(
                        predicate,
                        (&self.memory@[final(results)@[i] as int],),
                        true,
                    )
                },
            final(results)@.len() < max_results ==> forall|i: int|
                0 <= i < reach(*self, root).len() ==> final(results)@.contains(
                    reach(*self, root)[i],
                ) || call_ensures(
                    predicate,
                    (&self.memory@[reach(*self, root)[i] as int],),
                    false,
                ),
            collects(
                *self,
                reach(*self, root),
                old(results)@,
                final(results)@,
                max_results as int,
                predicate,
            ),
    {
        let ghost fuel = choose|fuel: nat| grounded(*self, root, fuel);
        proof {
            lemma_reach_is(*self, root, fuel);
        }
        self.collect_inner(root, results, max_results, predicate, Ghost(fuel))
    }

    /// Searches every tree of the forest in root-list order, each tree in
    /// pre-order, collecting up to `max_results` nodes satisfying
    /// `predicate`; the whole search stops as soon as the cap is reached.
    /// The `collects` clause pins the walk along `forest_reach`: the
    /// results are the approved visits of a prefix of it, in visitation
    /// order, nothing skipped but the rejected and nothing cut short but by
    /// the cap (see also `law_traversal_order`).
    pub fn search_all<CB: Fn(&NaryNode<T>) -> bool + Copy>(
        &self,
        max_results: usize,
        predicate: CB,
    ) -> (r: Vec<Pointer>)
        requires
            forall|t: int|
                0 <= t < self.root_list@.len() ==> is_grounded(
                    *self,
                    #[trigger] self.root_list@[t],
                ),
            forall|n: &NaryNode<T>| predicate.requires((n,)),
        ensures
            r@.len() <= max_results,
            forall|i: int|
                0 <= i < r@.len() ==> {
                    &&& exists|t: int|
                        #![trigger reach(*self, self.root_list@[t])]
                        0 <= t < self.root_list@.len() && reach(*self, self.root_list@[t]).contains(
                            #[trigger] r@[i],
                        )
                    &&& call_ensures(predicate, (&self.memory@[r@[i] as int],), true)
                },
            r@.len() < max_results ==> forall|t: int, i: int|
                0 <= t < self.root_list@.len() && 0 <= i < reach(
                    *self,
                    #[trigger] self.root_list@[t],
                ).len() ==> r@.contains(#[trigger] reach(*self, self.root_list@[t])[i])
                    || call_ensures(
                    predicate,
                    (&self.memory@[reach(*self, self.root_list@[t])[i] as int],),
                    false,
                ),
            collects(
                *self,
                forest_reach(*self, 0),
                Seq::<Pointer>::empty(),
                r@,
                max_results as int,
                predicate,
            ),
    {
        let mut results: Vec<Pointer> = Vec::new();
        let mut t: usize = 0;
        let nroots = self.root_list.len();
        let ghost visited = Seq::<Pointer>::empty();
        let ghost gpos = Seq::<int>::empty();
        let ghost gcut: int = 0;
        proof {
            assert(forest_reach(*self, 0) =~= visited + forest_reach(*self, 0));
            assert(collects_at(
                *self,
                visited,
                Seq::<Pointer>::empty(),
                results@,
                max_results as int,
                predicate,
                gpos,
                gcut,
            ));
        }
        while t < nroots
            invariant
                nroots == self.root_list@.len(),
                t <= nroots,
                forall|t2: int|
                    0 <= t2 < self.root_list@.len() ==> is_grounded(
                        *self,
                        #[trigger] self.root_list@[t2],
                    ),
                forall|n2: &NaryNode<T>| predicate.requires((n2,)),
                results@.len() <= max_results,
                forest_reach(*self, 0) == visited + forest_reach(*self, t as int),
                collects_at(
                    *self,
                    visited,
                    Seq::<Pointer>::empty(),
                    results@,
                    max_results as int,
                    predicate,
                    gpos,
                    gcut,
                ),
                forall|i: int|
                    0 <= i < results@.len() ==> {
                        &&& exists|t2: int|
                            0 <= t2 < self.root_list@.len() && reach(
                                *self,
                                self.root_list@[t2],
                            ).contains(#[trigger] results@[i])
                        &&& call_ensures(predicate, (&self.memory@[results@[i] as int],), true)
                    },
                results@.len() < max_results ==> forall|t2: int, i: int|
                    0 <= t2 < t && 0 <= i < reach(*self, #[trigger] self.root_list@[t2]).len()
                        ==> results@.contains(#[trigger] reach(*self, self.root_list@[t2])[i])
                        || call_ensures(
                        predicate,
                        (&self.memory@[reach(*self, self.root_list@[t2])[i] as int],),
                        false,
                    ),
            decreases nroots - t,
        {
            let root_ptr = self.root_list[t];
            let ghost res_before = results@;
            self.search_and_collect(root_ptr, &mut results, max_results, predicate);
            proof {
                assert forall|x: Pointer| res_before.contains(x) implies results@.contains(x) by {
                    let ix = choose|ix: int| 0 <= ix < res_before.len() && res_before[ix] == x;
                    assert(results@[ix] == x);
                }
                assert forall|i: int|
                    0 <= i < results@.len() implies {
                        &&& exists|t2: int|
                            #![trigger reach(*self, self.root_list@[t2])]
                            0 <= t2 < self.root_list@.len() && reach(
                                *self,
                                self.root_list@[t2],
                            ).contains(#[trigger] results@[i])
                        &&& call_ensures(predicate, (&self.memory@[results@[i] as int],), true)
                    } by {
                    if i < res_before.len() {
                        assert(results@[i] == res_before[i]);
                    } else {
                        assert(reach(*self, self.root_list@[t as int]).contains(results@[i]));
                    }
                }
                let rt = reach(*self, self.root_list@[t as int]);
                let (pos_c, cut_c) = choose|pos_c: Seq<int>, cut_c: int|
                    collects_at(
                        *self,
                        rt,
                        res_before,
                        results@,
                        max_results as int,
                        predicate,
                        pos_c,
                        cut_c,
                    );
                let composed = lemma_collects_compose(
                    *self,
                    visited,
                    rt,
                    Seq::<Pointer>::empty(),
                    res_before,
                    results@,
                    max_results as int,
                    predicate,
                    gpos,
                    gcut,
                    pos_c,
                    cut_c,
                );
                gpos = composed.0;
                gcut = composed.1;
                assert(forest_reach(*self, t as int) == rt + forest_reach(*self, t as int + 1));
                assert(visited + forest_reach(*self, t as int) =~= (visited + rt) + forest_reach(
                    *self,
                    t as int + 1,
                ));
                visited = visited + rt;
            }
            t = t + 1;
        }
        proof {
            assert(forest_reach(*self, t as int) == Seq::<Pointer>::empty());
            assert(forest_reach(*self, 0) =~= visited);
            assert(collects_at(
                *self,
                forest_reach(*self, 0),
                Seq::<Pointer>::empty(),
                results@,
                max_results as int,
                predicate,
                gpos,
                gcut,
            ));
        }
        results
    }
}

/// Bounded-depth soundness of the tree hanging at `root`: within `fuel`
/// levels every reachable slot is in range and its children are again
/// grounded. A cycle reachable from `root` is grounded by no fuel.
pub open spec fn grounded<T>(f: NaryForest<T>, root: Pointer, fuel: nat) -> bool
    decreases fuel, 0int, 0int,
{
    root == NULL || {
        &&& fuel > 0
        &&& (root as int) < f.memory@.len()
        &&& children_grounded(f, root, 0, (fuel - 1) as nat)
    }
}

/// The children of `p` from position `i` on, each grounded within `fuel`.
pub open spec fn children_grounded<T>(f: NaryForest<T>, p: Pointer, i: int, fuel: nat) -> bool
    decreases fuel, 1int, f.memory@[p as int].children@.len() - i,
{
    (p as int) < f.memory@.len() ==> (0 <= i < f.memory@[p as int].children@.len() ==> {
        &&& grounded(f, f.memory@[p as int].children@[i], fuel)
        &&& children_grounded(f, p, i + 1, fuel)
    })
}

/// The pre-order visitation sequence of the tree at `root`, parent first,
/// children left to right, within `fuel` levels.
pub open spec fn subtree_seq<T>(f: NaryForest<T>, root: Pointer, fuel: nat) -> Seq<Pointer>
    decreases fuel, 0int, 0int,
{
    if root == NULL || (root as int) >= f.memory@.len() || fuel == 0 {
        Seq::empty()
    } else {
        seq![root] + children_seq(f, root, 0, (fuel - 1) as nat)
    }
}

/// The concatenated visitation sequences of `p`'s children from position
/// `i` on.
pub open spec fn children_seq<T>(f: NaryForest<T>, p: Pointer, i: int, fuel: nat) -> Seq<Pointer>
    decreases fuel, 1int, f.memory@[p as int].children@.len() - i,
{
    if (p as int) >= f.memory@.len() || i < 0 || i >= f.memory@[p as int].children@.len() {
        Seq::empty()
    } else {
        subtree_seq(f, f.memory@[p as int].children@[i], fuel) + children_seq(f, p, i + 1, fuel)
    }
}

/// Whether some fuel grounds the tree at `root`: it is acyclic and in
/// range, so a traversal terminates.
pub open spec fn is_grounded<T>(f: NaryForest<T>, root: Pointer) -> bool {
    exists|fuel: nat| grounded(f, root, fuel)
}

/// The pre-order visitation sequence of the tree at `root`, for any
/// grounding fuel (see `lemma_reach_is`).
pub open spec fn reach<T>(f: NaryForest<T>, root: Pointer) -> Seq<Pointer> {
    subtree_seq(f, root, choose|fuel: nat| grounded(f, root, fuel))
}

/// More fuel keeps a tree grounded.
pub proof fn lemma_grounded_mono<T>(f: NaryForest<T>, root: Pointer, fuel1: nat, fuel2: nat)
    requires
        grounded(f, root, fuel1),
        fuel1 <= fuel2,
    ensures
        grounded(f, root, fuel2),
    decreases fuel1, 0int, 0int,
{
    if root != NULL {
        lemma_children_grounded_mono(f, root, 0, (fuel1 - 1) as nat, (fuel2 - 1) as nat);
    }
}

proof fn lemma_children_grounded_mono<T>(
    f: NaryForest<T>,
    p: Pointer,
    i: int,
    fuel1: nat,
    fuel2: nat,
)
    requires
        children_grounded(f, p, i, fuel1),
        fuel1 <= fuel2,
        (p as int) < f.memory@.len(),
        0 <= i,
    ensures
        children_grounded(f, p, i, fuel2),
    decreases fuel1, 1int, f.memory@[p as int].children@.len() - i,
{
    if i < f.memory@[p as int].children@.len() {
        lemma_grounded_mono(f, f.memory@[p as int].children@[i], fuel1, fuel2);
        lemma_children_grounded_mono(f, p, i + 1, fuel1, fuel2);
    }
}

/// Once grounded, the visitation sequence no longer depends on the fuel.
pub proof fn lemma_subtree_stable<T>(f: NaryForest<T>, root: Pointer, fuel1: nat, fuel2: nat)
    requires
        grounded(f, root, fuel1),
        fuel1 <= fuel2,
    ensures
        subtree_seq(f, root, fuel2) == subtree_seq(f, root, fuel1),
    decreases fuel1, 0int, 0int,
{
    if root != NULL {
        lemma_children_seq_stable(f, root, 0, (fuel1 - 1) as nat, (fuel2 - 1) as nat);
    }
}

proof fn lemma_children_seq_stable<T>(
    f: NaryForest<T>,
    p: Pointer,
    i: int,
    fuel1: nat,
    fuel2: nat,
)
    requires
        children_grounded(f, p, i, fuel1),
        fuel1 <= fuel2,
        (p as int) < f.memory@.len(),
        0 <= i,
    ensures
        children_seq(f, p, i, fuel2) == children_seq(f, p, i, fuel1),
    decreases fuel1, 1int, f.memory@[p as int].children@.len() - i,
{
    if i < f.memory@[p as int].children@.len() {
        lemma_subtree_stable(f, f.memory@[p as int].children@[i], fuel1, fuel2);
        lemma_children_seq_stable(f, p, i + 1, fuel1, fuel2);
    }
}

/// `reach` agrees with the bounded visitation sequence under any fuel that
/// grounds the tree.
pub proof fn lemma_reach_is<T>(f: NaryForest<T>, root: Pointer, fuel: nat)
    requires
        grounded(f, root, fuel),
    ensures
        is_grounded(f, root),
        reach(f, root) == subtree_seq(f, root, fuel),
{
    assert(is_grounded(f, root));
    let c = choose|c: nat| grounded(f, root, c);
    if c <= fuel {
        lemma_subtree_stable(f, root, c, fuel);
    } else {
        lemma_subtree_stable(f, root, fuel, c);
    }
}

/// One witness that `post` extends `pre` exactly as a capped pre-order
/// collection along the visitation sequence `st` would: `pos` lists the
/// visitation positions of the appended pointers, strictly increasing, each
/// of them approved by the predicate; every visited position that was not
/// collected was rejected; and `cut`, how far the walk got, is the whole of
/// `st` unless the cap ended the walk early.
pub open spec fn collects_at<T, CB: Fn(&NaryNode<T>) -> bool>(
    f: NaryForest<T>,
    st: Seq<Pointer>,
    pre: Seq<Pointer>,
    post: Seq<Pointer>,
    max: int,
    predicate: CB,
    pos: Seq<int>,
    cut: int,
) -> bool {
    &&& pre.is_prefix_of(post)
    &&& post.len() - pre.len() == pos.len()
    &&& 0 <= cut <= st.len()
    &&& forall|m: int| 0 <= m < pos.len() ==> 0 <= #[trigger] pos[m] < cut
    &&& forall|m: int|
        0 <= m < pos.len() ==> #[trigger] post[pre.len() + m] == st[pos[m]] && call_ensures(
            predicate,
            (&f.memory@[st[pos[m]] as int],),
            true,
        )
    &&& forall|m: int| 0 <= m < pos.len() - 1 ==> #[trigger] pos[m] < pos[m + 1]
    &&& forall|j: int|
        0 <= j < cut && !pos.contains(j) ==> call_ensures(
            predicate,
            (&f.memory@[st[j] as int],),
            false,
        )
    &&& cut < st.len() ==> post.len() >= max
    &&& post.len() <= (if pre.len() > max {
        pre.len() as int
    } else {
        max
    })
}

/// `post` extends `pre` exactly as a capped pre-order collection along
/// `st`: the appended pointers are the matches of a prefix of `st` — the
/// whole of `st`, unless the cap ended the walk — in visitation order,
/// nothing skipped and nothing repeated beyond `st` itself.
pub open spec fn collects<T, CB: Fn(&NaryNode<T>) -> bool>(
    f: NaryForest<T>,
    st: Seq<Pointer>,
    pre: Seq<Pointer>,
    post: Seq<Pointer>,
    max: int,
    predicate: CB,
) -> bool {
    exists|pos: Seq<int>, cut: int| collects_at(f, st, pre, post, max, predicate, pos, cut)
}

/// Walking `a` and then `b` is one walk of `a + b`: collection witnesses
/// compose across concatenation of visitation sequences.
proof fn lemma_collects_compose<T, CB: Fn(&NaryNode<T>) -> bool>(
    f: NaryForest<T>,
    a: Seq<Pointer>,
    b: Seq<Pointer>,
    pre: Seq<Pointer>,
    mid: Seq<Pointer>,
    post: Seq<Pointer>,
    max: int,
    predicate: CB,
    pos1: Seq<int>,
    cut1: int,
    pos2: Seq<int>,
    cut2: int,
) -> (r: (Seq<int>, int))
    requires
        collects_at(f, a, pre, mid, max, predicate, pos1, cut1),
        collects_at(f, b, mid, post, max, predicate, pos2, cut2),
    ensures
        collects_at(f, a + b, pre, post, max, predicate, r.0, r.1),
{
    let shifted = pos2.map_values(|p: int| a.len() + p);
    let pos = pos1 + shifted;
    let cut: int = if cut1 < a.len() {
        cut1
    } else {
        a.len() + cut2
    };
    let ab = a + b;
    if cut1 < a.len() {
        // The cap ended the first walk; the second can have appended
        // nothing.
        assert(mid.len() >= max);
        assert(post.len() <= mid.len());
        assert(post =~= mid);
        assert(pos2.len() == 0);
        assert(pos =~= pos1);
        assert forall|j: int|
            0 <= j < cut && !pos.contains(j) implies call_ensures(
            predicate,
            (&f.memory@[ab[j] as int],),
            false,
        ) by {
            if pos1.contains(j) {
                let m = choose|m: int| 0 <= m < pos1.len() && pos1[m] == j;
                assert(pos[m] == j);
            }
            assert(ab[j] == a[j]);
        }
        assert(collects_at(f, ab, pre, post, max, predicate, pos, cut));
    } else {
        assert(cut1 == a.len());
        assert forall|m: int|
            0 <= m < pos.len() implies 0 <= #[trigger] pos[m] < cut by {
            if m >= pos1.len() {
                assert(pos[m] == shifted[m - pos1.len()]);
                assert(shifted[m - pos1.len()] == a.len() + pos2[m - pos1.len()]);
            }
        }
        assert forall|m: int|
            0 <= m < pos.len() implies #[trigger] post[pre.len() + m] == ab[pos[m]]
                && call_ensures(predicate, (&f.memory@[ab[pos[m]] as int],), true) by {
            if m < pos1.len() {
                assert(mid[pre.len() + m] == a[pos1[m]]);
                assert(post[pre.len() + m] == mid[pre.len() + m]);
                assert(ab[pos[m]] == a[pos1[m]]);
            } else {
                let m2 = m - pos1.len();
                assert(pos[m] == a.len() + pos2[m2]);
                assert(post[mid.len() + m2] == b[pos2[m2]]);
                assert(pre.len() + m == mid.len() + m2);
                assert(ab[a.len() + pos2[m2]] == b[pos2[m2]]);
            }
        }
        assert forall|m: int| 0 <= m < pos.len() - 1 implies #[trigger] pos[m] < pos[m + 1] by {
            if m < pos1.len() - 1 {
            } else if m == pos1.len() - 1 {
                assert(pos[m] == pos1[m] && pos1[m] < cut1);
                assert(pos[m + 1] == a.len() + pos2[0]);
            } else {
                let m2 = m - pos1.len();
                assert(pos[m] == a.len() + pos2[m2]);
                assert(pos[m + 1] == a.len() + pos2[m2 + 1]);
            }
        }
        assert forall|j: int|
            0 <= j < cut && !pos.contains(j) implies call_ensures(
            predicate,
            (&f.memory@[ab[j] as int],),
            false,
        ) by {
            if j < a.len() {
                if pos1.contains(j) {
                    let m = choose|m: int| 0 <= m < pos1.len() && pos1[m] == j;
                    assert(pos[m] == j);
                }
                assert(!pos1.contains(j));
                assert(ab[j] == a[j]);
            } else {
                let j2 = j - a.len();
                assert(0 <= j2 < cut2);
                if pos2.contains(j2) {
                    let m = choose|m: int| 0 <= m < pos2.len() && pos2[m] == j2;
                    assert(shifted[m] == j);
                    assert(pos[pos1.len() + m] == j);
                }
                assert(!pos2.contains(j2));
                assert(ab[j] == b[j2]);
            }
        }
        assert(post.len() - pre.len() == pos.len());
        assert(cut < ab.len() ==> post.len() >= max);
        assert(collects_at(f, ab, pre, post, max, predicate, pos, cut));
    }
    (pos, cut)
}

/// A strictly increasing run of positions starting at or above its index.
proof fn lemma_increasing_lower(pos: Seq<int>, m: int)
    requires
        forall|i: int| 0 <= i < pos.len() ==> 0 <= #[trigger] pos[i],
        forall|i: int| 0 <= i < pos.len() - 1 ==> #[trigger] pos[i] < pos[i + 1],
        0 <= m < pos.len(),
    ensures
        pos[m] >= m,
    decreases m,
{
    if m > 0 {
        lemma_increasing_lower(pos, m - 1);
    }
}

/// A strictly increasing run of positions never falls between two of its
/// indices.
proof fn lemma_increasing_mono(pos: Seq<int>, i: int, j: int)
    requires
        forall|i2: int| 0 <= i2 < pos.len() - 1 ==> #[trigger] pos[i2] < pos[i2 + 1],
        0 <= i <= j < pos.len(),
    ensures
        pos[i] <= pos[j],
    decreases j - i,
{
    if i < j {
        lemma_increasing_mono(pos, i, j - 1);
    }
}

/// A strictly increasing run of positions inside `[0, c)` that covers every
/// value of `[0, c)` is the identity.
proof fn lemma_increasing_cover_identity(pos: Seq<int>, c: int, m: int)
    requires
        forall|i: int| 0 <= i < pos.len() ==> 0 <= #[trigger] pos[i] < c,
        forall|i: int| 0 <= i < pos.len() - 1 ==> #[trigger] pos[i] < pos[i + 1],
        forall|j: int| 0 <= j < c ==> pos.contains(j),
        0 <= m < pos.len(),
    ensures
        pos[m] == m,
    decreases m,
{
    lemma_increasing_lower(pos, m);
    if pos[m] > m {
        assert(pos.contains(m));
        let im = choose|im: int| 0 <= im < pos.len() && pos[im] == m;
        if im > m {
            lemma_increasing_mono(pos, m, im);
        }
        assert(im < m);
        lemma_increasing_cover_identity(pos, c, im);
        assert(false);
    }
}

/// Forest traversal order: a predicate whose contract forces the answer
/// `true` of every node collects, absent an early cap, exactly the
/// visitation sequence — every tree in root-list order, each tree in
/// pre-order, children left to right.
pub proof fn law_traversal_order<T, CB: Fn(&NaryNode<T>) -> bool>(
    f: NaryForest<T>,
    st: Seq<Pointer>,
    post: Seq<Pointer>,
    max: int,
    predicate: CB,
)
    requires
        collects(f, st, Seq::<Pointer>::empty(), post, max, predicate),
        st.len() <= max,
        forall|n: &NaryNode<T>, b: bool| call_ensures(predicate, (n,), b) ==> b,
    ensures
        post == st,
{
    let (pos, cut) = choose|pos: Seq<int>, cut: int|
        collects_at(f, st, Seq::<Pointer>::empty(), post, max, predicate, pos, cut);
    assert forall|j: int| 0 <= j < cut implies pos.contains(j) by {
        if !pos.contains(j) {
            assert(call_ensures(predicate, (&f.memory@[st[j] as int],), false));
        }
    }
    if cut < st.len() {
        assert(post.len() >= max >= st.len());
        assert(pos.len() >= st.len() > cut);
        lemma_increasing_lower(pos, cut);
        assert(pos[cut] >= cut);
        assert(false);
    }
    assert(cut == st.len());
    if post.len() > st.len() {
        lemma_increasing_lower(pos, st.len() as int);
        assert(false);
    }
    if post.len() < st.len() {
        assert(pos.contains(st.len() - 1));
        let im = choose|im: int| 0 <= im < pos.len() && pos[im] == st.len() - 1;
        lemma_increasing_cover_identity(pos, cut, im);
        assert(false);
    }
    assert forall|m: int| 0 <= m < post.len() implies post[m] == st[m] by {
        lemma_increasing_cover_identity(pos, cut, m);
        assert(post[0 + m] == st[pos[m]]);
    }
    assert(post =~= st);
}

/// The concatenated visitation sequences of the forest's trees from
/// root-list position `t` on: root-list order, pre-order within each tree.
pub open spec fn forest_reach<T>(f: NaryForest<T>, t: int) -> Seq<Pointer>
    decreases f.root_list@.len() - t,
{
    if t < 0 || t >= f.root_list@.len() {
        Seq::empty()
    } else {
        reach(f, f.root_list@[t]) + forest_reach(f, t + 1)
    }
}

/// The exact effect of `free(node)` for a non-`NULL` node: the slot loses
/// its payload, its children collapse to the single link to the previous
/// chain head, and it becomes the new chain head. Nothing else moves.
pub open spec fn frees_to<T>(pre: NaryForest<T>, node: Pointer, post: NaryForest<T>) -> bool {
    &&& (node as int) < pre.memory@.len()
    &&& post.memory@.len() == pre.memory@.len()
    &&& post.root_list == pre.root_list
    &&& post.pool == node
    &&& post.free@ == seq![node] + pre.free@
    &&& post.memory@[node as int].data is None
    &&& post.memory@[node as int].parent == pre.memory@[node as int].parent
    &&& post.memory@[node as int].children@ == seq![pre.pool]
    &&& forall|q: int|
        0 <= q < pre.memory@.len() && q != node as int ==> post.memory@[q] == pre.memory@[q]
}

/// The exact effect of `allocate(v)`: either the free-chain head is
/// recycled, or a fresh slot is appended; the claimed slot holds `v` with no
/// parent and no children. Nothing else moves.
pub open spec fn allocates_to<T>(
    pre: NaryForest<T>,
    v: T,
    post: NaryForest<T>,
    r: Pointer,
) -> bool {
    &&& r != NULL
    &&& (r as int) < post.memory@.len()
    &&& post.root_list == pre.root_list
    &&& post.memory@[r as int].parent == NULL
    &&& post.memory@[r as int].data == Some(v)
    &&& post.memory@[r as int].children@ == Seq::<Pointer>::empty()
    &&& if pre.pool == NULL {
        &&& r as int == pre.memory@.len()
        &&& post.memory@.len() == pre.memory@.len() + 1
        &&& post.pool == NULL
        &&& post.free@ == pre.free@
        &&& forall|q: int| 0 <= q < pre.memory@.len() ==> post.memory@[q] == pre.memory@[q]
    } else {
        &&& r == pre.pool
        &&& post.memory@.len() == pre.memory@.len()
        &&& post.pool == pre.memory@[r as int].children@[0]
        &&& post.free@ == pre.free@.drop_first()
        &&& forall|q: int|
            0 <= q < pre.memory@.len() && q != r as int ==> post.memory@[q] == pre.memory@[q]
    }
}

/// The exact effect of `allocate_node(node)`: as `allocate`, but the
/// claimed slot holds the caller's node verbatim.
pub open spec fn node_allocates_to<T>(
    pre: NaryForest<T>,
    node: NaryNode<T>,
    post: NaryForest<T>,
    r: Pointer,
) -> bool {
    &&& r != NULL
    &&& (r as int) < post.memory@.len()
    &&& post.root_list == pre.root_list
    &&& post.memory@[r as int].parent == node.parent
    &&& post.memory@[r as int].data == node.data
    &&& post.memory@[r as int].children == node.children
    &&& if pre.pool == NULL {
        &&& r as int == pre.memory@.len()
        &&& post.memory@.len() == pre.memory@.len() + 1
        &&& post.pool == NULL
        &&& post.free@ == pre.free@
        &&& forall|q: int| 0 <= q < pre.memory@.len() ==> post.memory@[q] == pre.memory@[q]
    } else {
        &&& r == pre.pool
        &&& post.memory@.len() == pre.memory@.len()
        &&& post.pool == pre.memory@[r as int].children@[0]
        &&& post.free@ == pre.free@.drop_first()
        &&& forall|q: int|
            0 <= q < pre.memory@.len() && q != r as int ==> post.memory@[q] == pre.memory@[q]
    }
}

/// Recycling gives back the slot just freed: freeing `node` and then
/// allocating returns `node`'s own address, and the reborn node is pristine
/// — payload `v`, no parent, no children.
pub proof fn law_recycling<T>(
    f0: NaryForest<T>,
    f1: NaryForest<T>,
    f2: NaryForest<T>,
    node: Pointer,
    v: T,
    r: Pointer,
)
    requires
        node != NULL,
        frees_to(f0, node, f1),
        allocates_to(f1, v, f2, r),
    ensures
        r == node,
        f2.memory@[node as int].parent == NULL,
        f2.memory@[node as int].data == Some(v),
        f2.memory@[node as int].children@ == Seq::<Pointer>::empty(),
        f2.memory@.len() == f0.memory@.len(),
        f2.pool == f0.pool,
{
}

} // verus!
