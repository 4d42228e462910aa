//! A bounded least-recently-used cache: a hash table from key to node index
//! layered over an arena-backed doubly-linked list that keeps the entries in
//! recency order, most recently used first.

use vstd::prelude::*;
use vstd::hash_map::HashMapWithView;
use vstd::std_specs::hash::obeys_key_model;
use core::hash::Hash;
use crate::linked_list::{LinkedList, Ptr, NULL};

verus! {

/// A key type the cache can carry in proofs: hashing agrees with the
/// abstract key (the view), the view determines the key, and cloning hands
/// back the very same key.
pub open spec fn faithful_key<K: View + Eq + Hash + Clone>() -> bool {
    &&& obeys_key_model::<K>()
    &&& forall|k1: K, k2: K| k1@ == k2@ ==> k1 == k2
    &&& forall|k: K, c: K| #[trigger] cloned::<K>(k, c) ==> c == k
}

/// Whether the abstract cache state `vs` (recency order, front first) holds
/// key `k`.
pub open spec fn has_key<A, B>(vs: Seq<(A, B)>, k: A) -> bool {
    exists|i: int| 0 <= i < vs.len() && (#[trigger] vs[i]).0 == k
}

/// The position of key `k` in `vs`; meaningful when `has_key(vs, k)` and the
/// keys of `vs` are distinct.
pub open spec fn key_index<A, B>(vs: Seq<(A, B)>, k: A) -> int {
    choose|i: int| 0 <= i < vs.len() && (#[trigger] vs[i]).0 == k
}

/// What `put(k, v)` does to the abstract cache state: an existing key is
/// re-valued and promoted to the front; a new key is pushed at the front,
/// evicting the rear entry when the cache is full; a zero-capacity cache
/// ignores the put.
pub open spec fn lru_put<A, B>(vs: Seq<(A, B)>, cap: nat, k: A, v: B) -> Seq<(A, B)> {
    if has_key(vs, k) {
        seq![(k, v)] + vs.remove(key_index(vs, k))
    } else if vs.len() < cap {
        seq![(k, v)] + vs
    } else if cap > 0 {
        seq![(k, v)] + vs.drop_last()
    } else {
        vs
    }
}

/// What `get(k)` does to the abstract cache state: an existing key is
/// promoted to the front, a missing key changes nothing.
pub open spec fn lru_get<A, B>(vs: Seq<(A, B)>, k: A) -> Seq<(A, B)> {
    if has_key(vs, k) {
        seq![vs[key_index(vs, k)]] + vs.remove(key_index(vs, k))
    } else {
        vs
    }
}

/// An LRU cache holding at most `cache_size` entries.
#[verifier::reject_recursive_types(K)]
pub struct LruCache<K: View + Eq + Hash, V> {
    key_table: HashMapWithView<K, Ptr>,
    list: LinkedList<(K, V)>,
    cache_size: usize,
}

impl<K: View + Eq + Hash, V> View for LruCache<K, V> {
    type V = Seq<(<K as View>::V, V)>;

    /// The entries in recency order, most recently used first, each as
    /// (abstract key, value).
    closed spec fn view(&self) -> Seq<(<K as View>::V, V)> {
        Seq::new(self.list@.len(), |i: int| (self.list@[i].0@, self.list@[i].1))
    }
}

impl<K: View + Eq + Hash + Clone, V> LruCache<K, V> {
    /// The configured capacity.
    pub closed spec fn cap(self) -> nat {
        self.cache_size as nat
    }

    /// Internal soundness: the list is sound and within capacity with no
    /// idle free slot, entry keys are distinct, and the hash table maps
    /// exactly the entry keys to the list slots that hold them.
    pub closed spec fn wf(self) -> bool {
        &&& self.list.wf()
        &&& faithful_key::<K>()
        &&& (self.cache_size as int) < (NULL as int)
        &&& self.list.free_count() == 0
        &&& self.list@.len() <= self.cache_size
        &&& forall|i: int, j: int|
            0 <= i < j < self.list@.len() ==> self.list@[i].0@ != self.list@[j].0@
        &&& forall|i: int|
            0 <= i < self.list@.len() ==> {
                &&& self.key_table@.contains_key(#[trigger] self.list@[i].0@)
                &&& self.key_table@[self.list@[i].0@] == self.list.ptrs()[i]
            }
        &&& forall|kv: <K as View>::V|
            #[trigger] self.key_table@.contains_key(kv) ==> has_key(self@, kv)
    }

    /// Creates a cache that will hold at most `cache_size` entries. No arena
    /// slot is allocated here.
    pub fn new(cache_size: usize) -> (cache: Self)
        requires
            faithful_key::<K>(),
            (cache_size as int) < (NULL as int),
        ensures
            cache.wf(),
            cache@ == Seq::<(<K as View>::V, V)>::empty(),
            cache.cap() == cache_size,
    {
        let cache = Self { key_table: HashMapWithView::new(), list: LinkedList::new(), cache_size };
        proof {
            assert(cache@ =~= Seq::<(<K as View>::V, V)>::empty());
        }
        cache
    }

    /// The number of entries currently cached.
    pub fn len(&self) -> (r: usize)
        requires
            self.wf(),
        ensures
            r == self@.len(),
    {
        self.list.len()
    }

    /// Inserts or re-values `key`, making it the most recently used entry.
    /// When the cache is full and `key` is new, the least recently used
    /// entry is evicted to make room.
    pub fn put(&mut self, key: K, val: V)
        requires
            old(self).wf(),
        ensures
            final(self).wf(),
            final(self).cap() == old(self).cap(),
            final(self)@ == lru_put(old(self)@, old(self).cap(), key@, val),
            old(self).cap() > 0 ==> final(self)@.len() > 0 && final(self)@[0] == (key@, val),
    {
        proof {
            self.list.lemma_counts();
        }
        let cur_opt: Option<Ptr> = match self.key_table.get(&key) {
            Some(p) => Some(*p),
            None => None,
        };
        match cur_opt {
            Some(cur_node) => {
                // `key` is present: detach its node, push the new value at
                // the front, and point the table at the new slot.
                let ghost i = choose|i: int|
                    0 <= i < old(self)@.len() && old(self)@[i].0 == key@;
                proof {
                    assert(self.key_table@[self.list@[i].0@] == self.list.ptrs()[i]);
                    assert(self.list.ptrs().contains(self.list.ptrs()[i]));
                }
                let removed = self.list.remove(cur_node);
                let (rkey, _rval) = match removed {
                    Some(pair) => pair,
                    None => {
                        proof {
                            assert(false);
                        }
                        return ;
                    },
                };
                let ghost j = choose|j: int|
                    {
                        &&& 0 <= j < old(self).list@.len()
                        &&& old(self).list.ptrs()[j] == cur_node
                        &&& (rkey, _rval) == old(self).list@[j]
                        &&& self.list@ == old(self).list@.remove(j)
                        &&& self.list.ptrs() == old(self).list.ptrs().remove(j)
                    };
                proof {
                    old(self).list.lemma_counts();
                    if j != i {
                        assert(old(self).list.ptrs()[j] == old(self).list.ptrs()[i]);
                        assert(false);
                    }
                    assert(rkey@ == key@);
                }
                self.list.push_front((rkey, val));
                let new_ptr = self.list.front_ptr();
                self.key_table.insert(key, new_ptr);
                proof {
                    self.lemma_put_promote_wf(*old(self), i, rkey, val, new_ptr);
                }
            },
            None => {
                proof {
                    if has_key(old(self)@, key@) {
                        let i = key_index(old(self)@, key@);
                        assert(self.key_table@.contains_key(self.list@[i].0@));
                    }
                }
                if self.list.len() < self.cache_size {
                    // Room to spare: push a fresh entry at the front.
                    let key2 = key.clone();
                    proof {
                        assert(cloned::<K>(key, key2));
                    }
                    self.list.push_front((key2, val));
                    let new_ptr = self.list.front_ptr();
                    self.key_table.insert(key, new_ptr);
                    proof {
                        assert(key2 == key);
                        self.lemma_put_fresh_wf(*old(self), key2, val, new_ptr);
                    }
                } else if self.cache_size > 0 {
                    // Full: evict the least recently used entry, then push.
                    proof {
                        assert(old(self)@.len() > 0);
                        assert(old(self)@[old(self)@.len() - 1].0 == old(self).list@[old(
                            self,
                        ).list@.len() - 1].0@);
                    }
                    let popped = self.list.pop_rear();
                    let (rkey, _rval) = match popped {
                        Some(pair) => pair,
                        None => {
                            proof {
                                assert(false);
                            }
                            return ;
                        },
                    };
                    self.key_table.remove(&rkey);
                    let key2 = key.clone();
                    proof {
                        assert(cloned::<K>(key, key2));
                    }
                    self.list.push_front((key2, val));
                    let new_ptr = self.list.front_ptr();
                    self.key_table.insert(key, new_ptr);
                    proof {
                        assert(key2 == key);
                        self.lemma_put_evict_wf(*old(self), key2, val, new_ptr);
                    }
                }
                // cache_size == 0: a put is a documented no-op.
            },
        }
    }

    /// Fetches the value stored for `key` and promotes that entry to most
    /// recently used; `None` when `key` is absent. A read counts as a use.
    pub fn get(&mut self, key: &K) -> (r: Option<&V>)
        requires
            old(self).wf(),
        ensures
            final(self).wf(),
            final(self).cap() == old(self).cap(),
            final(self)@ == lru_get(old(self)@, key@),
            r is Some <==> has_key(old(self)@, key@),
            r is None ==> *final(self) == *old(self),
            r matches Some(v) ==> {
                &&& final(self)@.len() > 0
                &&& final(self)@[0] == (key@, *v)
                &&& *v == old(self)@[key_index(old(self)@, key@)].1
            },
    {
        proof {
            self.list.lemma_counts();
        }
        let cur_opt: Option<Ptr> = match self.key_table.get(key) {
            Some(p) => Some(*p),
            None => None,
        };
        match cur_opt {
            None => {
                proof {
                    if has_key(old(self)@, key@) {
                        let i = key_index(old(self)@, key@);
                        assert(self.key_table@.contains_key(self.list@[i].0@));
                    }
                }
                None
            },
            Some(cur_node) => {
                let ghost i = choose|i: int|
                    0 <= i < old(self)@.len() && old(self)@[i].0 == key@;
                proof {
                    assert(self.key_table@[self.list@[i].0@] == self.list.ptrs()[i]);
                    assert(self.list.ptrs().contains(self.list.ptrs()[i]));
                }
                let removed = self.list.remove(cur_node);
                let (rkey, rval) = match removed {
                    Some(pair) => pair,
                    None => {
                        proof {
                            assert(false);
                        }
                        return None;
                    },
                };
                let ghost j = choose|j: int|
                    {
                        &&& 0 <= j < old(self).list@.len()
                        &&& old(self).list.ptrs()[j] == cur_node
                        &&& (rkey, rval) == old(self).list@[j]
                        &&& self.list@ == old(self).list@.remove(j)
                        &&& self.list.ptrs() == old(self).list.ptrs().remove(j)
                    };
                proof {
                    old(self).list.lemma_counts();
                    if j != i {
                        assert(old(self).list.ptrs()[j] == old(self).list.ptrs()[i]);
                        assert(false);
                    }
                    assert(rkey@ == key@);
                }
                self.list.push_front((rkey, rval));
                let new_ptr = self.list.front_ptr();
                let key2 = key.clone();
                proof {
                    assert(cloned::<K>(*key, key2));
                    assert(key2 == *key);
                }
                self.key_table.insert(key2, new_ptr);
                proof {
                    self.lemma_put_promote_wf(*old(self), i, rkey, rval, new_ptr);
                    let ki = key_index(old(self)@, key@);
                    assert(old(self)@[ki].0 == key@);
                    if ki != i {
                        assert(old(self)@[ki].0 != old(self)@[i].0);
                        assert(false);
                    }
                    assert(old(self)@[i] == (key@, rval));
                    assert(lru_put(old(self)@, old(self).cap(), key@, rval) =~= lru_get(
                        old(self)@,
                        key@,
                    ));
                    self.list.lemma_counts();
                }
                let fp = self.list.front_ptr();
                proof {
                    assert(self.list.ptrs()[0] == fp);
                    assert(self.list.ptrs().contains(fp));
                }
                match self.list.peek(fp) {
                    Some(pair) => {
                        proof {
                            let jj = choose|jj: int|
                                {
                                    &&& 0 <= jj < self.list.ptrs().len()
                                    &&& self.list.ptrs()[jj] == fp
                                    &&& *pair == self.list@[jj]
                                };
                            if jj != 0 {
                                assert(self.list.ptrs()[jj] == self.list.ptrs()[0]);
                                assert(false);
                            }
                        }
                        Some(&pair.1)
                    },
                    None => {
                        proof {
                            assert(false);
                        }
                        None
                    },
                }
            },
        }
    }

    /// The entries as clones, most recently used first. Iterating does not
    /// count as a use: recency is unchanged.
    pub fn iter(&self) -> (r: Vec<(K, V)>) where V: Clone
        requires
            self.wf(),
        ensures
            r@.len() == self@.len(),
            forall|i: int|
                0 <= i < r@.len() ==> {
                    &&& (#[trigger] r@[i]).0@ == self@[i].0
                    &&& cloned::<V>(self@[i].1, r@[i].1)
                },
    {
        let refs = self.list.to_refs();
        let mut out: Vec<(K, V)> = Vec::new();
        let mut idx: usize = 0;
        while idx < refs.len()
            invariant
                self.wf(),
                refs@.len() == self.list@.len(),
                forall|i: int| 0 <= i < refs@.len() ==> refs@[i] == self.list@[i],
                out@.len() == idx,
                idx <= refs@.len(),
                forall|i: int|
                    0 <= i < out@.len() ==> {
                        &&& (#[trigger] out@[i]).0@ == self@[i].0
                        &&& cloned::<V>(self@[i].1, out@[i].1)
                    },
            decreases refs@.len() - idx,
        {
            let pair = refs[idx];
            let k2 = pair.0.clone();
            let v2 = pair.1.clone();
            proof {
                assert(cloned::<K>(self.list@[idx as int].0, k2));
                assert(k2 == self.list@[idx as int].0);
            }
            out.push((k2, v2));
            idx = idx + 1;
        }
        out
    }

    /// Re-establishes the invariant and the abstract effect after the
    /// promote path of `put`: the entry at position `i` was detached and a
    /// re-valued entry `(nk, nv)` with the same key pushed at the front,
    /// landing in slot `np`.
    #[verifier::rlimit(100)]
    #[verifier::spinoff_prover]
    proof fn lemma_put_promote_wf(self, pre: Self, i: int, nk: K, nv: V, np: Ptr)
        requires
            pre.wf(),
            0 <= i < pre.list@.len(),
            self.cache_size == pre.cache_size,
            self.list.wf(),
            self.list.free_count() == 0,
            nk@ == pre.list@[i].0@,
            self.list@ == seq![(nk, nv)] + pre.list@.remove(i),
            self.list.ptrs() == seq![np] + pre.list.ptrs().remove(i),
            !pre.list.ptrs().remove(i).contains(np),
            self.key_table@ == pre.key_table@.insert(nk@, np),
        ensures
            self.wf(),
            self@ == lru_put(pre@, pre.cap(), nk@, nv),
    {
        pre.list.lemma_counts();
        self.list.lemma_counts();
        let k = nk@;
        assert(pre@[i].0 == k);
        assert(has_key(pre@, k));
        let ki = key_index(pre@, k);
        assert(pre@[ki].0 == k);
        if ki != i {
            assert(pre@[ki].0 != pre@[i].0);
            assert(false);
        }
        assert forall|a: int, b: int| 0 <= a < b < self.list@.len() implies self.list@[a].0@
            != self.list@[b].0@ by {
            let b2: int = if b - 1 < i {
                b - 1
            } else {
                b
            };
            assert(self.list@[b] == pre.list@[b2]);
            if a > 0 {
                let a2: int = if a - 1 < i {
                    a - 1
                } else {
                    a
                };
                assert(self.list@[a] == pre.list@[a2]);
            } else {
                assert(pre.list@[b2].0@ != pre.list@[i].0@);
            }
        }
        assert forall|a: int| 0 <= a < self.list@.len() implies {
            &&& self.key_table@.contains_key(#[trigger] self.list@[a].0@)
            &&& self.key_table@[self.list@[a].0@] == self.list.ptrs()[a]
        } by {
            if a > 0 {
                let a2: int = if a - 1 < i {
                    a - 1
                } else {
                    a
                };
                assert(self.list@[a] == pre.list@[a2]);
                assert(self.list.ptrs()[a] == pre.list.ptrs()[a2]);
                assert(pre.key_table@.contains_key(pre.list@[a2].0@));
                assert(pre.list@[a2].0@ != k);
            }
        }
        assert forall|kv: <K as View>::V| #[trigger]
            self.key_table@.contains_key(kv) implies has_key(self@, kv) by {
            if kv == k {
                assert(self@[0].0 == kv);
            } else {
                assert(pre.key_table@.contains_key(kv));
                assert(has_key(pre@, kv));
                let a = choose|a: int| 0 <= a < pre@.len() && (#[trigger] pre@[a]).0 == kv;
                assert(a != i);
                let a2: int = if a < i {
                    a + 1
                } else {
                    a
                };
                assert(self.list@[a2] == pre.list@[a]);
                assert(self@[a2].0 == kv);
            }
        }
        assert(self@ =~= lru_put(pre@, pre.cap(), k, nv));
    }

    /// Re-establishes the invariant and the abstract effect after the
    /// fresh-key path of `put`: the cache had room and the new entry
    /// `(nk, nv)` was pushed at the front, landing in slot `np`.
    #[verifier::rlimit(100)]
    #[verifier::spinoff_prover]
    proof fn lemma_put_fresh_wf(self, pre: Self, nk: K, nv: V, np: Ptr)
        requires
            pre.wf(),
            !has_key(pre@, nk@),
            pre.list@.len() < pre.cache_size,
            self.cache_size == pre.cache_size,
            self.list.wf(),
            self.list.free_count() == 0,
            self.list@ == seq![(nk, nv)] + pre.list@,
            self.list.ptrs() == seq![np] + pre.list.ptrs(),
            !pre.list.ptrs().contains(np),
            self.key_table@ == pre.key_table@.insert(nk@, np),
        ensures
            self.wf(),
            self@ == lru_put(pre@, pre.cap(), nk@, nv),
    {
        pre.list.lemma_counts();
        self.list.lemma_counts();
        let k = nk@;
        assert forall|a: int, b: int| 0 <= a < b < self.list@.len() implies self.list@[a].0@
            != self.list@[b].0@ by {
            assert(self.list@[b] == pre.list@[b - 1]);
            if a > 0 {
                assert(self.list@[a] == pre.list@[a - 1]);
            } else {
                assert(pre@[b - 1].0 == pre.list@[b - 1].0@);
                assert(!(pre@[b - 1].0 == k));
            }
        }
        assert forall|a: int| 0 <= a < self.list@.len() implies {
            &&& self.key_table@.contains_key(#[trigger] self.list@[a].0@)
            &&& self.key_table@[self.list@[a].0@] == self.list.ptrs()[a]
        } by {
            if a > 0 {
                assert(self.list@[a] == pre.list@[a - 1]);
                assert(self.list.ptrs()[a] == pre.list.ptrs()[a - 1]);
                assert(pre.key_table@.contains_key(pre.list@[a - 1].0@));
                assert(pre@[a - 1].0 == pre.list@[a - 1].0@);
                assert(pre.list@[a - 1].0@ != k);
            }
        }
        assert forall|kv: <K as View>::V| #[trigger]
            self.key_table@.contains_key(kv) implies has_key(self@, kv) by {
            if kv == k {
                assert(self@[0].0 == kv);
            } else {
                assert(pre.key_table@.contains_key(kv));
                assert(has_key(pre@, kv));
                let a = choose|a: int| 0 <= a < pre@.len() && (#[trigger] pre@[a]).0 == kv;
                assert(self.list@[a + 1] == pre.list@[a]);
                assert(self@[a + 1].0 == kv);
            }
        }
        assert(self@ =~= lru_put(pre@, pre.cap(), k, nv));
    }

    /// Re-establishes the invariant and the abstract effect after the
    /// eviction path of `put`: the rear entry was evicted and unmapped,
    /// then the new entry `(nk, nv)` pushed at the front into slot `np`.
    #[verifier::rlimit(100)]
    #[verifier::spinoff_prover]
    proof fn lemma_put_evict_wf(self, pre: Self, nk: K, nv: V, np: Ptr)
        requires
            pre.wf(),
            !has_key(pre@, nk@),
            pre.list@.len() == pre.cache_size,
            pre.cache_size > 0,
            self.cache_size == pre.cache_size,
            self.list.wf(),
            self.list.free_count() == 0,
            self.list@ == seq![(nk, nv)] + pre.list@.drop_last(),
            self.list.ptrs() == seq![np] + pre.list.ptrs().drop_last(),
            !pre.list.ptrs().drop_last().contains(np),
            self.key_table@ == pre.key_table@.remove(pre.list@[pre.list@.len() - 1].0@).insert(
                nk@,
                np,
            ),
        ensures
            self.wf(),
            self@ == lru_put(pre@, pre.cap(), nk@, nv),
    {
        pre.list.lemma_counts();
        self.list.lemma_counts();
        let k = nk@;
        let rk = pre.list@[pre.list@.len() - 1].0@;
        assert forall|a: int, b: int| 0 <= a < b < self.list@.len() implies self.list@[a].0@
            != self.list@[b].0@ by {
            assert(self.list@[b] == pre.list@[b - 1]);
            if a > 0 {
                assert(self.list@[a] == pre.list@[a - 1]);
            } else {
                assert(pre@[b - 1].0 == pre.list@[b - 1].0@);
                assert(!(pre@[b - 1].0 == k));
            }
        }
        assert forall|a: int| 0 <= a < self.list@.len() implies {
            &&& self.key_table@.contains_key(#[trigger] self.list@[a].0@)
            &&& self.key_table@[self.list@[a].0@] == self.list.ptrs()[a]
        } by {
            if a > 0 {
                assert(self.list@[a] == pre.list@[a - 1]);
                assert(self.list.ptrs()[a] == pre.list.ptrs()[a - 1]);
                assert(pre.key_table@.contains_key(pre.list@[a - 1].0@));
                assert(pre@[a - 1].0 == pre.list@[a - 1].0@);
                assert(pre.list@[a - 1].0@ != k);
                assert(pre@[pre@.len() - 1].0 == rk);
                assert(pre.list@[a - 1].0@ != rk);
            }
        }
        assert forall|kv: <K as View>::V| #[trigger]
            self.key_table@.contains_key(kv) implies has_key(self@, kv) by {
            if kv == k {
                assert(self@[0].0 == kv);
            } else {
                assert(pre.key_table@.contains_key(kv));
                assert(has_key(pre@, kv));
                let a = choose|a: int| 0 <= a < pre@.len() && (#[trigger] pre@[a]).0 == kv;
                assert(kv != rk);
                assert(a != pre@.len() - 1);
                assert(self.list@[a + 1] == pre.list@[a]);
                assert(self@[a + 1].0 == kv);
            }
        }
        assert(self@ =~= lru_put(pre@, pre.cap(), k, nv));
    }
}

/// The keys of the entry sequence `vs` are pairwise distinct.
pub open spec fn distinct_keys<A, B>(vs: Seq<(A, B)>) -> bool {
    forall|i: int, j: int| 0 <= i < j < vs.len() ==> vs[i].0 != vs[j].0
}

/// The set of keys appearing in the entry sequence `vs`.
pub open spec fn keys_of<A, B>(vs: Seq<(A, B)>) -> Set<A> {
    vs.map_values(|p: (A, B)| p.0).to_set()
}

/// The abstract cache state after a whole sequence of `put` calls, oldest
/// call first, starting from the empty cache.
pub open spec fn lru_run<A, B>(cap: nat, puts: Seq<(A, B)>) -> Seq<(A, B)>
    decreases puts.len(),
{
    if puts.len() == 0 {
        Seq::empty()
    } else {
        lru_put(lru_run(cap, puts.drop_last()), cap, puts.last().0, puts.last().1)
    }
}

/// Recency order: right after `put(k, v)` on a cache of positive capacity,
/// the front of the iteration order is exactly `(k, v)`.
pub proof fn law_recency<A, B>(vs: Seq<(A, B)>, cap: nat, k: A, v: B)
    requires
        cap > 0,
    ensures
        lru_put(vs, cap, k, v).len() > 0,
        lru_put(vs, cap, k, v)[0] == (k, v),
{
}

/// Update-not-evict: `put` on an already-present key never changes the
/// cache's size and always promotes that key to the front.
pub proof fn law_update_not_evict<A, B>(vs: Seq<(A, B)>, cap: nat, k: A, v: B)
    requires
        has_key(vs, k),
    ensures
        lru_put(vs, cap, k, v).len() == vs.len(),
        lru_put(vs, cap, k, v)[0] == (k, v),
{
    let i = key_index(vs, k);
    assert(0 <= i < vs.len() && vs[i].0 == k);
}

/// Promotion on hit: `get` on a present key moves exactly that entry to the
/// front, and dropping that front leaves every other entry in its old
/// relative order.
pub proof fn law_promotion<A, B>(vs: Seq<(A, B)>, k: A)
    requires
        has_key(vs, k),
    ensures
        lru_get(vs, k).len() == vs.len(),
        lru_get(vs, k)[0] == vs[key_index(vs, k)],
        lru_get(vs, k).drop_first() == vs.remove(key_index(vs, k)),
{
    let i = key_index(vs, k);
    assert(0 <= i < vs.len() && vs[i].0 == k);
    assert(lru_get(vs, k).drop_first() =~= vs.remove(i));
}

/// Membership in the key set is the same as `has_key`.
proof fn lemma_keys_of_has_key<A, B>(vs: Seq<(A, B)>)
    ensures
        forall|x: A| keys_of(vs).contains(x) <==> has_key(vs, x),
{
    assert forall|x: A| keys_of(vs).contains(x) implies has_key(vs, x) by {
        let m = vs.map_values(|p: (A, B)| p.0);
        let i = choose|i: int| 0 <= i < m.len() && m[i] == x;
        assert(vs[i].0 == x);
    }
    assert forall|x: A| has_key(vs, x) implies keys_of(vs).contains(x) by {
        let m = vs.map_values(|p: (A, B)| p.0);
        let i = choose|i: int| 0 <= i < vs.len() && vs[i].0 == x;
        assert(m[i] == x);
        assert(m.contains(x));
    }
}

/// The running state of a put sequence: the size never passes the capacity
/// and equals the smaller of the capacity and the number of distinct keys
/// put so far, and while the cache is not full it holds exactly the keys put
/// so far.
proof fn lemma_run_shape<A, B>(cap: nat, puts: Seq<(A, B)>)
    ensures
        lru_run(cap, puts).len() <= cap,
        distinct_keys(lru_run(cap, puts)),
        forall|x: A| keys_of(lru_run(cap, puts)).contains(x) ==> keys_of(puts).contains(x),
        lru_run(cap, puts).len() < cap ==> keys_of(lru_run(cap, puts)) == keys_of(puts),
        lru_run(cap, puts).len() == (if keys_of(puts).len() >= cap {
            cap as int
        } else {
            keys_of(puts).len() as int
        }),
    decreases puts.len(),
{
    broadcast use vstd::set::axiom_set_insert_len;
    broadcast use vstd::seq_lib::seq_to_set_is_finite;

    if puts.len() == 0 {
        assert(puts.map_values(|p: (A, B)| p.0) =~= Seq::<A>::empty());
        assert(keys_of(puts) =~= Set::<A>::empty());
    } else {
        let q = puts.drop_last();
        let pr = puts.last();
        let k = pr.0;
        let v = pr.1;
        lemma_run_shape(cap, q);
        lemma_keys_of_has_key(q);
        lemma_keys_of_has_key(puts);
        let c0 = lru_run(cap, q);
        let c1 = lru_run(cap, puts);
        lemma_keys_of_has_key(c0);
        lemma_keys_of_has_key(c1);
        assert(c1 == lru_put(c0, cap, k, v));
        assert(puts.map_values(|p: (A, B)| p.0) =~= q.map_values(|p: (A, B)| p.0).push(k));
        Seq::lemma_push_to_set_commute(q.map_values(|p: (A, B)| p.0), k);
        assert(keys_of(puts) =~= keys_of(q).insert(k));
        assert(keys_of(q).finite());
        if has_key(c0, k) {
            let i = key_index(c0, k);
            assert(0 <= i < c0.len() && c0[i].0 == k);
            assert(c1 == seq![(k, v)] + c0.remove(i));
            assert forall|a: int, b: int| 0 <= a < b < c1.len() implies c1[a].0 != c1[b].0 by {
                let b2: int = if b - 1 < i {
                    b - 1
                } else {
                    b
                };
                assert(c1[b] == c0[b2]);
                if a > 0 {
                    let a2: int = if a - 1 < i {
                        a - 1
                    } else {
                        a
                    };
                    assert(c1[a] == c0[a2]);
                } else {
                    assert(c0[b2].0 != c0[i].0);
                }
            }
            assert forall|x: A| has_key(c1, x) implies has_key(c0, x) by {
                let a = choose|a: int| 0 <= a < c1.len() && c1[a].0 == x;
                if a == 0 {
                    assert(c0[i].0 == x);
                } else {
                    let a2: int = if a - 1 < i {
                        a - 1
                    } else {
                        a
                    };
                    assert(c1[a] == c0[a2]);
                }
            }
            assert forall|x: A| has_key(c0, x) implies has_key(c1, x) by {
                let a = choose|a: int| 0 <= a < c0.len() && c0[a].0 == x;
                if a == i {
                    assert(c1[0].0 == x);
                } else {
                    let a2: int = if a < i {
                        a + 1
                    } else {
                        a
                    };
                    assert(c1[a2] == c0[a]);
                }
            }
            assert forall|x: A| keys_of(c1).contains(x) <==> keys_of(c0).contains(x) by {
                assert(keys_of(c1).contains(x) <==> has_key(c1, x));
                assert(keys_of(c0).contains(x) <==> has_key(c0, x));
            }
            assert(keys_of(c1) =~= keys_of(c0));
            assert(keys_of(c0).contains(k));
            assert(keys_of(q).contains(k));
            assert(keys_of(puts) =~= keys_of(q));
        } else {
            assert(!keys_of(c0).contains(k));
            if c0.len() < cap {
                assert(c1 == seq![(k, v)] + c0);
                assert(keys_of(c0) == keys_of(q));
                assert(!keys_of(q).contains(k));
                assert(keys_of(puts).len() == keys_of(q).len() + 1);
                assert forall|a: int, b: int| 0 <= a < b < c1.len() implies c1[a].0 != c1[
                    b
                ].0 by {
                    assert(c1[b] == c0[b - 1]);
                    if a > 0 {
                        assert(c1[a] == c0[a - 1]);
                    } else {
                        assert(!has_key(c0, k));
                        assert(c0[b - 1].0 != k);
                    }
                }
                assert forall|x: A| has_key(c1, x) implies x == k || has_key(c0, x) by {
                    let a = choose|a: int| 0 <= a < c1.len() && c1[a].0 == x;
                    if a > 0 {
                        assert(c1[a] == c0[a - 1]);
                    }
                }
                assert forall|x: A| has_key(c0, x) implies has_key(c1, x) by {
                    let a = choose|a: int| 0 <= a < c0.len() && c0[a].0 == x;
                    assert(c1[a + 1] == c0[a]);
                }
                assert(c1[0] == (k, v));
                assert(c1[0].0 == k);
                assert(has_key(c1, k));
                assert forall|x: A| keys_of(c1).contains(x) <==> keys_of(c0).insert(k).contains(
                    x,
                ) by {
                    assert(keys_of(c1).contains(x) <==> has_key(c1, x));
                    assert(keys_of(c0).contains(x) <==> has_key(c0, x));
                    if has_key(c1, x) {
                        assert(x == k || has_key(c0, x));
                    }
                    if x == k {
                        assert(has_key(c1, k));
                    }
                }
                assert(keys_of(c1) =~= keys_of(c0).insert(k));
                assert(keys_of(c1).len() == keys_of(c0).len() + 1);
            } else if cap > 0 {
                assert(c1 == seq![(k, v)] + c0.drop_last());
                assert(c0.len() == cap);
                assert(keys_of(q).len() >= cap);
                assert(keys_of(puts).len() >= keys_of(q).len());
                assert forall|a: int, b: int| 0 <= a < b < c1.len() implies c1[a].0 != c1[
                    b
                ].0 by {
                    assert(c1[b] == c0[b - 1]);
                    if a > 0 {
                        assert(c1[a] == c0[a - 1]);
                    } else {
                        assert(!has_key(c0, k));
                        assert(c0[b - 1].0 != k);
                    }
                }
                assert forall|x: A| has_key(c1, x) implies keys_of(puts).contains(x) by {
                    let a = choose|a: int| 0 <= a < c1.len() && c1[a].0 == x;
                    if a > 0 {
                        assert(c1[a] == c0[a - 1]);
                        assert(has_key(c0, x));
                    }
                }
            } else {
                assert(c1 == c0);
                assert(keys_of(puts).len() >= keys_of(q).len());
            }
        }
        assert forall|x: A| keys_of(c1).contains(x) implies keys_of(puts).contains(x) by {
            assert(has_key(c1, x));
            if has_key(c0, x) {
                assert(keys_of(c0).contains(x));
                assert(keys_of(q).contains(x));
                assert(keys_of(puts).contains(x));
            } else {
                if has_key(c0, k) {
                    assert(has_key(c0, x));
                } else if c0.len() < cap {
                    assert(x == k || has_key(c0, x));
                    assert(keys_of(puts).contains(k));
                } else if cap > 0 {
                    assert(keys_of(puts).contains(x));
                } else {
                    assert(has_key(c0, x));
                }
            }
        }
    }
}

/// Capacity invariant: after any sequence of `put` calls the cache holds at
/// most `cap` entries, and once at least `cap` distinct keys have been put,
/// it holds exactly `cap`.
pub proof fn law_capacity<A, B>(cap: nat, puts: Seq<(A, B)>)
    ensures
        lru_run(cap, puts).len() <= cap,
        keys_of(puts).len() >= cap ==> lru_run(cap, puts).len() == cap,
{
    lemma_run_shape(cap, puts);
}

/// While a put sequence of distinct keys fits in the capacity, nothing is
/// evicted: the cache is exactly those puts, newest first.
proof fn lemma_run_no_evict<A, B>(cap: nat, puts: Seq<(A, B)>)
    requires
        distinct_keys(puts),
        puts.len() <= cap,
    ensures
        lru_run(cap, puts) == puts.reverse(),
    decreases puts.len(),
{
    if puts.len() > 0 {
        let q = puts.drop_last();
        let pr = puts.last();
        let k = pr.0;
        let v = pr.1;
        assert(distinct_keys(q));
        lemma_run_no_evict(cap, q);
        let c0 = lru_run(cap, q);
        if has_key(c0, k) {
            let i = choose|i: int| 0 <= i < c0.len() && c0[i].0 == k;
            assert(q[q.len() - 1 - i].0 == k);
            assert(puts[q.len() - 1 - i].0 == puts[puts.len() - 1].0);
            assert(false);
        }
        assert(lru_run(cap, puts) == seq![(k, v)] + c0);
        assert(lru_run(cap, puts) =~= puts.reverse());
    } else {
        assert(lru_run(cap, puts) =~= puts.reverse());
    }
}

/// Eviction correctness: after `cap + 1` puts with pairwise distinct keys,
/// the cache holds the last `cap` of them, newest first; the first key put
/// is the one and only casualty.
pub proof fn law_eviction<A, B>(cap: nat, puts: Seq<(A, B)>)
    requires
        distinct_keys(puts),
        cap >= 1,
        puts.len() == cap + 1,
    ensures
        lru_run(cap, puts) == puts.subrange(1, puts.len() as int).reverse(),
        forall|m: int| 1 <= m < puts.len() ==> has_key(lru_run(cap, puts), puts[m].0),
        !has_key(lru_run(cap, puts), puts[0].0),
{
    let q = puts.drop_last();
    let pr = puts.last();
    let k = pr.0;
    let v = pr.1;
    assert(distinct_keys(q));
    lemma_run_no_evict(cap, q);
    let c0 = lru_run(cap, q);
    if has_key(c0, k) {
        let i = choose|i: int| 0 <= i < c0.len() && c0[i].0 == k;
        assert(q[q.len() - 1 - i].0 == k);
        assert(puts[q.len() - 1 - i].0 == puts[puts.len() - 1].0);
        assert(false);
    }
    let c1 = lru_run(cap, puts);
    assert(c1 == seq![(k, v)] + c0.drop_last());
    let target = puts.subrange(1, puts.len() as int).reverse();
    assert forall|i: int| 0 <= i < c1.len() implies c1[i] == target[i] by {
        if i > 0 {
            assert(c1[i] == c0[i - 1]);
            assert(c0[i - 1] == q[q.len() - 1 - (i - 1)]);
        }
    }
    assert(c1 =~= target);
    assert forall|m: int| 1 <= m < puts.len() implies has_key(c1, puts[m].0) by {
        let i = puts.len() - 1 - m;
        assert(c1[i] == puts[m]);
    }
    if has_key(c1, puts[0].0) {
        let i = choose|i: int| 0 <= i < c1.len() && c1[i].0 == puts[0].0;
        assert(c1[i] == puts[puts.len() - 1 - i]);
        assert(puts[puts.len() - 1 - i].0 == puts[0].0);
        assert(false);
    }
}

} // verus!
