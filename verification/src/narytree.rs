//! A single N-ary tree whose nodes live in a growable arena and are addressed
//! by integer indices. Freed nodes are cached on a pool stack and handed out
//! again by later allocations.

use vstd::prelude::*;

verus! {

/// Index type standing in for a node address within one tree's arena.
pub type NodeAddr = u64;

/// Sentinel address meaning "no node".
pub const NULL: NodeAddr = 0xFFFF_FFFF_FFFF_FFFF;

/// One arena slot: an optional payload, the parent's address (`NULL` for a
/// root or a pooled slot), and the ordered addresses of the children.
pub struct NaryNode<T> {
    pub parent: NodeAddr,
    pub data: Option<T>,
    pub children: Vec<NodeAddr>,
}

impl<T> NaryNode<T> {
    /// Appends `child_addr` to this node's children and records
    /// `parent_addr` as this node's parent.
    pub fn add_child(&mut self, child_addr: NodeAddr, parent_addr: NodeAddr)
        ensures
            final(self).children@ == old(self).children@.push(child_addr),
            final(self).parent == parent_addr,
            final(self).data == old(self).data,
    {
        self.children.push(child_addr);
        self.parent = parent_addr;
    }

    /// Resets the node to the detached state: no parent, no payload, no
    /// children.
    pub fn nullify(&mut self)
        ensures
            final(self).parent == NULL,
            final(self).data is None,
            final(self).children@ == Seq::<NodeAddr>::empty(),
    {
        self.parent = NULL;
        self.data = None;
        self.children.clear();
    }
}

/// A rooted N-ary tree over a private arena. `root == NULL` means the tree is
/// empty. `node_pool` is a stack of freed slot addresses available for reuse.
pub struct NaryTree<T> {
    pub root: NodeAddr,
    pub memory: Vec<NaryNode<T>>,
    pub node_pool: Vec<NodeAddr>,
}

impl<T> NaryTree<T> {
    /// Structural soundness: every pooled address refers to an arena slot,
    /// and every slot has an address below the `NULL` sentinel.
    pub open spec fn wf(self) -> bool {
        &&& self.memory@.len() < NULL
        &&& forall|i: int|
            0 <= i < self.node_pool@.len() ==> (self.node_pool@[i] as int) < self.memory@.len()
    }

    /// Creates an empty tree. No arena slot is allocated here.
    pub fn new() -> (tree: Self)
        ensures
            tree.wf(),
            tree.root == NULL,
            tree.memory@ == Seq::<NaryNode<T>>::empty(),
            tree.node_pool@ == Seq::<NodeAddr>::empty(),
    {
        Self { root: NULL, memory: Vec::new(), node_pool: Vec::new() }
    }

    /// Allocates a slot holding `data`, preferring a pooled slot and growing
    /// the arena only when the pool is empty. The fresh slot has no parent
    /// and no children.
    pub fn allocate_node(&mut self, data: Option<T>) -> (addr: NodeAddr)
        requires
            old(self).wf(),
            old(self).memory@.len() + 1 < NULL,
        ensures
            final(self).wf(),
            addr != NULL,
            (addr as int) < final(self).memory@.len(),
            final(self).root == old(self).root,
            final(self).memory@[addr as int].parent == NULL,
            final(self).memory@[addr as int].data == data,
            final(self).memory@[addr as int].children@ == Seq::<NodeAddr>::empty(),
            old(self).node_pool@.len() > 0 ==> {
                &&& addr == old(self).node_pool@.last()
                &&& final(self).node_pool@ == old(self).node_pool@.drop_last()
                &&& final(self).memory@.len() == old(self).memory@.len()
                &&& forall|j: int|
                    0 <= j < final(self).memory@.len() && j != addr as int ==> final(self).memory@[j]
                        == old(self).memory@[j]
            },
            old(self).node_pool@.len() == 0 ==> {
                &&& addr as int == old(self).memory@.len()
                &&& final(self).node_pool@ == old(self).node_pool@
                &&& final(self).memory@.len() == old(self).memory@.len() + 1
                &&& forall|j: int|
                    0 <= j < old(self).memory@.len() ==> final(self).memory@[j] == old(self).memory@[j]
            },
    {
        // Binding the length gives the prover the fact that the arena fits
        // in a usize, so the address casts below lose nothing.
        let n = self.memory.len();
        match self.node_pool.pop() {
            Some(node_ptr) => {
                let idx = node_ptr as usize;
                proof {
                    assert((node_ptr as int) < n as int);
                    assert(idx as int == node_ptr as int);
                }
                self.memory[idx].nullify();
                self.memory[idx].data = data;
                node_ptr
            },
            None => {
                let node = NaryNode { parent: NULL, data, children: Vec::new() };
                self.memory.push(node);
                (self.memory.len() - 1) as NodeAddr
            },
        }
    }

    /// Returns the slot at `node_ref` to the pool. The payload is dropped;
    /// parent and children fields are left as they were. `NULL` is ignored.
    pub fn free_node(&mut self, node_ref: NodeAddr)
        requires
            old(self).wf(),
            node_ref == NULL || (node_ref as int) < old(self).memory@.len(),
        ensures
            final(self).wf(),
            node_ref == NULL ==> *final(self) == *old(self),
            node_ref != NULL ==> {
                &&& final(self).node_pool@ == old(self).node_pool@.push(node_ref)
                &&& final(self).memory@.len() == old(self).memory@.len()
                &&& final(self).memory@[node_ref as int].data is None
                &&& final(self).memory@[node_ref as int].parent == old(self).memory@[
                    node_ref as int
                ].parent
                &&& final(self).memory@[node_ref as int].children == old(self).memory@[
                    node_ref as int
                ].children
                &&& forall|j: int|
                    0 <= j < final(self).memory@.len() && j != node_ref as int ==> final(self).memory@[j]
                        == old(self).memory@[j]
                &&& final(self).root == old(self).root
            },
    {
        if node_ref != NULL {
            // As in `allocate_node`: the arena fits in a usize, so the cast
            // below loses nothing.
            let n = self.memory.len();
            let idx = node_ref as usize;
            proof {
                assert((node_ref as int) < n as int);
                assert(idx as int == node_ref as int);
            }
            self.memory[idx].data = None;
            self.node_pool.push(node_ref);
        }
    }

    /// Empties the whole tree at once: root, arena and pool are all reset.
    pub fn clear(&mut self)
        ensures
            final(self).wf(),
            final(self).root == NULL,
            final(self).memory@ == Seq::<NaryNode<T>>::empty(),
            final(self).node_pool@ == Seq::<NodeAddr>::empty(),
    {
        self.root = NULL;
        self.memory.clear();
        self.node_pool.clear();
    }
}

} // verus!
