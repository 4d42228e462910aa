//! A fixed-capacity circular queue over a vector. The buffer only moves its
//! two cursors; element slots are claimed by `enqueue` and released by
//! `dequeue`/`pop_rear`, each handing back the index of the affected slot.

use vstd::prelude::*;
use vstd::arithmetic::div_mod::{lemma_add_mod_noop, lemma_mod_add_multiples_vanish, lemma_mod_self_0, lemma_small_mod};

verus! {

/// Stepping an in-range cursor forward one slot, modulo `c`.
proof fn lemma_inc_mod(y: int, c: int)
    requires
        0 < c,
    ensures
        ((y % c) + 1) % c == (y + 1) % c,
{
    lemma_add_mod_noop(y, 1, c);
    if c > 1 {
        lemma_small_mod(1, c as nat);
    }
}

/// Stepping an in-range cursor backward one slot, modulo `c`.
proof fn lemma_dec_mod(y: int, c: int)
    requires
        0 < c,
        1 <= y,
    ensures
        (if y % c == 0 {
            c - 1
        } else {
            (y % c) - 1
        }) == (y - 1) % c,
{
    lemma_mod_add_multiples_vanish(y - 1, c);
    lemma_add_mod_noop(y, c - 1, c);
    lemma_small_mod((c - 1) as nat, c as nat);
    if y % c != 0 {
        lemma_mod_add_multiples_vanish((y % c) - 1, c);
        lemma_small_mod(((y % c) - 1) as nat, c as nat);
    }
}

/// A circular index allocator over a backing store `Memory`.
///
/// `front_ptr` is the slot of the oldest live element; `rear_ptr` is the slot
/// the next enqueued element will claim. `len` counts the live elements.
pub struct RingBuffer<Memory> {
    len: usize,
    capacity: usize,
    front_ptr: usize,
    rear_ptr: usize,
    memory: Memory,
}

/// Recipes for building a ring buffer from an existing vector.
pub enum RingSpecifier<Memory> {
    /// The vector's length becomes the capacity; no element counts as live.
    MakeEmpty(Memory),
    /// The vector's length becomes the capacity and every element counts as
    /// live, oldest first.
    MakeFull(Memory),
}

impl<T> RingBuffer<Vec<T>> {
    /// The configured capacity.
    pub closed spec fn cap(self) -> int {
        self.capacity as int
    }

    /// The index of the oldest live element's slot.
    pub closed spec fn spec_front(self) -> int {
        self.front_ptr as int
    }

    /// The index of the slot the next enqueue will claim.
    pub closed spec fn spec_rear(self) -> int {
        self.rear_ptr as int
    }

    /// The backing store, slot by slot.
    pub closed spec fn mem(self) -> Seq<T> {
        self.memory@
    }

    /// Cursor soundness: the store is exactly `capacity` slots, at most
    /// `capacity` elements are live, and the rear cursor trails the front
    /// cursor by exactly the live count, modulo the capacity.
    pub closed spec fn wf(self) -> bool {
        &&& self.capacity == self.memory@.len()
        &&& self.len <= self.capacity
        &&& if self.capacity == 0 {
            self.front_ptr == 0 && self.rear_ptr == 0
        } else {
            &&& self.front_ptr < self.capacity
            &&& self.rear_ptr < self.capacity
            &&& self.rear_ptr as int == (self.front_ptr + self.len) % (self.capacity as int)
        }
    }

    /// The live elements, oldest (front) first.
    pub closed spec fn contents(self) -> Seq<T> {
        Seq::new(
            self.len as nat,
            |i: int| self.memory@[(self.front_ptr + i) % (self.capacity as int)],
        )
    }

    /// A buffer whose cursors have never moved: fresh from `new`, `from` or
    /// `clear`.
    pub closed spec fn pristine(self) -> bool {
        self.len == 0 && self.front_ptr == 0 && self.rear_ptr == 0
    }

    /// The public bridge to the cursor discipline: in a sound buffer the
    /// store is exactly `cap()` slots and the rear cursor trails the front
    /// cursor by the live count, modulo the capacity.
    pub proof fn lemma_cursor_equation(self)
        requires
            self.wf(),
        ensures
            self.cap() == self.mem().len(),
            self.contents().len() <= self.cap(),
            self.cap() > 0 ==> {
                &&& 0 <= self.spec_front() < self.cap()
                &&& 0 <= self.spec_rear() < self.cap()
                &&& self.spec_rear() == (self.spec_front() + self.contents().len()) % self.cap()
            },
            self.cap() == 0 ==> self.spec_front() == 0 && self.spec_rear() == 0,
            self.pristine() <==> self.contents().len() == 0 && self.spec_front() == 0
                && self.spec_rear() == 0,
    {
    }

    /// Creates a buffer of capacity zero.
    pub fn new() -> (rb: Self)
        ensures
            rb.wf(),
            rb.pristine(),
            rb.cap() == 0,
            rb.contents() == Seq::<T>::empty(),
    {
        Self { len: 0, capacity: 0, front_ptr: 0, rear_ptr: 0, memory: Vec::new() }
    }

    /// The number of live elements.
    pub fn len(&self) -> (r: usize)
        ensures
            r == self.contents().len(),
    {
        self.len
    }

    /// Forgets every live element; capacity and store are kept.
    pub fn clear(&mut self)
        requires
            old(self).wf(),
        ensures
            final(self).wf(),
            final(self).pristine(),
            final(self).spec_front() == 0,
            final(self).spec_rear() == 0,
            final(self).cap() == old(self).cap(),
            final(self).mem() == old(self).mem(),
            final(self).contents() == Seq::<T>::empty(),
    {
        self.len = 0;
        self.front_ptr = 0;
        self.rear_ptr = 0;
        proof {
            if self.capacity > 0 {
                lemma_small_mod(0, self.capacity as nat);
            }
        }
    }

    /// True when no element is live.
    pub fn is_empty(&self) -> (r: bool)
        ensures
            r == (self.contents().len() == 0),
    {
        self.len == 0
    }

    /// True when every slot is live; a zero-capacity buffer is always full.
    pub fn is_full(&self) -> (r: bool)
        ensures
            r == (self.contents().len() >= self.cap()),
    {
        self.len >= self.capacity
    }

    /// The front cursor. When the buffer is sound and non-empty, the slot it
    /// names holds the oldest element.
    pub fn front(&self) -> (r: usize)
        ensures
            r as int == self.spec_front(),
            self.wf() && self.contents().len() > 0 ==> self.mem()[r as int] == self.contents()[0],
    {
        proof {
            if self.wf() && self.contents().len() > 0 {
                lemma_small_mod(self.front_ptr as nat, self.capacity as nat);
            }
        }
        self.front_ptr
    }

    /// The rear cursor: the slot the next enqueue will claim.
    pub fn rear(&self) -> (r: usize)
        ensures
            r as int == self.spec_rear(),
    {
        self.rear_ptr
    }

    /// Claims the rear slot for a new element and returns its index; the
    /// value already sitting in that slot becomes live. Fails exactly when
    /// the buffer is full.
    pub fn enqueue(&mut self) -> (r: Option<usize>)
        requires
            old(self).wf(),
        ensures
            final(self).wf(),
            final(self).cap() == old(self).cap(),
            final(self).mem() == old(self).mem(),
            r is Some <==> old(self).contents().len() < old(self).cap(),
            r is None ==> *final(self) == *old(self),
            r matches Some(idx) ==> {
                &&& idx as int == old(self).spec_rear()
                &&& (idx as int) < final(self).mem().len()
                &&& final(self).spec_front() == old(self).spec_front()
                &&& final(self).spec_rear() == (old(self).spec_rear() + 1) % old(self).cap()
                &&& final(self).contents() == old(self).contents().push(old(self).mem()[idx as int])
            },
    {
        if self.is_full() {
            None
        } else {
            let old_ptr = self.rear_ptr;
            self.rear_ptr = (self.rear_ptr + 1) % self.capacity;
            self.len = self.len + 1;
            proof {
                let c = self.capacity as int;
                lemma_inc_mod(old(self).front_ptr + old(self).len, c);
                assert forall|i: int| 0 <= i < self.len implies self.contents()[i] == old(
                    self,
                ).contents().push(old(self).mem()[old_ptr as int])[i] by {
                    if i < old(self).len {
                    } else {
                        assert(old_ptr as int == (old(self).front_ptr + i) % c);
                    }
                }
                assert(self.contents() =~= old(self).contents().push(
                    old(self).mem()[old_ptr as int],
                ));
            }
            Some(old_ptr)
        }
    }

    /// Releases the front slot and returns its index; the element in it
    /// stops being live. Fails exactly when the buffer is empty.
    pub fn dequeue(&mut self) -> (r: Option<usize>)
        requires
            old(self).wf(),
        ensures
            final(self).wf(),
            final(self).cap() == old(self).cap(),
            final(self).mem() == old(self).mem(),
            r is Some <==> old(self).contents().len() > 0,
            r is None ==> *final(self) == *old(self),
            r matches Some(idx) ==> {
                &&& idx as int == old(self).spec_front()
                &&& (idx as int) < final(self).mem().len()
                &&& final(self).spec_front() == (old(self).spec_front() + 1) % old(self).cap()
                &&& final(self).spec_rear() == old(self).spec_rear()
                &&& old(self).mem()[idx as int] == old(self).contents()[0]
                &&& final(self).contents() == old(self).contents().subrange(
                    1,
                    old(self).contents().len() as int,
                )
            },
    {
        if self.is_empty() {
            None
        } else {
            let old_ptr = self.front_ptr;
            self.front_ptr = (self.front_ptr + 1) % self.capacity;
            self.len = self.len - 1;
            proof {
                let c = self.capacity as int;
                lemma_small_mod(old(self).front_ptr as nat, c as nat);
                lemma_small_mod(self.len as nat, c as nat);
                lemma_add_mod_noop(old(self).front_ptr + 1, self.len as int, c);
                assert forall|i: int| 0 <= i < self.len implies self.contents()[i] == old(
                    self,
                ).contents()[i + 1] by {
                    lemma_small_mod(i as nat, c as nat);
                    lemma_add_mod_noop(old(self).front_ptr + 1, i, c);
                }
                assert(self.contents() =~= old(self).contents().subrange(
                    1,
                    old(self).contents().len() as int,
                ));
            }
            Some(old_ptr)
        }
    }

    /// Releases the newest slot and returns its index; the element in it
    /// stops being live. Fails exactly when the buffer is empty.
    pub fn pop_rear(&mut self) -> (r: Option<usize>)
        requires
            old(self).wf(),
        ensures
            final(self).wf(),
            final(self).cap() == old(self).cap(),
            final(self).mem() == old(self).mem(),
            r is Some <==> old(self).contents().len() > 0,
            r is None ==> *final(self) == *old(self),
            r matches Some(idx) ==> {
                &&& idx as int == final(self).spec_rear()
                &&& (idx as int) < final(self).mem().len()
                &&& final(self).spec_rear() == (old(self).spec_rear() + old(self).cap() - 1) % old(
                    self,
                ).cap()
                &&& final(self).spec_front() == old(self).spec_front()
                &&& old(self).mem()[idx as int] == old(self).contents().last()
                &&& final(self).contents() == old(self).contents().drop_last()
            },
    {
        if self.is_empty() {
            None
        } else {
            let new_rear = if self.rear_ptr == 0 {
                self.capacity - 1
            } else {
                self.rear_ptr - 1
            };
            self.rear_ptr = new_rear;
            self.len = self.len - 1;
            proof {
                let c = self.capacity as int;
                lemma_dec_mod(old(self).front_ptr + old(self).len, c);
                assert(new_rear as int == (old(self).front_ptr + self.len) % c);
                lemma_mod_add_multiples_vanish(old(self).rear_ptr as int, c);
                lemma_small_mod(old(self).rear_ptr as nat, c as nat);
                lemma_dec_mod(old(self).rear_ptr + c, c);
                assert(self.contents() =~= old(self).contents().drop_last());
            }
            Some(new_rear)
        }
    }

    /// The slot index of the second-oldest live element, when there are at
    /// least two.
    pub fn peek_next(&self) -> (r: Option<usize>)
        requires
            self.wf(),
        ensures
            r is Some <==> self.contents().len() > 1,
            r matches Some(idx) ==> {
                &&& idx as int == (self.spec_front() + 1) % self.cap()
                &&& self.mem()[idx as int] == self.contents()[1]
            },
    {
        if self.len <= 1 {
            None
        } else {
            Some((self.front_ptr + 1) % self.capacity)
        }
    }

    /// A cursor over the live slot indices, front to rear.
    pub fn index_iter(&self) -> (it: RingIter)
        requires
            self.wf(),
        ensures
            it.wf(),
            it.cur as int == self.spec_front(),
            it.cap as int == self.cap(),
            it.len == self.contents().len(),
    {
        RingIter { cur: self.front_ptr, cap: self.capacity, len: self.len }
    }

    /// A reference to the value stored in slot `index`, live or not.
    pub fn at(&self, index: usize) -> (r: &T)
        requires
            index < self.mem().len(),
        ensures
            *r == self.mem()[index as int],
    {
        &self.memory[index]
    }

    /// Overwrites the value stored in slot `index`; cursors do not move.
    pub fn set(&mut self, index: usize, value: T)
        requires
            index < old(self).mem().len(),
        ensures
            final(self).mem() == old(self).mem().update(index as int, value),
            final(self).cap() == old(self).cap(),
            final(self).spec_front() == old(self).spec_front(),
            final(self).spec_rear() == old(self).spec_rear(),
            final(self).contents().len() == old(self).contents().len(),
            final(self).wf() == old(self).wf(),
            final(self).pristine() == old(self).pristine(),
            old(self).wf() ==> forall|i: int|
                0 <= i < old(self).contents().len() ==> #[trigger] final(self).contents()[i] == (
                if (old(self).spec_front() + i) % old(self).cap() == index as int {
                    value
                } else {
                    old(self).contents()[i]
                }),
    {
        self.memory[index] = value;
    }
}

impl<T: Clone> RingBuffer<Vec<T>> {
    /// Reshapes a pristine buffer to capacity `cap`, filling the store with
    /// default values.
    pub fn with_capacity(self, cap: usize) -> (rb: Self) where T: Default
        requires
            self.pristine(),
        ensures
            rb.wf(),
            rb.pristine(),
            rb.spec_front() == 0,
            rb.spec_rear() == 0,
            rb.cap() == cap,
            rb.mem().len() == cap,
            rb.contents() == Seq::<T>::empty(),
            cap <= self.mem().len() ==> rb.mem() == self.mem().subrange(0, cap as int),
            cap > self.mem().len() ==> {
                &&& rb.mem().subrange(0, self.mem().len() as int) == self.mem()
                &&& exists|d: T|
                    call_ensures(<T as Default>::default, (), d) && forall|i: int|
                        self.mem().len() <= i < cap ==> cloned::<T>(d, #[trigger] rb.mem()[i])
            },
    {
        let mut rb = self;
        rb.capacity = cap;
        let d = T::default();
        rb.memory.resize(cap, d);
        proof {
            if cap > 0 {
                lemma_small_mod(0, cap as nat);
            }
        }
        rb
    }

    /// The live elements, oldest first, as clones.
    pub fn iter(&self) -> (r: Vec<T>)
        requires
            self.wf(),
        ensures
            r@.len() == self.contents().len(),
            forall|i: int| 0 <= i < r@.len() ==> cloned::<T>(self.contents()[i], r@[i]),
    {
        let mut out: Vec<T> = Vec::new();
        let mut k: usize = 0;
        let mut cur: usize = self.front_ptr;
        proof {
            if self.capacity > 0 {
                lemma_small_mod(self.front_ptr as nat, self.capacity as nat);
            }
        }
        while k < self.len
            invariant
                self.wf(),
                k <= self.len,
                out@.len() == k,
                forall|i: int| 0 <= i < k ==> cloned::<T>(self.contents()[i], out@[i]),
                self.capacity > 0 ==> cur as int == (self.front_ptr + k) % (self.capacity as int),
            decreases self.len - k,
        {
            let item = self.memory[cur].clone();
            out.push(item);
            proof {
                lemma_inc_mod(self.front_ptr + k, self.capacity as int);
            }
            cur = (cur + 1) % self.capacity;
            k = k + 1;
        }
        out
    }
}

impl<T> From<RingSpecifier<Vec<T>>> for RingBuffer<Vec<T>> {
    /// Builds either an all-empty or an all-full buffer whose capacity is the
    /// length of the given vector.
    fn from(spec: RingSpecifier<Vec<T>>) -> (rb: Self) {
        match spec {
            RingSpecifier::MakeEmpty(mem) => {
                let capacity = mem.len();
                Self { len: 0, capacity, front_ptr: 0, rear_ptr: 0, memory: mem }
            },
            RingSpecifier::MakeFull(mem) => {
                let capacity = mem.len();
                Self { len: capacity, capacity, front_ptr: 0, rear_ptr: 0, memory: mem }
            },
        }
    }
}

impl<T> vstd::std_specs::convert::FromSpecImpl<RingSpecifier<Vec<T>>> for RingBuffer<Vec<T>> {
    open spec fn obeys_from_spec() -> bool {
        true
    }

    closed spec fn from_spec(spec: RingSpecifier<Vec<T>>) -> Self {
        match spec {
            RingSpecifier::MakeEmpty(mem) => Self {
                len: 0,
                capacity: mem.len(),
                front_ptr: 0,
                rear_ptr: 0,
                memory: mem,
            },
            RingSpecifier::MakeFull(mem) => Self {
                len: mem.len(),
                capacity: mem.len(),
                front_ptr: 0,
                rear_ptr: 0,
                memory: mem,
            },
        }
    }
}

/// What `RingBuffer::from` builds: an empty or full buffer over the given
/// vector, with untouched cursors. Stated here because the `From` contract
/// alone only names the construction, not its shape.
pub proof fn lemma_from_shape<T>(spec: RingSpecifier<Vec<T>>)
    ensures
        ({
            let rb = <RingBuffer<Vec<T>> as vstd::std_specs::convert::FromSpec<
                RingSpecifier<Vec<T>>,
            >>::from_spec(spec);
            match spec {
                RingSpecifier::MakeEmpty(mem) => rb.wf() && rb.pristine() && rb.spec_front() == 0
                    && rb.spec_rear() == 0 && rb.cap() == mem@.len() && rb.mem() == mem@
                    && rb.contents() == Seq::<T>::empty(),
                RingSpecifier::MakeFull(mem) => rb.wf() && rb.spec_front() == 0 && rb.spec_rear()
                    == 0 && rb.cap() == mem@.len() && rb.mem() == mem@ && rb.contents() =~= mem@,
            }
        }),
{
    match spec {
        RingSpecifier::MakeEmpty(mem) => {
            if mem@.len() > 0 {
                lemma_small_mod(0, mem@.len() as nat);
            }
        },
        RingSpecifier::MakeFull(mem) => {
            let rb = <RingBuffer<Vec<T>> as vstd::std_specs::convert::FromSpec<
                RingSpecifier<Vec<T>>,
            >>::from_spec(spec);
            assert(mem.len() == mem@.len());
            if mem@.len() > 0 {
                let c = mem@.len() as int;
                lemma_mod_self_0(c);
                assert forall|i: int| 0 <= i < c implies rb.contents()[i] == mem@[i] by {
                    lemma_small_mod(i as nat, c as nat);
                }
            }
            assert(rb.contents() =~= mem@);
        },
    }
}

/// A cursor over the live slot indices of a ring buffer, front to rear.
/// `next` hands back one slot index per call until `len` indices have been
/// yielded.
pub struct RingIter {
    pub cur: usize,
    pub cap: usize,
    pub len: usize,
}

impl RingIter {
    /// Cursor soundness: while anything is left to yield, the cursor is
    /// inside the store.
    pub open spec fn wf(self) -> bool {
        self.len > 0 ==> self.cur < self.cap
    }

    /// The next live slot index, stepping the cursor; `None` once every
    /// index has been yielded.
    pub fn next(&mut self) -> (r: Option<usize>)
        requires
            old(self).wf(),
        ensures
            final(self).wf(),
            r is Some <==> old(self).len > 0,
            r is None ==> *final(self) == *old(self),
            r matches Some(i) ==> {
                &&& i == old(self).cur
                &&& final(self).cur as int == (old(self).cur + 1) % (old(self).cap as int)
                &&& final(self).cap == old(self).cap
                &&& final(self).len == old(self).len - 1
            },
    {
        if self.len == 0 {
            None
        } else {
            let old_cur = self.cur;
            self.len = self.len - 1;
            self.cur = (self.cur + 1) % self.cap;
            Some(old_cur)
        }
    }
}


} // verus!
