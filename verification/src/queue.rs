//! Fixed-capacity ring (circular) FIFO queues: a simple variant for `Copy`
//! elements over a fully initialized backing array, and an advanced variant
//! that stores arbitrary elements in tagged slots so that exactly the live
//! span of the ring ever holds values.

use vstd::prelude::*;

verus! {

/// Position of the `i`-th live element of a ring with head `head` and
/// capacity `n`, wrapping past the end of the backing array.
pub open spec fn wrap_index(head: int, i: int, n: int) -> int {
    if head + i < n {
        head + i
    } else {
        head + i - n
    }
}

/// The live elements of a ring holding `len` elements starting at `head`,
/// oldest first.
pub open spec fn ring_view<T>(data: Seq<T>, head: int, len: int, n: int) -> Seq<T> {
    Seq::new(len as nat, |i: int| data[wrap_index(head, i, n)])
}

/// Queue over a fully initialized fixed array; elements must be `Copy` and a
/// default value pre-fills every slot at construction.
pub struct ArrayQueue<T: Copy, const N: usize> {
    data: Vec<T>,
    head: usize,
    len: usize,
    initialized: usize,
}

impl<T: Copy, const N: usize> View for ArrayQueue<T, N> {
    type V = Seq<T>;

    /// The live elements, oldest first.
    closed spec fn view(&self) -> Seq<T> {
        ring_view(self.data@, self.head as int, self.len as int, N as int)
    }
}

impl<T: Copy, const N: usize> ArrayQueue<T, N> {
    /// The backing storage always holds exactly `N` slots, the head stays
    /// inside it, and the live span never exceeds it.
    pub closed spec fn wf(&self) -> bool {
        &&& self.data@.len() == N as int
        &&& self.len <= N
        &&& if N == 0 {
            self.head == 0
        } else {
            self.head < N
        }
        &&& self.initialized <= N
    }

    /// A well-formed queue never holds more than `N` elements.
    pub proof fn lemma_capacity(&self)
        requires
            self.wf(),
        ensures
            self@.len() <= N as int,
    {
    }

    /// Create a new queue, pre-filling the backing array with a default value.
    pub fn new(default_value: T) -> (q: Self)
        ensures
            q.wf(),
            q@ == Seq::<T>::empty(),
    {
        let mut data: Vec<T> = Vec::new();
        while data.len() < N
            invariant
                data@.len() <= N as int,
            decreases N as int - data@.len(),
        {
            data.push(default_value);
        }
        ArrayQueue { data, head: 0, len: 0, initialized: 0 }
    }

    /// The queue holds no elements.
    pub fn is_empty(&self) -> (r: bool)
        requires
            self.wf(),
        ensures
            r <==> self@.len() == 0,
    {
        self.len == 0
    }

    /// The queue holds exactly `N` elements.
    pub fn is_full(&self) -> (r: bool)
        requires
            self.wf(),
        ensures
            r <==> self@.len() == N as int,
    {
        self.len == N
    }

    /// Number of live elements.
    pub fn len(&self) -> (r: usize)
        requires
            self.wf(),
        ensures
            r == self@.len(),
    {
        self.len
    }

    /// Slot where the next enqueue writes.
    fn tail(&self) -> (r: usize)
        requires
            self.wf(),
            self.len < N,
        ensures
            r == wrap_index(self.head as int, self.len as int, N as int),
    {
        if self.head < N - self.len {
            self.head + self.len
        } else {
            self.head - (N - self.len)
        }
    }

    /// Append an element at the tail of the ring; when the queue is full the
    /// element is handed back unconsumed.
    pub fn enqueue(&mut self, item: T) -> (r: Result<(), T>)
        requires
            old(self).wf(),
        ensures
            final(self).wf(),
            old(self)@.len() < N as int ==> r is Ok && final(self)@ == old(self)@.push(item),
            old(self)@.len() == N as int ==> r == Err::<(), T>(item) && *final(self) == *old(self),
    {
        if self.is_full() {
            return Err(item);
        }
        let tail = self.tail();
        if self.initialized < N {
            self.initialized = self.initialized + 1;
        }
        self.data[tail] = item;
        self.len = self.len + 1;
        proof {
            assert(self@ =~= old(self)@.push(item));
        }
        Ok(())
    }

    /// Remove and return the oldest element; `None` when the queue is empty.
    pub fn dequeue(&mut self) -> (r: Option<T>)
        requires
            old(self).wf(),
        ensures
            final(self).wf(),
            old(self)@.len() > 0 ==> r == Some(old(self)@[0]) && final(self)@ == old(
                self,
            )@.subrange(1, old(self)@.len() as int),
            old(self)@.len() == 0 ==> r is None && *final(self) == *old(self),
    {
        if self.is_empty() {
            return None;
        }
        let value = self.data[self.head];
        self.head = if self.head + 1 == N {
            0
        } else {
            self.head + 1
        };
        self.len = self.len - 1;
        proof {
            assert(self@ =~= old(self)@.subrange(1, old(self)@.len() as int));
        }
        Some(value)
    }

    /// Borrow the oldest element; `None` when the queue is empty.
    pub fn peek(&self) -> (r: Option<&T>)
        requires
            self.wf(),
        ensures
            self@.len() > 0 ==> (r matches Some(v) && *v == self@[0]),
            self@.len() == 0 ==> r is None,
    {
        if self.is_empty() {
            return None;
        }
        Some(&self.data[self.head])
    }

    /// Mutably borrow the oldest element; `None` when the queue is empty.
    pub fn peek_mut(&mut self) -> (r: Option<&mut T>)
        requires
            old(self).wf(),
        ensures
            old(self)@.len() == 0 ==> r is None && *final(self) == *old(self),
            old(self)@.len() > 0 ==> (r matches Some(p) && *p == old(self)@[0] && final(self).wf()
                && final(self)@ == old(self)@.update(0, *final(p))),
    {
        if self.is_empty() {
            return None;
        }
        proof {
            assert forall|x: T|
                ring_view(
                    old(self).data@.update(old(self).head as int, x),
                    old(self).head as int,
                    old(self).len as int,
                    N as int,
                ) =~= old(self)@.update(0, x) by {};
        }
        Some(&mut self.data[self.head])
    }

    /// Drop every element by resetting the indices; `Copy` elements own no
    /// resources, so the stale slots need no individual treatment.
    pub fn clear(&mut self)
        requires
            old(self).wf(),
        ensures
            final(self).wf(),
            final(self)@ == Seq::<T>::empty(),
    {
        self.head = 0;
        self.len = 0;
        proof {
            assert(self@ =~= Seq::<T>::empty());
        }
    }

    /// Borrow the backing array, including slots that are not currently live.
    pub fn storage(&self) -> (r: &Vec<T>)
        requires
            self.wf(),
        ensures
            r@.len() == N as int,
            forall|i: int|
                0 <= i < self@.len() ==> r@[wrap_index(self.head_index() as int, i, N as int)]
                    == self@[i],
    {
        &self.data
    }

    /// Index of the oldest live element within the backing array.
    pub closed spec fn head_index(&self) -> usize {
        self.head
    }
}

/// Whether slot `i` lies in the live span of a ring holding `len` elements
/// starting at `head` in a backing array of `n` slots.
pub open spec fn in_span(head: int, len: int, n: int, i: int) -> bool {
    if head + len <= n {
        head <= i < head + len
    } else {
        head <= i < n || 0 <= i < head + len - n
    }
}

/// The live elements of a tagged-slot ring, oldest first.
pub open spec fn ring_slot_view<T>(data: Seq<Option<T>>, head: int, len: int, n: int) -> Seq<T> {
    Seq::new(len as nat, |i: int| data[wrap_index(head, i, n)]->0)
}

/// Ring queue over tagged slots: elements need not be `Copy`, and a slot
/// holds a value exactly while it is inside the live span.
pub struct AdvancedArrayQueue<T, const N: usize> {
    data: Vec<Option<T>>,
    head: usize,
    tail: usize,
    len: usize,
}

impl<T, const N: usize> View for AdvancedArrayQueue<T, N> {
    type V = Seq<T>;

    /// The live elements, oldest first.
    closed spec fn view(&self) -> Seq<T> {
        ring_slot_view(self.data@, self.head as int, self.len as int, N as int)
    }
}

impl<T, const N: usize> AdvancedArrayQueue<T, N> {
    /// The backing storage always holds exactly `N` slots, the indices stay
    /// inside it, the tail marks the end of the live span, and a slot is
    /// occupied exactly when it lies in the live span.
    pub closed spec fn wf(&self) -> bool {
        &&& self.data@.len() == N as int
        &&& self.len <= N
        &&& if N == 0 {
            self.head == 0 && self.tail == 0
        } else {
            self.head < N && self.tail < N
        }
        &&& self.tail as int == wrap_index(self.head as int, self.len as int, N as int)
        &&& forall|i: int|
            0 <= i < N as int ==> (self.data@[i] is Some <==> in_span(
                self.head as int,
                self.len as int,
                N as int,
                i,
            ))
    }

    /// A well-formed queue never holds more than `N` elements.
    pub proof fn lemma_capacity(&self)
        requires
            self.wf(),
        ensures
            self@.len() <= N as int,
    {
    }

    /// Create a new empty queue; every slot starts unoccupied.
    pub fn new() -> (q: Self)
        ensures
            q.wf(),
            q@ == Seq::<T>::empty(),
    {
        let mut data: Vec<Option<T>> = Vec::new();
        while data.len() < N
            invariant
                data@.len() <= N as int,
                forall|i: int| 0 <= i < data@.len() ==> data@[i] is None,
            decreases N as int - data@.len(),
        {
            data.push(None);
        }
        let q = AdvancedArrayQueue { data, head: 0, tail: 0, len: 0 };
        proof {
            assert(q@ =~= Seq::<T>::empty());
        }
        q
    }

    /// The queue holds no elements.
    pub fn is_empty(&self) -> (r: bool)
        requires
            self.wf(),
        ensures
            r <==> self@.len() == 0,
    {
        self.len == 0
    }

    /// The queue holds exactly `N` elements.
    pub fn is_full(&self) -> (r: bool)
        requires
            self.wf(),
        ensures
            r <==> self@.len() == N as int,
    {
        self.len == N
    }

    /// Number of live elements.
    pub fn len(&self) -> (r: usize)
        requires
            self.wf(),
        ensures
            r == self@.len(),
    {
        self.len
    }

    /// Append an element at the tail of the ring; when the queue is full the
    /// element is handed back unconsumed.
    pub fn enqueue(&mut self, item: T) -> (r: Result<(), T>)
        requires
            old(self).wf(),
        ensures
            final(self).wf(),
            old(self)@.len() < N as int ==> (r is Ok && final(self)@ == old(self)@.push(item)),
            old(self)@.len() == N as int ==> (r matches Err(it) && it == item && *final(self)
                == *old(self)),
    {
        if self.is_full() {
            return Err(item);
        }
        let t = self.tail;
        self.data[t] = Some(item);
        self.tail = if t + 1 == N {
            0
        } else {
            t + 1
        };
        self.len = self.len + 1;
        proof {
            assert(self@ =~= old(self)@.push(item));
        }
        Ok(())
    }

    /// Remove and return the oldest element, emptying its slot; `None` when
    /// the queue is empty.
    pub fn dequeue(&mut self) -> (r: Option<T>)
        requires
            old(self).wf(),
        ensures
            final(self).wf(),
            old(self)@.len() > 0 ==> (r matches Some(v) && v == old(self)@[0] && final(self)@ == old(
                self,
            )@.subrange(1, old(self)@.len() as int)),
            old(self)@.len() == 0 ==> r is None && *final(self) == *old(self),
    {
        if self.is_empty() {
            return None;
        }
        let h = self.head;
        let item = self.data[h].take();
        self.head = if h + 1 == N {
            0
        } else {
            h + 1
        };
        self.len = self.len - 1;
        proof {
            assert(self@ =~= old(self)@.subrange(1, old(self)@.len() as int));
        }
        item
    }

    /// Borrow the oldest element; `None` when the queue is empty.
    pub fn peek(&self) -> (r: Option<&T>)
        requires
            self.wf(),
        ensures
            self@.len() > 0 ==> (r matches Some(v) && *v == self@[0]),
            self@.len() == 0 ==> r is None,
    {
        if self.is_empty() {
            return None;
        }
        match &self.data[self.head] {
            Some(v) => Some(v),
            None => None,
        }
    }

    /// Mutably borrow the oldest element; `None` when the queue is empty.
    pub fn peek_mut(&mut self) -> (r: Option<&mut T>)
        requires
            old(self).wf(),
        ensures
            old(self)@.len() == 0 ==> r is None && *final(self) == *old(self),
            old(self)@.len() > 0 ==> (r matches Some(p) && *p == old(self)@[0] && final(self).wf()
                && final(self)@ == old(self)@.update(0, *final(p))),
    {
        if self.is_empty() {
            return None;
        }
        proof {
            assert forall|x: T|
                ring_slot_view(
                    old(self).data@.update(old(self).head as int, Some(x)),
                    old(self).head as int,
                    old(self).len as int,
                    N as int,
                ) =~= old(self)@.update(0, x) by {};
        }
        let h = self.head;
        self.data[h].as_mut()
    }

    /// Dequeue until empty, so that every live element is moved out of its
    /// slot and properly dropped rather than merely forgotten.
    pub fn clear(&mut self)
        requires
            old(self).wf(),
        ensures
            final(self).wf(),
            final(self)@ == Seq::<T>::empty(),
    {
        while !self.is_empty()
            invariant
                self.wf(),
            decreases self@.len(),
        {
            let _ = self.dequeue();
        }
        proof {
            assert(self@ =~= Seq::<T>::empty());
        }
    }
}

impl<T, const N: usize> Default for AdvancedArrayQueue<T, N> {
    /// An empty queue.
    fn default() -> (q: Self)
        ensures
            q.wf(),
            q@ == Seq::<T>::empty(),
    {
        Self::new()
    }
}

/// The values removed by `k` successive dequeues from a queue whose live
/// elements are `s`, in the order they come out.
pub open spec fn dequeue_all<T>(s: Seq<T>, k: int) -> Seq<T>
    decreases k,
{
    if k <= 0 || s.len() == 0 {
        Seq::empty()
    } else {
        seq![s[0]] + dequeue_all(s.subrange(1, s.len() as int), k - 1)
    }
}

/// The live elements after enqueueing each value of `vs` in order onto a
/// queue whose live elements are `s`.
pub open spec fn enqueue_all<T>(s: Seq<T>, vs: Seq<T>) -> Seq<T>
    decreases vs.len(),
{
    if vs.len() == 0 {
        s
    } else {
        enqueue_all(s.push(vs[0]), vs.subrange(1, vs.len() as int))
    }
}

/// Enqueueing a batch appends it: the queue keeps arrival order.
pub proof fn lemma_enqueue_all_appends<T>(s: Seq<T>, vs: Seq<T>)
    ensures
        enqueue_all(s, vs) == s + vs,
    decreases vs.len(),
{
    if vs.len() == 0 {
        assert(enqueue_all(s, vs) =~= s + vs);
    } else {
        lemma_enqueue_all_appends(s.push(vs[0]), vs.subrange(1, vs.len() as int));
        assert(s.push(vs[0]) + vs.subrange(1, vs.len() as int) =~= s + vs);
    }
}

/// First-in first-out: draining a queue completely returns exactly its live
/// elements in arrival order, wraparound included.
pub proof fn lemma_queue_fifo<T>(s: Seq<T>)
    ensures
        dequeue_all(s, s.len() as int) == s,
    decreases s.len(),
{
    if s.len() > 0 {
        lemma_queue_fifo(s.subrange(1, s.len() as int));
        assert(seq![s[0]] + s.subrange(1, s.len() as int) =~= s);
    } else {
        assert(dequeue_all(s, 0) =~= s);
    }
}

/// Full cycle: once a queue has been drained to empty, a fresh batch of
/// values passes through unchanged — no residual state survives the drain.
pub proof fn lemma_refill_after_drain<T>(vs: Seq<T>)
    ensures
        enqueue_all(Seq::<T>::empty(), vs) == vs,
        dequeue_all(enqueue_all(Seq::<T>::empty(), vs), vs.len() as int) == vs,
{
    lemma_enqueue_all_appends(Seq::<T>::empty(), vs);
    assert(Seq::<T>::empty() + vs =~= vs);
    lemma_queue_fifo(vs);
}

} // verus!
