//! Fixed-capacity LIFO stacks: a simple variant for `Copy` elements over a
//! fully initialized backing array, and an advanced variant that stores
//! arbitrary elements in tagged slots so that only live slots ever hold a
//! value.

use vstd::prelude::*;

verus! {

/// Stack over a fully initialized fixed array; elements must be `Copy` and a
/// default value pre-fills every slot at construction.
pub struct ArrayStack<T: Copy, const N: usize> {
    data: Vec<T>,
    top: usize,
}

impl<T: Copy, const N: usize> View for ArrayStack<T, N> {
    type V = Seq<T>;

    /// The live elements, bottom of the stack first.
    closed spec fn view(&self) -> Seq<T> {
        self.data@.subrange(0, self.top as int)
    }
}

impl<T: Copy, const N: usize> ArrayStack<T, N> {
    /// The backing storage always holds exactly `N` slots and the live prefix
    /// never exceeds it.
    pub closed spec fn wf(&self) -> bool {
        &&& self.data@.len() == N as int
        &&& self.top <= N
    }

    /// A well-formed stack never holds more than `N` elements.
    pub proof fn lemma_capacity(&self)
        requires
            self.wf(),
        ensures
            self@.len() <= N as int,
    {
    }

    /// Create a new stack, pre-filling the backing array with a default value.
    pub fn new(default_value: T) -> (s: Self)
        ensures
            s.wf(),
            s@ == Seq::<T>::empty(),
    {
        let mut data: Vec<T> = Vec::new();
        while data.len() < N
            invariant
                data@.len() <= N as int,
            decreases N as int - data@.len(),
        {
            data.push(default_value);
        }
        ArrayStack { data, top: 0 }
    }

    /// Push an element; fails without mutating anything when the stack is full.
    pub fn push(&mut self, item: T) -> (r: Result<(), &'static str>)
        requires
            old(self).wf(),
        ensures
            final(self).wf(),
            old(self)@.len() < N as int ==> r is Ok && final(self)@ == old(self)@.push(item),
            old(self)@.len() == N as int ==> (r matches Err(m) && m@ == "Stack full"@)
                && *final(self) == *old(self),
    {
        if self.is_full() {
            Err("Stack full")
        } else {
            self.data[self.top] = item;
            self.top = self.top + 1;
            proof {
                assert(self@ =~= old(self)@.push(item));
            }
            Ok(())
        }
    }

    /// Pop the most recently pushed element; fails when the stack is empty.
    pub fn pop(&mut self) -> (r: Result<T, &'static str>)
        requires
            old(self).wf(),
        ensures
            final(self).wf(),
            old(self)@.len() > 0 ==> (r matches Ok(v) && v == old(self)@.last())
                && final(self)@ == old(self)@.drop_last(),
            old(self)@.len() == 0 ==> (r matches Err(m) && m@ == "Stack empty"@)
                && *final(self) == *old(self),
    {
        if self.is_empty() {
            Err("Stack empty")
        } else {
            self.top = self.top - 1;
            proof {
                assert(self@ =~= old(self)@.drop_last());
            }
            Ok(self.data[self.top])
        }
    }

    /// Borrow the top element; fails when the stack is empty.
    pub fn peek(&self) -> (r: Result<&T, &'static str>)
        requires
            self.wf(),
        ensures
            self@.len() > 0 ==> (r matches Ok(v) && *v == self@.last()),
            self@.len() == 0 ==> (r matches Err(m) && m@ == "Stack empty"@),
    {
        if self.is_empty() {
            Err("Stack empty")
        } else {
            Ok(&self.data[self.top - 1])
        }
    }

    /// The stack holds no elements.
    pub fn is_empty(&self) -> (r: bool)
        requires
            self.wf(),
        ensures
            r <==> self@.len() == 0,
    {
        self.top == 0
    }

    /// The stack holds exactly `N` elements.
    pub fn is_full(&self) -> (r: bool)
        requires
            self.wf(),
        ensures
            r <==> self@.len() == N as int,
    {
        self.top == N
    }

    /// Number of live elements.
    pub fn len(&self) -> (r: usize)
        requires
            self.wf(),
        ensures
            r == self@.len(),
    {
        self.top
    }
}

/// The live elements of a tagged-slot stack whose occupied prefix has length
/// `top`, bottom of the stack first.
pub open spec fn prefix_slot_view<T>(data: Seq<Option<T>>, top: int) -> Seq<T> {
    Seq::new(top as nat, |i: int| data[i]->0)
}

/// Stack over tagged slots: elements need not be `Copy`, and a slot holds a
/// value exactly while it lies below the top of the stack.
pub struct AdvancedArrayStack<T, const N: usize> {
    data: Vec<Option<T>>,
    top: usize,
}

impl<T, const N: usize> View for AdvancedArrayStack<T, N> {
    type V = Seq<T>;

    /// The live elements, bottom of the stack first.
    closed spec fn view(&self) -> Seq<T> {
        prefix_slot_view(self.data@, self.top as int)
    }
}

impl<T, const N: usize> AdvancedArrayStack<T, N> {
    /// The backing storage always holds exactly `N` slots, and a slot is
    /// occupied exactly when it lies below the top.
    pub closed spec fn wf(&self) -> bool {
        &&& self.data@.len() == N as int
        &&& self.top <= N
        &&& forall|i: int| 0 <= i < N as int ==> (self.data@[i] is Some <==> i < self.top)
    }

    /// A well-formed stack never holds more than `N` elements.
    pub proof fn lemma_capacity(&self)
        requires
            self.wf(),
        ensures
            self@.len() <= N as int,
    {
    }

    /// Create a new empty stack; every slot starts unoccupied.
    pub fn new() -> (s: Self)
        ensures
            s.wf(),
            s@ == Seq::<T>::empty(),
    {
        let mut data: Vec<Option<T>> = Vec::new();
        while data.len() < N
            invariant
                data@.len() <= N as int,
                forall|i: int| 0 <= i < data@.len() ==> data@[i] is None,
            decreases N as int - data@.len(),
        {
            data.push(None);
        }
        let s = AdvancedArrayStack { data, top: 0 };
        proof {
            assert(s@ =~= Seq::<T>::empty());
        }
        s
    }

    /// Push an element into the first free slot; when the stack is full the
    /// element is handed back unconsumed.
    pub fn push(&mut self, item: T) -> (r: Result<(), T>)
        requires
            old(self).wf(),
        ensures
            final(self).wf(),
            old(self)@.len() < N as int ==> r is Ok && final(self)@ == old(self)@.push(item),
            old(self)@.len() == N as int ==> (r matches Err(it) && it == item) && *final(self)
                == *old(self),
    {
        if self.is_full() {
            return Err(item);
        }
        let t = self.top;
        self.data[t] = Some(item);
        self.top = self.top + 1;
        proof {
            assert(self@ =~= old(self)@.push(item));
        }
        Ok(())
    }

    /// Pop the most recently pushed element, emptying its slot; fails when
    /// the stack is empty.
    pub fn pop(&mut self) -> (r: Result<T, &'static str>)
        requires
            old(self).wf(),
        ensures
            final(self).wf(),
            old(self)@.len() > 0 ==> (r matches Ok(v) && v == old(self)@.last())
                && final(self)@ == old(self)@.drop_last(),
            old(self)@.len() == 0 ==> (r matches Err(m) && m@ == "Stack empty"@)
                && *final(self) == *old(self),
    {
        if self.is_empty() {
            return Err("Stack empty");
        }
        self.top = self.top - 1;
        let t = self.top;
        let item = self.data[t].take();
        proof {
            assert(self@ =~= old(self)@.drop_last());
        }
        Ok(item.unwrap())
    }

    /// Borrow the top element; fails when the stack is empty.
    pub fn peek(&self) -> (r: Result<&T, &'static str>)
        requires
            self.wf(),
        ensures
            self@.len() > 0 ==> (r matches Ok(v) && *v == self@.last()),
            self@.len() == 0 ==> (r matches Err(m) && m@ == "Stack empty"@),
    {
        if self.is_empty() {
            return Err("Stack empty");
        }
        match &self.data[self.top - 1] {
            Some(v) => Ok(v),
            None => Err("Stack empty"),
        }
    }

    /// Mutably borrow the top element; fails when the stack is empty.
    pub fn peek_mut(&mut self) -> (r: Result<&mut T, &'static str>)
        requires
            old(self).wf(),
        ensures
            old(self)@.len() == 0 ==> (r matches Err(m) && m@ == "Stack empty"@) && *final(self)
                == *old(self),
            old(self)@.len() > 0 ==> (r matches Ok(p) && *p == old(self)@.last()
                && final(self).wf() && final(self)@ == old(self)@.update(
                old(self)@.len() - 1,
                *final(p),
            )),
    {
        if self.is_empty() {
            return Err("Stack empty");
        }
        proof {
            assert forall|x: T|
                prefix_slot_view(
                    old(self).data@.update(old(self).top - 1, Some(x)),
                    old(self).top as int,
                ) =~= old(self)@.update(old(self)@.len() - 1, x) by {};
        }
        let t = self.top - 1;
        match self.data[t].as_mut() {
            Some(p) => Ok(p),
            None => Err("Stack empty"),
        }
    }

    /// The stack holds no elements.
    pub fn is_empty(&self) -> (r: bool)
        requires
            self.wf(),
        ensures
            r <==> self@.len() == 0,
    {
        self.top == 0
    }

    /// The stack holds exactly `N` elements.
    pub fn is_full(&self) -> (r: bool)
        requires
            self.wf(),
        ensures
            r <==> self@.len() == N as int,
    {
        self.top == N
    }

    /// Number of live elements.
    pub fn len(&self) -> (r: usize)
        requires
            self.wf(),
        ensures
            r == self@.len(),
    {
        self.top
    }

    /// Move every element out of the stack, in pop order, into a draining
    /// sequence; the stack itself is left empty, so no slot stays live behind
    /// the drained values.
    pub fn drain(&mut self) -> (r: Drain<T>)
        requires
            old(self).wf(),
        ensures
            final(self).wf(),
            final(self)@ == Seq::<T>::empty(),
            r@ == old(self)@.reverse(),
    {
        let mut items: Vec<T> = Vec::new();
        while !self.is_empty()
            invariant
                self.wf(),
                self@.len() <= old(self)@.len(),
                self@ == old(self)@.subrange(0, self@.len() as int),
                items@.len() + self@.len() == old(self)@.len(),
                items@ == old(self)@.subrange(self@.len() as int, old(self)@.len() as int).reverse(),
            decreases self@.len(),
        {
            let ghost prev = self@;
            let ghost prev_items = items@;
            match self.pop() {
                Ok(v) => items.push(v),
                Err(_) => (),
            }
            proof {
                assert(self@ == prev.drop_last());
                assert(self@ =~= old(self)@.subrange(0, self@.len() as int));
                assert(items@ == prev_items.push(prev.last()));
                assert(prev.last() == old(self)@[self@.len() as int]);
                assert(items@ =~= old(self)@.subrange(
                    self@.len() as int,
                    old(self)@.len() as int,
                ).reverse());
            }
        }
        proof {
            assert(self@ =~= Seq::<T>::empty());
            assert(items@ =~= old(self)@.reverse());
        }
        Drain { items }
    }
}

impl<T, const N: usize> Default for AdvancedArrayStack<T, N> {
    /// An empty stack.
    fn default() -> (s: Self)
        ensures
            s.wf(),
            s@ == Seq::<T>::empty(),
    {
        Self::new()
    }
}

/// The values taken out of a stack by a `drain` call, yielded one at a time
/// in pop order (most recently pushed first).
pub struct Drain<T> {
    items: Vec<T>,
}

impl<T> View for Drain<T> {
    type V = Seq<T>;

    /// The values not yet yielded, next one first.
    closed spec fn view(&self) -> Seq<T> {
        self.items@
    }
}

impl<T> Drain<T> {
    /// Yield the next drained value; `None` once every value has been
    /// handed out.
    pub fn next(&mut self) -> (r: Option<T>)
        ensures
            old(self)@.len() > 0 ==> (r matches Some(v) && v == old(self)@[0]) && final(self)@
                == old(self)@.subrange(1, old(self)@.len() as int),
            old(self)@.len() == 0 ==> r is None && *final(self) == *old(self),
    {
        if self.items.len() == 0 {
            None
        } else {
            Some(self.items.remove(0))
        }
    }

    /// Number of values not yet yielded.
    pub fn len(&self) -> (r: usize)
        ensures
            r == self@.len(),
    {
        self.items.len()
    }
}

/// The values removed by `k` successive pops from a stack whose live
/// elements are `s`, in the order they come out.
pub open spec fn pop_all<T>(s: Seq<T>, k: int) -> Seq<T>
    decreases k,
{
    if k <= 0 || s.len() == 0 {
        Seq::empty()
    } else {
        seq![s.last()] + pop_all(s.drop_last(), k - 1)
    }
}

/// The live elements after pushing each value of `vs` in order onto a stack
/// whose live elements are `s`.
pub open spec fn push_all<T>(s: Seq<T>, vs: Seq<T>) -> Seq<T>
    decreases vs.len(),
{
    if vs.len() == 0 {
        s
    } else {
        push_all(s.push(vs[0]), vs.subrange(1, vs.len() as int))
    }
}

/// Pushing a batch appends it to the live elements.
pub proof fn lemma_push_all_appends<T>(s: Seq<T>, vs: Seq<T>)
    ensures
        push_all(s, vs) == s + vs,
    decreases vs.len(),
{
    if vs.len() == 0 {
        assert(push_all(s, vs) =~= s + vs);
    } else {
        lemma_push_all_appends(s.push(vs[0]), vs.subrange(1, vs.len() as int));
        assert(s.push(vs[0]) + vs.subrange(1, vs.len() as int) =~= s + vs);
    }
}

/// Last-in first-out: popping a stack until empty returns exactly its live
/// elements in reverse push order.
pub proof fn lemma_stack_lifo<T>(s: Seq<T>)
    ensures
        pop_all(s, s.len() as int) == s.reverse(),
    decreases s.len(),
{
    if s.len() > 0 {
        lemma_stack_lifo(s.drop_last());
        assert(seq![s.last()] + s.drop_last().reverse() =~= s.reverse());
    } else {
        assert(pop_all(s, 0) =~= s.reverse());
    }
}

/// Full cycle: once a stack has been drained to empty, a fresh batch of
/// pushed values is exactly what pops back out (reversed) — no residual
/// state survives the drain.
pub proof fn lemma_refill_after_drain<T>(vs: Seq<T>)
    ensures
        push_all(Seq::<T>::empty(), vs) == vs,
        pop_all(push_all(Seq::<T>::empty(), vs), vs.len() as int) == vs.reverse(),
{
    lemma_push_all_appends(Seq::<T>::empty(), vs);
    assert(Seq::<T>::empty() + vs =~= vs);
    lemma_stack_lifo(vs);
}

} // verus!
