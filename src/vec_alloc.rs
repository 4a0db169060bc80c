//! An append-only arena of values with a fixed capacity that can only be replaced wholesale.
use vstd::prelude::*;

verus! {

/// The capacity that `resize` moves to: double, at least one, saturating at the address space.
pub open spec fn grown(cap: nat) -> nat {
    if cap == 0 {
        1
    } else if 2 * cap <= usize::MAX {
        2 * cap
    } else {
        usize::MAX as nat
    }
}

/// The capacity that an arena starting at `cap` has once it has grown just often enough to
/// hold `n` values (or can grow no further).
pub open spec fn fitting_capacity(cap: nat, n: nat) -> nat
    decreases usize::MAX - cap,
{
    if n <= cap || cap >= usize::MAX {
        cap
    } else {
        fitting_capacity(grown(cap), n)
    }
}

/// Hands out slot indices in allocation order. Growing the arena discards every slot, so an
/// index issued before a `resize` never denotes a value again.
pub struct VecAlloc<T> {
    buf: Vec<T>,
    cap: usize,
}

impl<T> View for VecAlloc<T> {
    type V = Seq<T>;

    /// The values allocated since the arena was created or last grown, by slot index.
    closed spec fn view(&self) -> Seq<T> {
        self.buf@
    }
}

impl<T> VecAlloc<T> {
    /// How many values the arena can hold before it must grow.
    pub closed spec fn spec_capacity(&self) -> nat {
        self.cap as nat
    }

    /// Occupancy never exceeds capacity, which fits in the address space.
    pub open spec fn wf(&self) -> bool {
        self@.len() <= self.spec_capacity() <= usize::MAX
    }

    pub fn new(capacity: usize) -> (r: Self)
        ensures
            r.wf(),
            r@ == Seq::<T>::empty(),
            r.spec_capacity() == capacity,
    {
        VecAlloc { buf: Vec::new(), cap: capacity }
    }

    /// Stores `value` in the next free slot and returns that slot's index; hands `value` back
    /// when the arena is full.
    pub fn allocate(&mut self, value: T) -> (r: Result<usize, T>)
        requires
            old(self).wf(),
        ensures
            final(self).wf(),
            final(self).spec_capacity() == old(self).spec_capacity(),
            old(self)@.len() < old(self).spec_capacity() ==> r is Ok && r->Ok_0 == old(self)@.len()
                && final(self)@ == old(self)@.push(value),
            old(self)@.len() == old(self).spec_capacity() ==> r == Err::<usize, T>(value)
                && final(self)@ == old(self)@,
    {
        if self.buf.len() < self.cap {
            let index = self.buf.len();
            self.buf.push(value);
            Ok(index)
        } else {
            Err(value)
        }
    }

    /// Reads the value in slot `index`.
    pub fn get(&self, index: usize) -> (r: &T)
        requires
            index < self@.len(),
        ensures
            *r == self@[index as int],
    {
        &self.buf[index]
    }

    pub fn capacity(&self) -> (r: usize)
        ensures
            r == self.spec_capacity(),
    {
        self.cap
    }

    pub fn len(&self) -> (r: usize)
        ensures
            r == self@.len(),
    {
        self.buf.len()
    }

    /// Replaces the store with an empty one of double the capacity (at least one), discarding
    /// every value allocated so far.
    pub fn resize(&mut self)
        ensures
            final(self).wf(),
            final(self)@ == Seq::<T>::empty(),
            final(self).spec_capacity() == grown(old(self).spec_capacity()),
    {
        let cap: usize = if self.cap == 0 {
            1
        } else if self.cap <= usize::MAX / 2 {
            self.cap * 2
        } else {
            usize::MAX
        };
        self.buf = Vec::new();
        self.cap = cap;
    }

    /// Grows the arena as `resize` does and hands it back for the next allocation.
    pub fn resized(&mut self) -> (r: &mut Self)
        ensures
            *final(self) == *final(r),
            r.wf(),
            r@ == Seq::<T>::empty(),
            r.spec_capacity() == grown(old(self).spec_capacity()),
    {
        self.resize();
        self
    }
}

impl<T: Copy> VecAlloc<T> {
    /// A second arena with the same capacity holding the same values in the same slots, so
    /// every index issued by this one means the same value in the copy.
    pub fn copied(&self) -> (r: Self)
        requires
            self.wf(),
        ensures
            r.wf(),
            r@ == self@,
            r.spec_capacity() == self.spec_capacity(),
    {
        let mut buf: Vec<T> = Vec::new();
        let n = self.buf.len();
        let mut i: usize = 0;
        while i < n
            invariant
                n == self.buf@.len(),
                i <= n,
                buf@ == self.buf@.subrange(0, i as int),
            decreases n - i,
        {
            buf.push(self.buf[i]);
            i = i + 1;
            assert(buf@ =~= self.buf@.subrange(0, i as int));
        }
        assert(self.buf@.subrange(0, n as int) =~= self.buf@);
        VecAlloc { buf, cap: self.cap }
    }
}

} // verus!
