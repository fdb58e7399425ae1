//! A pool of emptied child arrays, sorted by the length that each one had, so
//! that a branch that grows can take over the storage that another has left.

use crate::hash_stream::BITS_IN_POINTER;
use vstd::prelude::*;

verus! {

/// The pool: for each array length from one to the number of slots of a
/// branch, a stack of buffers that held an array of that length.
///
/// A buffer in the pool holds no element. An array that leaves the pool has
/// been filled anew, whatever the buffer held before.
pub struct FreeList<T> {
    stacks: Vec<Vec<Vec<T>>>,
}

impl<T> FreeList<T> {
    /// The number of buffers in the pool for arrays of length `len`.
    pub closed spec fn pooled(&self, len: nat) -> nat {
        if 1 <= len <= self.stacks.len() {
            self.stacks[len - 1].len() as nat
        } else {
            0
        }
    }

    /// The number of buffers in the pool, for each length.
    pub open spec fn counts(&self) -> spec_fn(nat) -> nat {
        |len: nat| self.pooled(len)
    }

    /// There is a stack for each length, and the buffers in them are empty.
    pub closed spec fn wf(&self) -> bool {
        &&& self.stacks.len() == usize::BITS
        &&& forall|i: int, j: int|
            0 <= i < self.stacks.len() && 0 <= j < self.stacks[i].len() ==> (
            #[trigger] self.stacks[i][j]).len() == 0
    }

    /// The pool after a buffer for length `len` was taken, if there was one.
    pub open spec fn taken(&self, after: &Self, len: nat) -> bool {
        forall|n: nat| #[trigger]
            after.pooled(n) == if n == len && self.pooled(len) > 0 {
                (self.pooled(n) - 1) as nat
            } else {
                self.pooled(n)
            }
    }

    /// The pool after a buffer for length `len` was put in.
    pub open spec fn given(&self, after: &Self, len: nat) -> bool {
        forall|n: nat| #[trigger]
            after.pooled(n) == if n == len {
                self.pooled(n) + 1
            } else {
                self.pooled(n)
            }
    }

    /// The empty pool.
    pub fn new() -> (list: Self)
        ensures
            list.wf(),
            forall|len: nat| #[trigger] list.pooled(len) == 0,
    {
        let mut stacks: Vec<Vec<Vec<T>>> = Vec::new();
        while stacks.len() < BITS_IN_POINTER
            invariant
                stacks.len() <= BITS_IN_POINTER,
                forall|i: int| 0 <= i < stacks.len() ==> (#[trigger] stacks[i]).len() == 0,
            decreases BITS_IN_POINTER - stacks.len(),
        {
            stacks.push(Vec::new());
        }
        FreeList { stacks }
    }

    /// The number of buffers in the pool for arrays of length `len`.
    pub fn available(&self, len: usize) -> (n: usize)
        requires
            self.wf(),
        ensures
            n == self.pooled(len as nat),
    {
        if 1 <= len && len <= self.stacks.len() {
            self.stacks[len - 1].len()
        } else {
            0
        }
    }

    /// An array that holds `uno` and nothing else, in a buffer of the pool if
    /// it has one for this length.
    pub fn singleton(&mut self, uno: T) -> (array: Vec<T>)
        requires
            old(self).wf(),
        ensures
            final(self).wf(),
            array@ == seq![uno],
            old(self).taken(final(self), 1),
    {
        let recycled = self.stacks[0].pop();
        match recycled {
            Some(buffer) => {
                let mut array = buffer;
                array.push(uno);
                array
            },
            None => vec![uno],
        }
    }

    /// An array that holds `fst` and then `snd`, in a buffer of the pool if it
    /// has one for this length.
    pub fn pair(&mut self, fst: T, snd: T) -> (array: Vec<T>)
        requires
            old(self).wf(),
        ensures
            final(self).wf(),
            array@ == seq![fst, snd],
            old(self).taken(final(self), 2),
    {
        let recycled = self.stacks[1].pop();
        match recycled {
            Some(buffer) => {
                let mut array = buffer;
                array.push(fst);
                array.push(snd);
                array
            },
            None => vec![fst, snd],
        }
    }

    /// An array that holds the elements of `slice`, in their order, and then
    /// `new`, in a buffer of the pool if it has one for this length. The buffer
    /// of `slice` goes to the pool.
    pub fn push(&mut self, slice: Vec<T>, new: T) -> (array: Vec<T>)
        requires
            old(self).wf(),
            1 <= slice.len() < usize::BITS,
        ensures
            final(self).wf(),
            array@ == slice@.push(new),
            forall|n: nat| #[trigger]
                final(self).pooled(n) == if n == slice.len() + 1 && old(self).pooled(n) > 0 {
                    (old(self).pooled(n) - 1) as nat
                } else if n == slice.len() {
                    old(self).pooled(n) + 1
                } else {
                    old(self).pooled(n)
                },
    {
        let len = slice.len();
        let mut slice = slice;
        let recycled = self.stacks[len].pop();
        let mut array = match recycled {
            Some(buffer) => buffer,
            None => Vec::with_capacity(len + 1),
        };
        array.append(&mut slice);
        self.free_internal(slice, len);
        array.push(new);
        array
    }

    /// Puts an emptied buffer into the pool for arrays of length `len`.
    fn free_internal(&mut self, b: Vec<T>, len: usize)
        requires
            old(self).wf(),
            b.len() == 0,
            1 <= len <= usize::BITS,
        ensures
            final(self).wf(),
            old(self).given(final(self), len as nat),
    {
        self.stacks[len - 1].push(b);
    }

    /// Drops the elements of `b` and puts its buffer into the pool.
    pub fn free(&mut self, b: Vec<T>)
        requires
            old(self).wf(),
            1 <= b.len() <= usize::BITS,
        ensures
            final(self).wf(),
            old(self).given(final(self), b.len() as nat),
    {
        let len = b.len();
        let mut b = b;
        b.clear();
        self.free_internal(b, len);
    }
}

} // verus!
