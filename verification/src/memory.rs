//! The tape: a growable vector of 8-bit cells and the pointer into
//! it.  Cells wrap modulo 256; the tape grows on demand, zero-filled,
//! and never shrinks.  The pointer always rests on an existing cell.

use vstd::prelude::*;

use crate::errors::RuntimeError;
use crate::semantics::grow;
use crate::semantics::tape_limit;

verus! {

/// The interpreter's memory.
pub struct Memory {
    /// The cells; index 0 is the left end of the tape.
    pub data: Vec<u8>,
    /// The index of the current cell, always within `data`.
    pub ptr: usize,
}

impl Memory {
    /// The pointer rests on an existing cell.
    pub open spec fn wf(self) -> bool {
        self.ptr < self.data@.len()
    }

    /// A zeroed tape of `size` cells — at least one, so the pointer
    /// has a cell to rest on — with the pointer at the left end.
    pub fn new(size: usize) -> (m: Memory)
        ensures
            m.wf(),
            m.ptr == 0,
            m.data@ == Seq::new(if size >= 1 { size as nat } else { 1nat }, |j: int| 0u8),
    {
        let n: usize = if size >= 1 {
            size
        } else {
            1
        };
        let data: Vec<u8> = alloc_zeroed(n);
        Memory { data, ptr: 0 }
    }

    /// The value of the current cell.
    pub fn get(&self) -> (v: u8)
        requires
            self.wf(),
        ensures
            v == self.data@[self.ptr as int],
    {
        self.data[self.ptr]
    }

    /// The value of the current cell.  The tape holds plain bytes, so
    /// this is `get` under the name the dispatch loop historically
    /// used for the unwrapped cell.
    pub fn get_raw(&self) -> (v: u8)
        requires
            self.wf(),
        ensures
            v == self.data@[self.ptr as int],
    {
        self.get()
    }

    /// Overwrite the current cell.
    pub fn set(&mut self, value: u8)
        requires
            old(self).wf(),
        ensures
            final(self).wf(),
            final(self).ptr == old(self).ptr,
            final(self).data@ == old(self).data@.update(old(self).ptr as int, value),
    {
        let p = self.ptr;
        self.data.set(p, value);
    }

    /// Grow the tape, zero-filled, so that it holds at least `length`
    /// cells.
    pub fn check_length(&mut self, length: usize)
        ensures
            final(self).ptr == old(self).ptr,
            final(self).data@ == grow(old(self).data@, length as int),
            final(self).data@.len() >= length,
    {
        if length > self.data.len() {
            self.data.resize(length, 0u8);
            proof {
                assert(self.data@ =~= grow(old(self).data@, length as int));
            }
        } else {
            proof {
                assert(self.data@ =~= grow(old(self).data@, length as int));
            }
        }
    }

    /// Move the pointer by `delta`, growing the tape so the pointer
    /// rests on a cell.  Moving below index 0 is a fatal underflow;
    /// moving past the machine's highest index is a fatal overflow.
    pub fn shift(&mut self, delta: isize) -> (r: Result<(), RuntimeError>)
        requires
            old(self).wf(),
        ensures
            match r {
                Ok(()) => {
                    &&& old(self).ptr + delta >= 0
                    &&& old(self).ptr + delta + 1 <= tape_limit()
                    &&& final(self).ptr == old(self).ptr + delta
                    &&& final(self).data@ == grow(old(self).data@, old(self).ptr + delta + 1)
                    &&& final(self).wf()
                },
                Err(RuntimeError::TapeUnderflow) => {
                    &&& old(self).ptr + delta < 0
                    &&& *final(self) == *old(self)
                },
                Err(RuntimeError::TapeOverflow) => {
                    &&& old(self).ptr + delta >= 0
                    &&& old(self).ptr + delta + 1 > tape_limit()
                    &&& *final(self) == *old(self)
                },
            },
    {
        let p: i128 = self.ptr as i128 + delta as i128;
        if p < 0 {
            Err(RuntimeError::TapeUnderflow)
        } else if p > (usize::MAX - 1) as i128 {
            Err(RuntimeError::TapeOverflow)
        } else {
            self.ptr = p as usize;
            let q = self.ptr;
            self.check_length(q + 1);
            Ok(())
        }
    }
}

/// A vector of `n` zero bytes.
fn alloc_zeroed(n: usize) -> (v: Vec<u8>)
    ensures
        v@ == Seq::new(n as nat, |j: int| 0u8),
{
    let mut v: Vec<u8> = Vec::new();
    let mut i: usize = 0;
    while i < n
        invariant
            i <= n,
            v@ == Seq::new(i as nat, |j: int| 0u8),
        decreases n - i,
    {
        v.push(0u8);
        i = i + 1;
        proof {
            assert(v@ =~= Seq::new(i as nat, |j: int| 0u8));
        }
    }
    v
}

} // verus!
