//! A source that fills its output with one value.
use vstd::prelude::*;
use crate::{Error, StreamWriter};

verus! {

/// A block without input that writes the same value for as long as its
/// output has room.
pub struct ConstantSource<T> {
    val: T,
}

impl<T: Copy> ConstantSource<T> {
    /// The value that the source writes.
    pub closed spec fn val(&self) -> T {
        self.val
    }

    /// A source of the value `val`.
    pub fn new(val: T) -> (s: Self)
        ensures
            s.val() == val,
    {
        Self { val }
    }

    /// Fills all the room that `w` has left with the source's value.
    pub fn work<W: StreamWriter<T>>(&mut self, w: &mut W) -> (r: Result<(), Error>)
        ensures
            r == Ok::<(), Error>(()),
            final(self).val() == old(self).val(),
            final(w).written() == old(w).written() + Seq::new(
                old(w).room(),
                |i: int| old(self).val(),
            ),
            final(w).room() == 0,
            final(w).bound() == old(w).bound(),
    {
        let n = w.available();
        let mut fill: Vec<T> = Vec::new();
        let mut i: usize = 0;
        while i < n
            invariant
                i <= n,
                fill@ == Seq::new(i as nat, |j: int| self.val),
            decreases n - i,
        {
            fill.push(self.val);
            i = i + 1;
            proof {
                assert(fill@ =~= Seq::new(i as nat, |j: int| self.val));
            }
        }
        w.write(fill.as_slice())
    }
}

} // verus!
