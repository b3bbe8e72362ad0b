//! A sink that keeps what it reads.
use vstd::prelude::*;
use crate::{Error, StreamReader};

verus! {

/// A block without output that collects all that its input delivers.
pub struct VectorSink<T> {
    data: Vec<T>,
}

impl<T> View for VectorSink<T> {
    type V = Seq<T>;

    /// The elements collected so far, oldest first.
    closed spec fn view(&self) -> Seq<T> {
        self.data@
    }
}

impl<T: Copy> VectorSink<T> {
    /// A sink that has collected nothing.
    pub fn new() -> (s: Self)
        ensures
            s@ == Seq::<T>::empty(),
    {
        Self { data: Vec::new() }
    }

    /// The elements collected so far, oldest first.
    pub fn to_vec(&self) -> (v: &[T])
        ensures
            v@ == self@,
    {
        self.data.as_slice()
    }

    /// Collects all that `r` holds, and consumes it.
    pub fn work<R: StreamReader<T>>(&mut self, r: &mut R) -> (res: Result<(), Error>)
        ensures
            res == Ok::<(), Error>(()),
            final(self)@ == old(self)@ + old(r).pending(),
            final(r).pending() == Seq::<T>::empty(),
            final(r).limit() == old(r).limit(),
    {
        let n = r.available();
        let buf = r.buffer();
        let mut i: usize = 0;
        while i < n
            invariant
                i <= n,
                n == buf@.len(),
                self.data@ == old(self).data@ + buf@.take(i as int),
            decreases n - i,
        {
            self.data.push(buf[i]);
            i = i + 1;
            proof {
                assert(self.data@ =~= old(self).data@ + buf@.take(i as int));
            }
        }
        proof {
            assert(buf@.take(n as int) =~= buf@);
            assert(buf@.skip(n as int) =~= Seq::<T>::empty());
        }
        r.consume(n)
    }
}

impl<T: Copy> Default for VectorSink<T> {
    fn default() -> (s: Self)
        ensures
            s@ == Seq::<T>::empty(),
    {
        Self::new()
    }
}

} // verus!
