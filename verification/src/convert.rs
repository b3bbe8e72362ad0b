//! Conversion of real samples to unsigned numbers.
use vstd::prelude::*;
use crate::block::{map_block_convert, map_result, mapped, BlockRet};
use crate::{Error, Float, StreamReader, StreamWriter};

verus! {

/// A block that turns each real sample into an unsigned 32-bit number,
/// after scaling it.
///
/// The block keeps the scale and does the batching. The arithmetic
/// comes from its caller: a function that takes a sample and the scale
/// and gives the number.
pub struct FloatToU32 {
    scale: Float,
}

/// `out` holds, place by place, a result of `convert` on the sample of
/// `input` and `scale`.
pub open spec fn converted<F: Fn(Float, Float) -> u32>(
    convert: &F,
    scale: Float,
    input: Seq<Float>,
    out: Seq<u32>,
) -> bool {
    &&& out.len() == input.len()
    &&& forall|i: int| 0 <= i < out.len() ==> convert.ensures((input[i], scale), #[trigger] out[i])
}

impl FloatToU32 {
    /// The factor by which each sample is scaled.
    pub closed spec fn scale(&self) -> Float {
        self.scale
    }

    /// A converter that scales by `scale`.
    pub fn new(scale: Float) -> (c: Self)
        ensures
            c.scale() == scale,
    {
        Self { scale }
    }

    /// Converts all that `r` holds, writes the results to `w`, and
    /// consumes what it converted.
    ///
    /// With no input at hand nothing happens. Where `w` has no room for
    /// all results, nothing is written and nothing consumed, and the call
    /// fails.
    pub fn work<R, W, F>(&mut self, r: &mut R, w: &mut W, convert: &F) -> (ret: Result<
        BlockRet,
        Error,
    >) where R: StreamReader<Float>, W: StreamWriter<u32>, F: Fn(Float, Float) -> u32
        requires
            forall|x: Float, s: Float| #[trigger] convert.requires((x, s)),
        ensures
            final(self).scale() == old(self).scale(),
            final(r).limit() == old(r).limit(),
            final(w).bound() == old(w).bound(),
            ret == map_result(old(r).pending().len(), old(w).room()),
            ret == Ok::<BlockRet, Error>(BlockRet::Progress) ==> {
                &&& final(r).pending() == Seq::<Float>::empty()
                &&& final(w).room() == old(w).room() - old(r).pending().len()
                &&& final(w).written().len() == old(w).written().len() + old(r).pending().len()
                &&& final(w).written().take(old(w).written().len() as int) == old(w).written()
                &&& converted(
                    convert,
                    old(self).scale(),
                    old(r).pending(),
                    final(w).written().skip(old(w).written().len() as int),
                )
            },
            ret != Ok::<BlockRet, Error>(BlockRet::Progress) ==> {
                &&& final(r).pending() == old(r).pending()
                &&& final(w).written() == old(w).written()
                &&& final(w).room() == old(w).room()
            },
    {
        let scale = self.scale;
        let one = |x: Float| -> (y: u32)
            ensures
                convert.ensures((x, scale), y),
            { convert(x, scale) };
        let ret = map_block_convert(&one, r, w);
        proof {
            let out = w.written().skip(old(w).written().len() as int);
            if ret == Ok::<BlockRet, Error>(BlockRet::Progress) {
                assert(mapped(&one, old(r).pending(), out));
                assert forall|i: int| 0 <= i < out.len() implies convert.ensures(
                    (old(r).pending()[i], scale),
                    #[trigger] out[i],
                ) by {
                    assert(one.ensures((old(r).pending()[i],), out[i]));
                }
            }
        }
        ret
    }
}

} // verus!
