//! What a block returns, what every block has to offer, and the two
//! patterns after which most blocks are written.
use vstd::prelude::*;
use core::marker::PhantomData;
use crate::stream::{
    kept_to_ports, lemma_kept_pair, lemma_kept_untouched, lemma_typed_appended,
    lemma_typed_consumed, pair_fits, Edges, Element, Ports, StreamType,
};
use crate::{Error, Stream, StreamReader, StreamWriter};

verus! {

/// What a block's work step says of itself.
#[derive(Clone, Copy, Debug, PartialEq, Eq, Structural)]
pub enum BlockRet {
    /// Output was produced. More may follow.
    Progress,
    /// Nothing was produced: the input at hand was not enough.
    Noop,
    /// Nothing will ever be produced again.
    EOF,
}

/// A processing unit with a state of its own, which reads from streams
/// and writes to streams when it is asked to work.
pub trait Block {
    /// What one work step of the block, in the state it is in, may make
    /// of the streams `before` and return, where the block has the input
    /// edges `ins` and the output edges `outs`.
    ///
    /// A block that does not say so itself may do all that keeps to its
    /// ports.
    open spec fn may_step(
        &self,
        ins: Edges,
        outs: Edges,
        before: Seq<StreamType>,
        after: Seq<StreamType>,
        ret: Result<BlockRet, Error>,
    ) -> bool {
        true
    }

    /// The name of the block's type.
    fn block_name(&self) -> &'static str;

    /// One work step: reads from the streams at the input ports, writes
    /// to the streams at the output ports, and says what came of it.
    ///
    /// A block consumes from the front of the streams at its input ports
    /// and writes behind what the streams at its output ports hold, and
    /// does nothing else: it leaves the edges, all other streams, and
    /// every stream's element type and capacity as they are.
    fn work(&mut self, ports: &mut Ports) -> (ret: Result<BlockRet, Error>)
        ensures
            final(ports).in_edges() == old(ports).in_edges(),
            final(ports).out_edges() == old(ports).out_edges(),
            kept_to_ports(
                old(ports).streams(),
                final(ports).streams(),
                old(ports).in_edges(),
                old(ports).out_edges(),
            ),
            old(self).may_step(
                old(ports).in_edges(),
                old(ports).out_edges(),
                old(ports).streams(),
                final(ports).streams(),
                ret,
            ),
    ;
}

/// A boxed block of any type is a block: it does what the block in the
/// box does.
impl Block for Box<dyn Block> {
    open spec fn may_step(
        &self,
        ins: Edges,
        outs: Edges,
        before: Seq<StreamType>,
        after: Seq<StreamType>,
        ret: Result<BlockRet, Error>,
    ) -> bool {
        (**self).may_step(ins, outs, before, after, ret)
    }

    fn block_name(&self) -> &'static str {
        (**self).block_name()
    }

    fn work(&mut self, ports: &mut Ports) -> (ret: Result<BlockRet, Error>) {
        (**self).work(ports)
    }
}

/// `b` holds, place by place, a result of `f` on the element of `a`.
pub open spec fn mapped<A, B, F: Fn(A) -> B>(f: &F, a: Seq<A>, b: Seq<B>) -> bool {
    &&& b.len() == a.len()
    &&& forall|i: int| 0 <= i < b.len() ==> f.ensures((a[i],), #[trigger] b[i])
}

/// The results of `f` on the elements of `a`, in their order.
pub fn map_slice<A: Copy, B, F: Fn(A) -> B>(f: &F, a: &[A]) -> (b: Vec<B>)
    requires
        forall|x: A| #[trigger] f.requires((x,)),
    ensures
        mapped(f, a@, b@),
{
    let mut b: Vec<B> = Vec::new();
    let mut i: usize = 0;
    while i < a.len()
        invariant
            i <= a@.len(),
            b@.len() == i,
            forall|x: A| #[trigger] f.requires((x,)),
            forall|j: int| 0 <= j < i ==> f.ensures((a@[j],), #[trigger] b@[j]),
        decreases a@.len() - i,
    {
        let y = f(a[i]);
        b.push(y);
        i = i + 1;
    }
    b
}

/// One work step of a block that turns each input element into one
/// output element of another type.
///
/// With no input at hand nothing happens. Else every element at hand is
/// transformed, all results are written, and all of the input is
/// consumed. Where the output has no room for all results, nothing is
/// written and nothing consumed, and the step fails.
pub fn map_block_convert<A, B, F, R, W>(f: &F, src: &mut R, dst: &mut W) -> (ret: Result<
    BlockRet,
    Error,
>) where A: Copy, B: Copy, F: Fn(A) -> B, R: StreamReader<A>, W: StreamWriter<B>
    requires
        forall|x: A| #[trigger] f.requires((x,)),
    ensures
        ret == map_result(old(src).pending().len(), old(dst).room()),
        final(src).limit() == old(src).limit(),
        final(dst).bound() == old(dst).bound(),
        ret == Ok::<BlockRet, Error>(BlockRet::Progress) ==> {
            &&& final(src).pending() == Seq::<A>::empty()
            &&& final(dst).room() == old(dst).room() - old(src).pending().len()
            &&& final(dst).written().len() == old(dst).written().len() + old(src).pending().len()
            &&& final(dst).written().take(old(dst).written().len() as int) == old(dst).written()
            &&& mapped(
                f,
                old(src).pending(),
                final(dst).written().skip(old(dst).written().len() as int),
            )
        },
        ret != Ok::<BlockRet, Error>(BlockRet::Progress) ==> {
            &&& final(src).pending() == old(src).pending()
            &&& final(dst).written() == old(dst).written()
            &&& final(dst).room() == old(dst).room()
        },
{
    let n = src.available();
    if n == 0 {
        return Ok(BlockRet::Noop);
    }
    if n > dst.available() {
        return Err(Error::Capacity);
    }
    let out = map_slice(f, src.buffer());
    let wrote = dst.write(out.as_slice());
    let ate = src.consume(n);
    proof {
        let before = old(dst).written();
        assert((before + out@).take(before.len() as int) =~= before);
        assert((before + out@).skip(before.len() as int) =~= out@);
        assert(old(src).pending().skip(n as int) =~= Seq::<A>::empty());
    }
    Ok(BlockRet::Progress)
}

/// One work step of a block that turns each input element into one
/// output element of the same type. It does what [`map_block_convert`]
/// does.
pub fn map_block<T, F, R, W>(f: &F, src: &mut R, dst: &mut W) -> (ret: Result<
    BlockRet,
    Error,
>) where T: Copy, F: Fn(T) -> T, R: StreamReader<T>, W: StreamWriter<T>
    requires
        forall|x: T| #[trigger] f.requires((x,)),
    ensures
        ret == map_result(old(src).pending().len(), old(dst).room()),
        final(src).limit() == old(src).limit(),
        final(dst).bound() == old(dst).bound(),
        ret == Ok::<BlockRet, Error>(BlockRet::Progress) ==> {
            &&& final(src).pending() == Seq::<T>::empty()
            &&& final(dst).room() == old(dst).room() - old(src).pending().len()
            &&& final(dst).written().len() == old(dst).written().len() + old(src).pending().len()
            &&& final(dst).written().take(old(dst).written().len() as int) == old(dst).written()
            &&& mapped(
                f,
                old(src).pending(),
                final(dst).written().skip(old(dst).written().len() as int),
            )
        },
        ret != Ok::<BlockRet, Error>(BlockRet::Progress) ==> {
            &&& final(src).pending() == old(src).pending()
            &&& final(dst).written() == old(dst).written()
            &&& final(dst).room() == old(dst).room()
        },
{
    map_block_convert(f, src, dst)
}

/// What a mapping block returns for `pending` elements at hand and room
/// for `room` more in its output.
pub open spec fn map_result(pending: nat, room: nat) -> Result<BlockRet, Error> {
    if pending == 0 {
        Ok(BlockRet::Noop)
    } else if pending > room {
        Err(Error::Capacity)
    } else {
        Ok(BlockRet::Progress)
    }
}

/// A block that turns each element of its first input stream into one
/// element of its first output stream by the function `f`, as
/// [`map_block_convert`] does.
#[verifier::reject_recursive_types(A)]
#[verifier::reject_recursive_types(B)]
#[verifier::reject_recursive_types(F)]
pub struct ConvertBlock<A, B, F: Fn(A) -> B> {
    f: F,
    types: PhantomData<(A, B)>,
}

/// A block that turns each element of its first input stream into one
/// element of the same type of its first output stream.
pub type MapBlock<T, F> = ConvertBlock<T, T, F>;

impl<A, B, F: Fn(A) -> B> ConvertBlock<A, B, F> {
    #[verifier::type_invariant]
    spec fn total(&self) -> bool {
        forall|x: A| #[trigger] self.f.requires((x,))
    }

    /// The function that the block applies.
    pub closed spec fn func(&self) -> F {
        self.f
    }

    /// A block that applies `f`, which must accept every element.
    pub fn new(f: F) -> (b: Self)
        requires
            forall|x: A| #[trigger] f.requires((x,)),
        ensures
            b.func() == f,
    {
        Self { f, types: PhantomData }
    }
}

impl<A: Element, B: Element, F: Fn(A) -> B> ConvertBlock<A, B, F> {
    /// What a mapping block may do in one step is a step of the mapping
    /// by its function.
    pub proof fn lemma_may_step(
        &self,
        ins: Edges,
        outs: Edges,
        before: Seq<StreamType>,
        after: Seq<StreamType>,
        ret: Result<BlockRet, Error>,
    )
        ensures
            self.may_step(ins, outs, before, after, ret) == convert_step::<A, B, F>(
                &self.func(),
                ins,
                outs,
                before,
                after,
                ret,
            ),
    {
    }
}

impl<A: Element, B: Element, F: Fn(A) -> B> Block for ConvertBlock<A, B, F> {
    open spec fn may_step(
        &self,
        ins: Edges,
        outs: Edges,
        before: Seq<StreamType>,
        after: Seq<StreamType>,
        ret: Result<BlockRet, Error>,
    ) -> bool {
        convert_step::<A, B, F>(&self.func(), ins, outs, before, after, ret)
    }

    fn block_name(&self) -> (name: &'static str)
        ensures
            name@ == "ConvertBlock"@,
    {
        "ConvertBlock"
    }

    /// One step of the mapping from the stream at the first input port
    /// to the stream at the first output port. Fails where one of them
    /// is missing or holds another element type than the function takes
    /// or gives, and where the two are one stream.
    fn work(&mut self, ports: &mut Ports) -> (ret: Result<BlockRet, Error>)
        ensures
            final(self).func() == old(self).func(),
    {
        proof {
            use_type_invariant(&*self);
            lemma_kept_untouched(ports.streams(), ports.in_edges(), ports.out_edges());
        }
        let ghost before = ports.streams();
        let ghost ins = ports.in_edges();
        let ghost outs = ports.out_edges();
        match ports.pair::<A, B>(0, 0) {
            Ok((src, dst)) => {
                let ghost src0 = *src;
                let ghost dst0 = *dst;
                let ret = map_block_convert(&self.f, src, dst);
                proof {
                    let hi = ins[0].1 as int;
                    let hj = outs[0].1 as int;
                    let after = before.update(hi, A::wrap(*src)).update(hj, B::wrap(*dst));
                    assert(map_step(&old(self).func(), src0, dst0, *src, *dst, ret));
                    if ret == Ok::<BlockRet, Error>(BlockRet::Progress) {
                        assert(src0@.skip(src0@.len() as int) =~= src@);
                        lemma_typed_consumed::<A>(src0, *src, src0@.len() as int);
                    } else {
                        assert(src0@.skip(0) =~= src@);
                        assert(dst@.take(dst0@.len() as int) =~= dst0@);
                        lemma_typed_consumed::<A>(src0, *src, 0);
                    }
                    lemma_typed_appended::<B>(dst0, *dst);
                    assert(ins[0].1 == hi);
                    assert(outs[0].1 == hj);
                    lemma_kept_pair(before, after, ins, outs, hi, hj);
                }
                ret
            },
            Err(e) => Err(e),
        }
    }
}

/// What one step of a mapping block by `f` may make of the streams
/// `before`: where the streams at its first ports fit, a step of the
/// mapping on the two; else a configuration error and no change.
pub open spec fn convert_step<A: Element, B: Element, F: Fn(A) -> B>(
    f: &F,
    ins: Edges,
    outs: Edges,
    before: Seq<StreamType>,
    after: Seq<StreamType>,
    ret: Result<BlockRet, Error>,
) -> bool {
    if pair_fits::<A, B>(before, ins, outs, 0, 0) {
        let hi = ins[0].1 as int;
        let hj = outs[0].1 as int;
        exists|src: Stream<A>, dst: Stream<B>, src_after: Stream<A>, dst_after: Stream<B>|
            {
                &&& before[hi] == A::wrap(src)
                &&& before[hj] == B::wrap(dst)
                &&& after == before.update(hi, A::wrap(src_after)).update(hj, B::wrap(dst_after))
                &&& #[trigger] map_step(f, src, dst, src_after, dst_after, ret)
            }
    } else {
        ret == Err::<BlockRet, Error>(Error::Configuration) && after == before
    }
}

/// One step of a mapping block by `f` took the streams `src` and `dst`
/// to `src_after` and `dst_after` and returned `ret`.
pub open spec fn map_step<A, B, F: Fn(A) -> B>(
    f: &F,
    src: Stream<A>,
    dst: Stream<B>,
    src_after: Stream<A>,
    dst_after: Stream<B>,
    ret: Result<BlockRet, Error>,
) -> bool {
    let room = (dst.capacity() - dst@.len()) as nat;
    &&& ret == map_result(src@.len(), room)
    &&& src_after.capacity() == src.capacity()
    &&& dst_after.capacity() == dst.capacity()
    &&& if ret == Ok::<BlockRet, Error>(BlockRet::Progress) {
        &&& src_after@ == Seq::<A>::empty()
        &&& dst_after@.len() == dst@.len() + src@.len()
        &&& dst_after@.take(dst@.len() as int) == dst@
        &&& mapped(f, src@, dst_after@.skip(dst@.len() as int))
    } else {
        &&& src_after@ == src@
        &&& dst_after@ == dst@
    }
}

} // verus!
