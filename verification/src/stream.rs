//! Streams with their element type erased, and the ports through which
//! a block reaches the streams wired to it.
//!
//! A graph stores streams of different element types side by side. It
//! does so through [`StreamType`], which holds a stream of one of the
//! element types that the engine supports. A block gets back at the
//! typed stream through [`Ports::input`], [`Ports::output`] and
//! [`Ports::pair`].
use vstd::prelude::*;
use crate::{Complex, Error, Float, Stream};

verus! {

/// The element types that the engine supports.
#[derive(Clone, Copy, Debug, PartialEq, Eq, Structural)]
pub enum Kind {
    /// Real samples.
    Float,
    /// Complex samples.
    Complex,
    /// Unsigned 32-bit numbers.
    U32,
}

/// A stream of one of the supported element types.
pub enum StreamType {
    /// A stream of real samples.
    Float(Stream<Float>),
    /// A stream of complex samples.
    Complex(Stream<Complex>),
    /// A stream of unsigned 32-bit numbers.
    U32(Stream<u32>),
}

/// An element of any of the supported types.
#[derive(Clone, Copy, Debug, PartialEq, Eq, Structural)]
pub enum Cell {
    /// A real sample.
    Float(Float),
    /// A complex sample.
    Complex(Complex),
    /// An unsigned 32-bit number.
    U32(u32),
}

impl StreamType {
    /// The unconsumed elements, oldest first.
    pub open spec fn contents(&self) -> Seq<Cell> {
        match self {
            StreamType::Float(s) => s@.map_values(|x: Float| Cell::Float(x)),
            StreamType::Complex(s) => s@.map_values(|x: Complex| Cell::Complex(x)),
            StreamType::U32(s) => s@.map_values(|x: u32| Cell::U32(x)),
        }
    }

    /// The stream is of the kind and the capacity of `before`.
    pub open spec fn shaped_as(&self, before: &StreamType) -> bool {
        &&& self.kind() == before.kind()
        &&& self.capacity() == before.capacity()
    }

    /// The stream is what `before` became by consuming: it holds what
    /// `before` held, less some elements at the front.
    pub open spec fn consumed_from(&self, before: &StreamType) -> bool {
        &&& self.shaped_as(before)
        &&& exists|n: int|
            0 <= n <= before.contents().len() && self.contents()
                == #[trigger] before.contents().skip(n)
    }

    /// The stream is what `before` became by writing: it holds what
    /// `before` held, and behind that what was written.
    pub open spec fn appended_to(&self, before: &StreamType) -> bool {
        &&& self.shaped_as(before)
        &&& before.contents().len() <= self.contents().len()
        &&& self.contents().take(before.contents().len() as int) == before.contents()
    }

    /// The stream is what `before` became by writing and consuming, in
    /// any order: it holds what `before` held and what was written, in
    /// that order, less some elements at the front.
    pub open spec fn conserved_from(&self, before: &StreamType) -> bool {
        &&& self.shaped_as(before)
        &&& exists|written: Seq<Cell>, n: int|
            0 <= n <= before.contents().len() + written.len() && self.contents() == #[trigger] (
            before.contents() + written).skip(n)
    }

    /// The element type of the stream.
    pub open spec fn kind(&self) -> Kind {
        match self {
            StreamType::Float(_) => Kind::Float,
            StreamType::Complex(_) => Kind::Complex,
            StreamType::U32(_) => Kind::U32,
        }
    }

    /// The number of unconsumed elements.
    pub open spec fn len(&self) -> nat {
        match self {
            StreamType::Float(s) => s@.len(),
            StreamType::Complex(s) => s@.len(),
            StreamType::U32(s) => s@.len(),
        }
    }

    /// The largest number of elements the stream can hold.
    pub open spec fn capacity(&self) -> nat {
        match self {
            StreamType::Float(s) => s.capacity(),
            StreamType::Complex(s) => s.capacity(),
            StreamType::U32(s) => s.capacity(),
        }
    }

    /// An empty stream of up to `max_samples` real samples.
    pub fn new_float(max_samples: usize) -> (e: Self)
        ensures
            e.kind() == Kind::Float,
            e.len() == 0,
            e.capacity() == max_samples,
    {
        StreamType::Float(Stream::new(max_samples))
    }

    /// An empty stream of up to `max_samples` complex samples.
    pub fn new_complex(max_samples: usize) -> (e: Self)
        ensures
            e.kind() == Kind::Complex,
            e.len() == 0,
            e.capacity() == max_samples,
    {
        StreamType::Complex(Stream::new(max_samples))
    }

    /// An empty stream of up to `max_samples` unsigned 32-bit numbers.
    pub fn new_u32(max_samples: usize) -> (e: Self)
        ensures
            e.kind() == Kind::U32,
            e.len() == 0,
            e.capacity() == max_samples,
    {
        StreamType::U32(Stream::new(max_samples))
    }

    /// The number of unconsumed elements.
    pub fn available(&self) -> (n: usize)
        ensures
            n == self.len(),
    {
        match self {
            StreamType::Float(s) => crate::StreamReader::available(s),
            StreamType::Complex(s) => crate::StreamReader::available(s),
            StreamType::U32(s) => crate::StreamReader::available(s),
        }
    }
}

/// An element type that a [`StreamType`] can hold.
pub trait Element: Copy {
    /// The element type's tag.
    spec fn kind() -> Kind;

    /// The type-erased form of the stream `s`.
    spec fn wrap(s: Stream<Self>) -> StreamType;

    /// The type-erased form of the element `x`.
    spec fn cell(x: Self) -> Cell;

    /// The type-erased form of a stream has this type's tag, and the
    /// stream's capacity and elements.
    proof fn lemma_wrap(s: Stream<Self>)
        ensures
            Self::wrap(s).kind() == Self::kind(),
            Self::wrap(s).len() == s@.len(),
            Self::wrap(s).capacity() == s.capacity(),
            Self::wrap(s).contents() == s@.map_values(|x: Self| Self::cell(x)),
    ;

    /// Erases the element type of `s`.
    fn erase(s: Stream<Self>) -> (e: StreamType)
        ensures
            e == Self::wrap(s),
    ;

    /// The typed stream inside `e`, where `e` holds this element type.
    fn typed(e: &StreamType) -> (r: Option<&Stream<Self>>)
        ensures
            match r {
                Some(s) => *e == Self::wrap(*s),
                None => e.kind() != Self::kind(),
            },
    ;

    /// The typed stream inside `e`, to read and change, where `e` holds
    /// this element type.
    fn typed_mut(e: &mut StreamType) -> (r: Option<&mut Stream<Self>>)
        ensures
            match r {
                Some(s) => *old(e) == Self::wrap(*s) && *final(e) == Self::wrap(*final(s)),
                None => old(e).kind() != Self::kind() && *final(e) == *old(e),
            },
    ;
}

impl Element for Float {
    open spec fn kind() -> Kind {
        Kind::Float
    }

    open spec fn wrap(s: Stream<Float>) -> StreamType {
        StreamType::Float(s)
    }

    open spec fn cell(x: Float) -> Cell {
        Cell::Float(x)
    }

    proof fn lemma_wrap(s: Stream<Float>) {
        assert(Self::wrap(s).contents() =~= s@.map_values(|x: Float| Self::cell(x)));
    }

    fn erase(s: Stream<Float>) -> (e: StreamType) {
        StreamType::Float(s)
    }

    fn typed(e: &StreamType) -> (r: Option<&Stream<Float>>) {
        match e {
            StreamType::Float(s) => Some(s),
            _ => None,
        }
    }

    fn typed_mut(e: &mut StreamType) -> (r: Option<&mut Stream<Float>>) {
        match e {
            StreamType::Float(s) => Some(s),
            _ => None,
        }
    }
}

impl Element for Complex {
    open spec fn kind() -> Kind {
        Kind::Complex
    }

    open spec fn wrap(s: Stream<Complex>) -> StreamType {
        StreamType::Complex(s)
    }

    open spec fn cell(x: Complex) -> Cell {
        Cell::Complex(x)
    }

    proof fn lemma_wrap(s: Stream<Complex>) {
        assert(Self::wrap(s).contents() =~= s@.map_values(|x: Complex| Self::cell(x)));
    }

    fn erase(s: Stream<Complex>) -> (e: StreamType) {
        StreamType::Complex(s)
    }

    fn typed(e: &StreamType) -> (r: Option<&Stream<Complex>>) {
        match e {
            StreamType::Complex(s) => Some(s),
            _ => None,
        }
    }

    fn typed_mut(e: &mut StreamType) -> (r: Option<&mut Stream<Complex>>) {
        match e {
            StreamType::Complex(s) => Some(s),
            _ => None,
        }
    }
}

impl Element for u32 {
    open spec fn kind() -> Kind {
        Kind::U32
    }

    open spec fn wrap(s: Stream<u32>) -> StreamType {
        StreamType::U32(s)
    }

    open spec fn cell(x: u32) -> Cell {
        Cell::U32(x)
    }

    proof fn lemma_wrap(s: Stream<u32>) {
        assert(Self::wrap(s).contents() =~= s@.map_values(|x: u32| Self::cell(x)));
    }

    fn erase(s: Stream<u32>) -> (e: StreamType) {
        StreamType::U32(s)
    }

    fn typed(e: &StreamType) -> (r: Option<&Stream<u32>>) {
        match e {
            StreamType::U32(s) => Some(s),
            _ => None,
        }
    }

    fn typed_mut(e: &mut StreamType) -> (r: Option<&mut Stream<u32>>) {
        match e {
            StreamType::U32(s) => Some(s),
            _ => None,
        }
    }
}

/// The edges at one side of one block, in the order in which they were
/// connected: each a port of the block and the handle of the stream
/// wired to it.
pub type Edges = Seq<(usize, usize)>;

/// Some edge of `edges` leads to the stream with the handle `h`.
pub open spec fn leads_to(edges: Edges, h: int) -> bool {
    exists|k: int| 0 <= k < edges.len() && (#[trigger] edges[k]).1 == h
}

/// What one work step of a block with the input edges `ins` and the
/// output edges `outs` may make of the streams `before`.
///
/// A stream that no edge of the block leads to stays as it is. One at
/// an input only is consumed from, one at an output only is written to,
/// and one at both is written to and consumed from. No stream changes
/// its element type or its capacity.
pub open spec fn kept_to_ports(
    before: Seq<StreamType>,
    after: Seq<StreamType>,
    ins: Edges,
    outs: Edges,
) -> bool {
    &&& after.len() == before.len()
    &&& forall|h: int|
        0 <= h < after.len() ==> {
            let now = #[trigger] after[h];
            if leads_to(ins, h) && leads_to(outs, h) {
                now.conserved_from(&before[h])
            } else if leads_to(ins, h) {
                now.consumed_from(&before[h])
            } else if leads_to(outs, h) {
                now.appended_to(&before[h])
            } else {
                now == before[h]
            }
        }
}

/// The streams `after` are the streams `before`, each after elements
/// were written to it and consumed from it: what a sweep may do to the
/// streams of a graph.
pub open spec fn all_conserved(before: Seq<StreamType>, after: Seq<StreamType>) -> bool {
    &&& after.len() == before.len()
    &&& forall|i: int| 0 <= i < after.len() ==> (#[trigger] after[i]).conserved_from(&before[i])
}

/// A stream that was left alone counts as consumed from, as written to,
/// and as conserved.
pub proof fn lemma_untouched(e: StreamType)
    ensures
        e.consumed_from(&e),
        e.appended_to(&e),
        e.conserved_from(&e),
{
    let held = e.contents();
    assert(held.skip(0) =~= held);
    assert(held.take(held.len() as int) =~= held);
    assert((held + Seq::<Cell>::empty()).skip(0) =~= held);
}

/// Consuming from a conserved stream leaves it conserved.
pub proof fn lemma_conserved_then_consumed(a: StreamType, b: StreamType, c: StreamType)
    requires
        b.conserved_from(&a),
        c.consumed_from(&b),
    ensures
        c.conserved_from(&a),
{
    let (written, n) = choose|written: Seq<Cell>, n: int|
        0 <= n <= a.contents().len() + written.len() && b.contents() == #[trigger] (a.contents()
            + written).skip(n);
    let m = choose|m: int|
        0 <= m <= b.contents().len() && c.contents() == #[trigger] b.contents().skip(m);
    assert(c.contents() =~= (a.contents() + written).skip(n + m));
}

/// Writing to a conserved stream leaves it conserved.
pub proof fn lemma_conserved_then_appended(a: StreamType, b: StreamType, c: StreamType)
    requires
        b.conserved_from(&a),
        c.appended_to(&b),
    ensures
        c.conserved_from(&a),
{
    let (written, n) = choose|written: Seq<Cell>, n: int|
        0 <= n <= a.contents().len() + written.len() && b.contents() == #[trigger] (a.contents()
            + written).skip(n);
    let more = c.contents().skip(b.contents().len() as int);
    assert(c.contents() =~= c.contents().take(b.contents().len() as int) + more);
    assert(c.contents() =~= (a.contents() + (written + more)).skip(n));
}

/// A conserved stream that is conserved once more is conserved.
pub proof fn lemma_conserved_twice(a: StreamType, b: StreamType, c: StreamType)
    requires
        b.conserved_from(&a),
        c.conserved_from(&b),
    ensures
        c.conserved_from(&a),
{
    let (first, n) = choose|written: Seq<Cell>, n: int|
        0 <= n <= a.contents().len() + written.len() && b.contents() == #[trigger] (a.contents()
            + written).skip(n);
    let (second, m) = choose|written: Seq<Cell>, m: int|
        0 <= m <= b.contents().len() + written.len() && c.contents() == #[trigger] (b.contents()
            + written).skip(m);
    assert(c.contents() =~= (a.contents() + (first + second)).skip(n + m));
}

/// Consuming twice is consuming.
pub proof fn lemma_consumed_twice(a: StreamType, b: StreamType, c: StreamType)
    requires
        b.consumed_from(&a),
        c.consumed_from(&b),
    ensures
        c.consumed_from(&a),
{
    let n = choose|n: int|
        0 <= n <= a.contents().len() && b.contents() == #[trigger] a.contents().skip(n);
    let m = choose|m: int|
        0 <= m <= b.contents().len() && c.contents() == #[trigger] b.contents().skip(m);
    assert(c.contents() =~= a.contents().skip(n + m));
}

/// Writing twice is writing.
pub proof fn lemma_appended_twice(a: StreamType, b: StreamType, c: StreamType)
    requires
        b.appended_to(&a),
        c.appended_to(&b),
    ensures
        c.appended_to(&a),
{
    let held = a.contents().len() as int;
    assert(c.contents().take(held) =~= c.contents().take(b.contents().len() as int).take(held));
}

/// What a work step leaves of the streams is conserved.
pub proof fn lemma_kept_is_conserved(
    before: Seq<StreamType>,
    after: Seq<StreamType>,
    ins: Edges,
    outs: Edges,
)
    requires
        kept_to_ports(before, after, ins, outs),
    ensures
        all_conserved(before, after),
{
    assert forall|h: int| 0 <= h < after.len() implies (#[trigger] after[h]).conserved_from(
        &before[h],
    ) by {
        lemma_untouched(before[h]);
        if leads_to(ins, h) && leads_to(outs, h) {
        } else if leads_to(ins, h) {
            lemma_conserved_then_consumed(before[h], before[h], after[h]);
        } else if leads_to(outs, h) {
            lemma_conserved_then_appended(before[h], before[h], after[h]);
        } else {
        }
    }
}

/// A step that changes no stream keeps to every block's ports.
pub proof fn lemma_kept_untouched(streams: Seq<StreamType>, ins: Edges, outs: Edges)
    ensures
        kept_to_ports(streams, streams, ins, outs),
{
    assert forall|h: int| 0 <= h < streams.len() implies (#[trigger] streams[h]).conserved_from(
        &streams[h],
    ) && streams[h].consumed_from(&streams[h]) && streams[h].appended_to(&streams[h]) by {
        lemma_untouched(streams[h]);
    }
}

/// A step that consumes from one stream at an input, writes to another
/// stream at an output, and leaves all other streams alone keeps to the
/// block's ports.
pub proof fn lemma_kept_pair(
    before: Seq<StreamType>,
    after: Seq<StreamType>,
    ins: Edges,
    outs: Edges,
    hi: int,
    hj: int,
)
    requires
        after.len() == before.len(),
        0 <= hi < before.len(),
        0 <= hj < before.len(),
        hi != hj,
        leads_to(ins, hi),
        leads_to(outs, hj),
        after[hi].consumed_from(&before[hi]),
        after[hj].appended_to(&before[hj]),
        forall|h: int| 0 <= h < before.len() && h != hi && h != hj ==> after[h] == before[h],
    ensures
        kept_to_ports(before, after, ins, outs),
{
    assert forall|h: int| 0 <= h < after.len() implies {
        let now = #[trigger] after[h];
        if leads_to(ins, h) && leads_to(outs, h) {
            now.conserved_from(&before[h])
        } else if leads_to(ins, h) {
            now.consumed_from(&before[h])
        } else if leads_to(outs, h) {
            now.appended_to(&before[h])
        } else {
            now == before[h]
        }
    } by {
        lemma_untouched(before[h]);
        if h == hi {
            lemma_conserved_then_consumed(before[h], before[h], after[h]);
        } else if h == hj {
            lemma_conserved_then_appended(before[h], before[h], after[h]);
        } else {
        }
    }
}

/// A typed stream that lost elements at its front, and nothing else,
/// counts as consumed from in its type-erased form.
pub proof fn lemma_typed_consumed<T: Element>(before: Stream<T>, after: Stream<T>, n: int)
    requires
        0 <= n <= before@.len(),
        after@ == before@.skip(n),
        after.capacity() == before.capacity(),
    ensures
        T::wrap(after).consumed_from(&T::wrap(before)),
{
    T::lemma_wrap(before);
    T::lemma_wrap(after);
    let held = T::wrap(before).contents();
    assert(T::wrap(after).contents() =~= held.skip(n));
}

/// A typed stream that gained elements at its back, and nothing else,
/// counts as written to in its type-erased form.
pub proof fn lemma_typed_appended<T: Element>(before: Stream<T>, after: Stream<T>)
    requires
        before@.len() <= after@.len(),
        after@.take(before@.len() as int) == before@,
        after.capacity() == before.capacity(),
    ensures
        T::wrap(after).appended_to(&T::wrap(before)),
{
    T::lemma_wrap(before);
    T::lemma_wrap(after);
    let held = T::wrap(before).contents();
    assert(T::wrap(after).contents().take(held.len() as int) =~= held);
}

/// The ports of one block for one work step: the streams of a graph,
/// and the edges that say which of them are at the block's input ports
/// and which at its output ports.
///
/// A block reaches a stream only through the port that the stream is
/// wired to. One stream may be at an input port and at an output port
/// of the same block.
pub struct Ports<'a> {
    streams: Vec<StreamType>,
    inputs: &'a Vec<(usize, usize)>,
    outputs: &'a Vec<(usize, usize)>,
}

/// The stream at place `i` of `edges` is among `streams` and holds
/// elements of the kind `kind`.
pub open spec fn port_fits(streams: Seq<StreamType>, edges: Edges, i: int, kind: Kind) -> bool {
    &&& 0 <= i < edges.len()
    &&& edges[i].1 < streams.len()
    &&& streams[edges[i].1 as int].kind() == kind
}

impl<'a> Ports<'a> {
    /// All streams, each at its handle.
    pub closed spec fn streams(&self) -> Seq<StreamType> {
        self.streams@
    }

    /// The edges at the input ports, in the order in which they were
    /// connected.
    pub closed spec fn in_edges(&self) -> Edges {
        self.inputs@
    }

    /// The edges at the output ports, in the order in which they were
    /// connected.
    pub closed spec fn out_edges(&self) -> Edges {
        self.outputs@
    }

    /// The ports of a block with the input edges `inputs` and the output
    /// edges `outputs` on the streams `streams`.
    pub fn new(
        streams: Vec<StreamType>,
        inputs: &'a Vec<(usize, usize)>,
        outputs: &'a Vec<(usize, usize)>,
    ) -> (p: Self)
        ensures
            p.streams() == streams@,
            p.in_edges() == inputs@,
            p.out_edges() == outputs@,
    {
        Self { streams, inputs, outputs }
    }

    /// The streams, each at its handle.
    pub fn into_streams(self) -> (streams: Vec<StreamType>)
        ensures
            streams@ == self.streams(),
    {
        self.streams
    }

    /// The number of input ports.
    pub fn inputs(&self) -> (n: usize)
        ensures
            n == self.in_edges().len(),
    {
        self.inputs.len()
    }

    /// The number of output ports.
    pub fn outputs(&self) -> (n: usize)
        ensures
            n == self.out_edges().len(),
    {
        self.outputs.len()
    }

    /// The stream at the `i`th input port, as a stream of `T`. Fails
    /// where there is no such port, where its edge leads to no stream,
    /// and where the stream holds another element type.
    pub fn input<T: Element>(&mut self, i: usize) -> (r: Result<&mut Stream<T>, Error>)
        ensures
            final(self).in_edges() == old(self).in_edges(),
            final(self).out_edges() == old(self).out_edges(),
            match r {
                Ok(s) => {
                    let h = old(self).in_edges()[i as int].1 as int;
                    &&& port_fits(old(self).streams(), old(self).in_edges(), i as int, T::kind())
                    &&& old(self).streams()[h] == T::wrap(*s)
                    &&& final(self).streams() == old(self).streams().update(h, T::wrap(*final(s)))
                },
                Err(e) => {
                    &&& e == Error::Configuration
                    &&& !port_fits(old(self).streams(), old(self).in_edges(), i as int, T::kind())
                    &&& final(self).streams() == old(self).streams()
                },
            },
    {
        if i >= self.inputs.len() {
            return Err(Error::Configuration);
        }
        let h = self.inputs[i].1;
        if h >= self.streams.len() {
            return Err(Error::Configuration);
        }
        match T::typed_mut(&mut self.streams[h]) {
            Some(s) => {
                proof {
                    T::lemma_wrap(*s);
                }
                Ok(s)
            },
            None => Err(Error::Configuration),
        }
    }

    /// The stream at the `j`th output port, as a stream of `T`. Fails
    /// where there is no such port, where its edge leads to no stream,
    /// and where the stream holds another element type.
    pub fn output<T: Element>(&mut self, j: usize) -> (r: Result<&mut Stream<T>, Error>)
        ensures
            final(self).in_edges() == old(self).in_edges(),
            final(self).out_edges() == old(self).out_edges(),
            match r {
                Ok(s) => {
                    let h = old(self).out_edges()[j as int].1 as int;
                    &&& port_fits(old(self).streams(), old(self).out_edges(), j as int, T::kind())
                    &&& old(self).streams()[h] == T::wrap(*s)
                    &&& final(self).streams() == old(self).streams().update(h, T::wrap(*final(s)))
                },
                Err(e) => {
                    &&& e == Error::Configuration
                    &&& !port_fits(old(self).streams(), old(self).out_edges(), j as int, T::kind())
                    &&& final(self).streams() == old(self).streams()
                },
            },
    {
        if j >= self.outputs.len() {
            return Err(Error::Configuration);
        }
        let h = self.outputs[j].1;
        if h >= self.streams.len() {
            return Err(Error::Configuration);
        }
        match T::typed_mut(&mut self.streams[h]) {
            Some(s) => {
                proof {
                    T::lemma_wrap(*s);
                }
                Ok(s)
            },
            None => Err(Error::Configuration),
        }
    }

    /// The stream at the `i`th input port and the stream at the `j`th
    /// output port, to work on both at once. Fails where either port
    /// would fail alone, and where both ports hold the same stream.
    pub fn pair<A: Element, B: Element>(&mut self, i: usize, j: usize) -> (r: Result<
        (&mut Stream<A>, &mut Stream<B>),
        Error,
    >)
        ensures
            final(self).in_edges() == old(self).in_edges(),
            final(self).out_edges() == old(self).out_edges(),
            match r {
                Ok((src, dst)) => {
                    let hi = old(self).in_edges()[i as int].1 as int;
                    let hj = old(self).out_edges()[j as int].1 as int;
                    &&& pair_fits::<A, B>(
                        old(self).streams(),
                        old(self).in_edges(),
                        old(self).out_edges(),
                        i as int,
                        j as int,
                    )
                    &&& old(self).streams()[hi] == A::wrap(*src)
                    &&& old(self).streams()[hj] == B::wrap(*dst)
                    &&& final(self).streams() == old(self).streams().update(
                        hi,
                        A::wrap(*final(src)),
                    ).update(hj, B::wrap(*final(dst)))
                },
                Err(e) => {
                    &&& e == Error::Configuration
                    &&& !pair_fits::<A, B>(
                        old(self).streams(),
                        old(self).in_edges(),
                        old(self).out_edges(),
                        i as int,
                        j as int,
                    )
                    &&& final(self).streams() == old(self).streams()
                },
            },
    {
        if i >= self.inputs.len() || j >= self.outputs.len() {
            return Err(Error::Configuration);
        }
        let hi = self.inputs[i].1;
        let hj = self.outputs[j].1;
        let n = self.streams.len();
        if hi >= n || hj >= n || hi == hj {
            return Err(Error::Configuration);
        }
        if A::typed(&self.streams[hi]).is_none() || B::typed(&self.streams[hj]).is_none() {
            return Err(Error::Configuration);
        }
        let slice = self.streams.as_mut_slice();
        if hi < hj {
            let (low, high) = slice.split_at_mut(hj);
            match A::typed_mut(&mut low[hi]) {
                Some(src) => match B::typed_mut(&mut high[0]) {
                    Some(dst) => {
                        proof {
                            A::lemma_wrap(*src);
                            B::lemma_wrap(*dst);
                        }
                        Ok((src, dst))
                    },
                    None => Err(Error::Configuration),
                },
                None => Err(Error::Configuration),
            }
        } else {
            let (low, high) = slice.split_at_mut(hi);
            match A::typed_mut(&mut high[0]) {
                Some(src) => match B::typed_mut(&mut low[hj]) {
                    Some(dst) => {
                        proof {
                            A::lemma_wrap(*src);
                            B::lemma_wrap(*dst);
                        }
                        Ok((src, dst))
                    },
                    None => Err(Error::Configuration),
                },
                None => Err(Error::Configuration),
            }
        }
    }
}

/// Input port `i` holds a stream of `A`, output port `j` holds a stream
/// of `B`, and the two are not the same stream.
pub open spec fn pair_fits<A: Element, B: Element>(
    streams: Seq<StreamType>,
    ins: Edges,
    outs: Edges,
    i: int,
    j: int,
) -> bool {
    &&& port_fits(streams, ins, i, A::kind())
    &&& port_fits(streams, outs, j, B::kind())
    &&& ins[i].1 != outs[j].1
}

} // verus!
