//! A streaming signal-processing engine.
//!
//! Independent processing units (blocks) are connected by bounded, typed
//! buffers (streams) and driven by a cooperative scheduler (the graph).
//!
//! Samples travel through the engine as bit patterns: the engine moves,
//! buffers and counts them but never does arithmetic on them. Numeric
//! kernels (transforms, products, sums) are handed to the blocks as
//! function values, and each block states its result over what those
//! functions ensure.
use vstd::prelude::*;

pub mod block;
pub mod constant_source;
pub mod convert;
pub mod fft_filter;
pub mod graph;
pub mod stream;
pub mod vector_sink;

verus! {

/// What can go wrong inside the engine.
#[derive(Clone, Copy, Debug, PartialEq, Eq, Structural)]
pub enum Error {
    /// More elements were to be consumed than a stream holds.
    Overrun,
    /// More elements were to be written than a stream has room for.
    Capacity,
    /// A block or an edge was set up with parameters that cannot work.
    Configuration,
    /// Raw bytes do not hold a sample of the type asked for.
    Decode,
}

/// A real sample: the bit pattern of a 32-bit binary floating-point
/// number.
///
/// The engine stores and moves samples and never computes with them, so
/// it holds the pattern and leaves its meaning to the numeric code
/// around it. Two samples are equal where their patterns are.
#[derive(Clone, Copy, Debug, PartialEq, Eq, Structural)]
pub struct Float {
    /// The bit pattern.
    pub bits: u32,
}

impl Float {
    /// The sample with the bit pattern `bits`.
    pub fn from_bits(bits: u32) -> (x: Self)
        ensures
            x.bits == bits,
    {
        Float { bits }
    }

    /// The sample's bit pattern.
    pub fn to_bits(self) -> (bits: u32)
        ensures
            bits == self.bits,
    {
        self.bits
    }
}

/// A complex sample: a real part and an imaginary part.
#[derive(Clone, Copy, Debug, PartialEq, Eq, Structural)]
pub struct Complex {
    /// The real part.
    pub re: Float,
    /// The imaginary part.
    pub im: Float,
}

impl Complex {
    /// The sample with real part `re` and imaginary part `im`.
    pub fn new(re: Float, im: Float) -> (z: Self)
        ensures
            z.re == re,
            z.im == im,
    {
        Complex { re, im }
    }
}

/// A real sample as a complex one: the sample as the real part, and an
/// imaginary part of zero.
pub fn widen(x: Float) -> (z: Complex)
    ensures
        z.re == x,
        z.im.bits == 0,
{
    Complex { re: x, im: Float { bits: 0 } }
}

/// A complex sample as a real one: its real part.
pub fn narrow(z: Complex) -> (x: Float)
    ensures
        x == z.re,
{
    z.re
}

/// The 32-bit number that four bytes hold, least significant byte first.
pub open spec fn le_u32(b: Seq<u8>) -> u32
    recommends
        b.len() == 4,
{
    (b[0] + 0x100 * b[1] + 0x1_0000 * b[2] + 0x100_0000 * b[3]) as u32
}

/// A sample type as sources and sinks of raw bytes see it: how many
/// bytes one sample takes, and how to read one from them.
pub trait Sample {
    /// The type of the sample read.
    type Type;

    /// The number of bytes that one sample takes.
    spec fn width() -> nat;

    /// The sample that `data` holds, where `data` is `width()` bytes.
    spec fn decode(data: Seq<u8>) -> Self::Type;

    /// The number of bytes that one sample takes.
    fn size() -> (n: usize)
        ensures
            n == Self::width(),
    ;

    /// Reads one sample from `data`. Fails unless `data` is exactly as
    /// many bytes as one sample takes.
    fn parse(data: &[u8]) -> (r: Result<Self::Type, Error>)
        ensures
            data@.len() == Self::width() ==> r == Ok::<Self::Type, Error>(Self::decode(data@)),
            data@.len() != Self::width() ==> r == Err::<Self::Type, Error>(Error::Decode),
    ;
}

/// Reads the 32-bit number that the four bytes of `data` from place
/// `at` on hold, least significant byte first.
fn read_le_u32(data: &[u8], at: usize) -> (x: u32)
    requires
        at + 4 <= data@.len(),
    ensures
        x == le_u32(data@.subrange(at as int, at + 4)),
{
    let b0: u32 = data[at] as u32;
    let b1: u32 = data[at + 1] as u32;
    let b2: u32 = data[at + 2] as u32;
    let b3: u32 = data[at + 3] as u32;
    b0 + 0x100 * b1 + 0x1_0000 * b2 + 0x100_0000 * b3
}

impl Sample for u32 {
    type Type = u32;

    open spec fn width() -> nat {
        4
    }

    open spec fn decode(data: Seq<u8>) -> u32 {
        le_u32(data)
    }

    fn size() -> (n: usize) {
        4
    }

    fn parse(data: &[u8]) -> (r: Result<u32, Error>) {
        if data.len() != 4 {
            return Err(Error::Decode);
        }
        proof {
            assert(data@.subrange(0, 4) =~= data@);
        }
        Ok(read_le_u32(data, 0))
    }
}

impl Sample for Float {
    type Type = Float;

    open spec fn width() -> nat {
        4
    }

    open spec fn decode(data: Seq<u8>) -> Float {
        Float { bits: le_u32(data) }
    }

    fn size() -> (n: usize) {
        4
    }

    fn parse(data: &[u8]) -> (r: Result<Float, Error>) {
        if data.len() != 4 {
            return Err(Error::Decode);
        }
        proof {
            assert(data@.subrange(0, 4) =~= data@);
        }
        Ok(Float::from_bits(read_le_u32(data, 0)))
    }
}

impl Sample for Complex {
    type Type = Complex;

    open spec fn width() -> nat {
        8
    }

    open spec fn decode(data: Seq<u8>) -> Complex {
        Complex {
            re: Float { bits: le_u32(data.subrange(0, 4)) },
            im: Float { bits: le_u32(data.subrange(4, 8)) },
        }
    }

    fn size() -> (n: usize) {
        8
    }

    fn parse(data: &[u8]) -> (r: Result<Complex, Error>) {
        if data.len() != 8 {
            return Err(Error::Decode);
        }
        let re = Float::from_bits(read_le_u32(data, 0));
        let im = Float::from_bits(read_le_u32(data, 4));
        Ok(Complex::new(re, im))
    }
}

/// An ordered buffer of elements of one type, bounded by a capacity.
///
/// Elements are appended at the back and consumed from the front. Reading
/// does not remove anything: what was not consumed is seen again on the
/// next read.
pub struct Stream<T> {
    max_samples: usize,
    data: Vec<T>,
}

impl<T> View for Stream<T> {
    type V = Seq<T>;

    /// The unconsumed elements, oldest first.
    closed spec fn view(&self) -> Seq<T> {
        self.data@
    }
}

impl<T> Stream<T> {
    /// The largest number of elements the stream can hold.
    pub closed spec fn capacity(&self) -> nat {
        self.max_samples as nat
    }

    #[verifier::type_invariant]
    spec fn within_capacity(&self) -> bool {
        self.data@.len() <= self.max_samples
    }

    /// An empty stream that can hold up to `max_samples` elements.
    pub fn new(max_samples: usize) -> (s: Self)
        ensures
            s@ == Seq::<T>::empty(),
            s.capacity() == max_samples,
    {
        Self { max_samples, data: Vec::new() }
    }

    /// The largest number of elements the stream can hold.
    pub fn max_samples(&self) -> (n: usize)
        ensures
            n == self.capacity(),
            self@.len() <= n,
    {
        proof {
            use_type_invariant(self);
        }
        self.max_samples
    }
}

/// What a stream that holds `held` and has the capacity `capacity`
/// holds after `data` was to be written to it.
pub open spec fn after_write<T>(held: Seq<T>, capacity: nat, data: Seq<T>) -> Seq<T> {
    if held.len() + data.len() <= capacity {
        held + data
    } else {
        held
    }
}

/// What a stream that holds `held` holds after `n` elements were to be
/// consumed from it.
pub open spec fn after_consume<T>(held: Seq<T>, n: nat) -> Seq<T> {
    if n <= held.len() {
        held.skip(n as int)
    } else {
        held
    }
}

/// An operation on a stream.
pub enum Op<T> {
    /// The elements are to be written.
    Write(Seq<T>),
    /// So many elements are to be consumed.
    Consume(nat),
}

/// `op` respects the bounds of a stream that holds `held` and has the
/// capacity `capacity`: it writes no more than there is room for, or
/// consumes no more than there is.
pub open spec fn respects<T>(held: Seq<T>, capacity: nat, op: Op<T>) -> bool {
    match op {
        Op::Write(data) => held.len() + data.len() <= capacity,
        Op::Consume(n) => n <= held.len(),
    }
}

/// What a stream holds after `op`.
pub open spec fn after<T>(held: Seq<T>, capacity: nat, op: Op<T>) -> Seq<T> {
    match op {
        Op::Write(data) => after_write(held, capacity, data),
        Op::Consume(n) => after_consume(held, n),
    }
}

/// What a stream holds after the operations `ops`, one after the other.
pub open spec fn after_all<T>(held: Seq<T>, capacity: nat, ops: Seq<Op<T>>) -> Seq<T>
    decreases ops.len(),
{
    if ops.len() == 0 {
        held
    } else {
        after(after_all(held, capacity, ops.drop_last()), capacity, ops.last())
    }
}

/// Each of `ops` respects the bounds of the stream as it finds it.
pub open spec fn all_respect<T>(held: Seq<T>, capacity: nat, ops: Seq<Op<T>>) -> bool
    decreases ops.len(),
{
    if ops.len() == 0 {
        true
    } else {
        &&& all_respect(held, capacity, ops.drop_last())
        &&& respects(after_all(held, capacity, ops.drop_last()), capacity, ops.last())
    }
}

/// All that `ops` write, in the order of the writes.
pub open spec fn written_by<T>(ops: Seq<Op<T>>) -> Seq<T>
    decreases ops.len(),
{
    if ops.len() == 0 {
        Seq::empty()
    } else {
        match ops.last() {
            Op::Write(data) => written_by(ops.drop_last()) + data,
            Op::Consume(_) => written_by(ops.drop_last()),
        }
    }
}

/// The number of elements that `ops` consume.
pub open spec fn consumed_by<T>(ops: Seq<Op<T>>) -> nat
    decreases ops.len(),
{
    if ops.len() == 0 {
        0
    } else {
        match ops.last() {
            Op::Write(_) => consumed_by(ops.drop_last()),
            Op::Consume(n) => consumed_by(ops.drop_last()) + n,
        }
    }
}

/// A stream is a queue. After writes and consumes that each respect
/// its bounds, the stream holds what it held at first and all that was
/// written, in that order, less as many elements at the front as were
/// consumed.
pub proof fn lemma_stream_is_fifo<T>(held: Seq<T>, capacity: nat, ops: Seq<Op<T>>)
    requires
        held.len() <= capacity,
        all_respect(held, capacity, ops),
    ensures
        consumed_by(ops) <= held.len() + written_by(ops).len(),
        after_all(held, capacity, ops) == (held + written_by(ops)).skip(consumed_by(ops) as int),
        after_all(held, capacity, ops).len() <= capacity,
    decreases ops.len(),
{
    if ops.len() == 0 {
        assert((held + written_by(ops)).skip(0) =~= held);
    } else {
        let before = ops.drop_last();
        lemma_stream_is_fifo(held, capacity, before);
        let all = held + written_by(before);
        let c = consumed_by(before) as int;
        match ops.last() {
            Op::Write(data) => {
                assert(held + (written_by(before) + data) =~= all + data);
                assert((all + data).skip(c) =~= all.skip(c) + data);
            },
            Op::Consume(n) => {
                assert(all.skip(c).skip(n as int) =~= all.skip(c + n));
            },
        }
    }
}

/// After writes and consumes that each respect its bounds, a stream
/// holds as many elements as it held at first and were written, less
/// those that were consumed.
pub proof fn lemma_available_is_written_less_consumed<T>(
    held: Seq<T>,
    capacity: nat,
    ops: Seq<Op<T>>,
)
    requires
        held.len() <= capacity,
        all_respect(held, capacity, ops),
    ensures
        after_all(held, capacity, ops).len() == held.len() + written_by(ops).len() - consumed_by(
            ops,
        ),
{
    lemma_stream_is_fifo(held, capacity, ops);
}

/// The read capability of a stream: look at what is there, then discard
/// what was processed.
pub trait StreamReader<T> {
    /// The unconsumed elements, oldest first.
    spec fn pending(&self) -> Seq<T>;

    /// The capacity of the buffer read from, which reading leaves as it
    /// is.
    spec fn limit(&self) -> nat;

    /// Discards the first `n` unconsumed elements. Fails, and discards
    /// nothing, if fewer than `n` are there.
    fn consume(&mut self, n: usize) -> (r: Result<(), Error>)
        ensures
            final(self).limit() == old(self).limit(),
            n <= old(self).pending().len() ==> r == Ok::<(), Error>(())
                && final(self).pending() == old(self).pending().skip(n as int),
            n > old(self).pending().len() ==> r == Err::<(), Error>(Error::Overrun)
                && final(self).pending() == old(self).pending(),
    ;

    /// All unconsumed elements, oldest first.
    fn buffer(&self) -> (b: &[T])
        ensures
            b@ == self.pending(),
    ;

    /// The number of unconsumed elements.
    fn available(&self) -> (n: usize)
        ensures
            n == self.pending().len(),
    ;
}

/// The write capability of a stream: append while there is room.
pub trait StreamWriter<T: Copy> {
    /// The elements held, oldest first.
    spec fn written(&self) -> Seq<T>;

    /// The number of elements that can still be appended.
    spec fn room(&self) -> nat;

    /// The capacity of the buffer written to, which writing leaves as it
    /// is.
    spec fn bound(&self) -> nat;

    /// The number of elements that can still be appended.
    fn available(&self) -> (n: usize)
        ensures
            n == self.room(),
    ;

    /// Appends `data` in order. Fails, and appends nothing, if `data` is
    /// longer than the room left.
    fn write(&mut self, data: &[T]) -> (r: Result<(), Error>)
        ensures
            final(self).bound() == old(self).bound(),
            data@.len() <= old(self).room() ==> r == Ok::<(), Error>(())
                && final(self).written() == old(self).written() + data@
                && final(self).room() == old(self).room() - data@.len(),
            data@.len() > old(self).room() ==> r == Err::<(), Error>(Error::Capacity)
                && final(self).written() == old(self).written()
                && final(self).room() == old(self).room(),
    ;
}

impl<T> StreamReader<T> for Stream<T> {
    open spec fn pending(&self) -> Seq<T> {
        self@
    }

    open spec fn limit(&self) -> nat {
        self.capacity()
    }

    fn consume(&mut self, n: usize) -> (r: Result<(), Error>)
        ensures
            final(self)@ == after_consume(old(self)@, n as nat),
    {
        proof {
            use_type_invariant(&*self);
        }
        if n > self.data.len() {
            return Err(Error::Overrun);
        }
        let mut held: Vec<T> = Vec::new();
        std::mem::swap(&mut self.data, &mut held);
        let rest = held.split_off(n);
        self.data = rest;
        proof {
            assert(self.data@ =~= old(self).data@.skip(n as int));
        }
        Ok(())
    }

    fn buffer(&self) -> (b: &[T]) {
        self.data.as_slice()
    }

    fn available(&self) -> (n: usize) {
        self.data.len()
    }
}

impl<T: Copy> StreamWriter<T> for Stream<T> {
    open spec fn written(&self) -> Seq<T> {
        self@
    }

    open spec fn room(&self) -> nat {
        (self.capacity() - self@.len()) as nat
    }

    open spec fn bound(&self) -> nat {
        self.capacity()
    }

    fn available(&self) -> (n: usize) {
        proof {
            use_type_invariant(self);
        }
        self.max_samples - self.data.len()
    }

    fn write(&mut self, data: &[T]) -> (r: Result<(), Error>)
        ensures
            final(self)@ == after_write(old(self)@, old(self).capacity(), data@),
    {
        proof {
            use_type_invariant(&*self);
        }
        if data.len() > self.max_samples - self.data.len() {
            return Err(Error::Capacity);
        }
        let mut held: Vec<T> = Vec::new();
        std::mem::swap(&mut self.data, &mut held);
        let mut i: usize = 0;
        while i < data.len()
            invariant
                i <= data@.len(),
                held@ == old(self).data@ + data@.take(i as int),
            decreases data@.len() - i,
        {
            held.push(data[i]);
            i = i + 1;
            proof {
                assert(held@ =~= old(self).data@ + data@.take(i as int));
            }
        }
        proof {
            assert(data@.take(i as int) =~= data@);
        }
        self.data = held;
        Ok(())
    }
}

} // verus!
