//! Frequency-domain filtering by overlap-add.
//!
//! A filter convolves a stream of samples with a kernel (the taps). It
//! cuts the input into chunks of a fixed size, transforms each chunk,
//! multiplies it with the transformed taps, transforms it back, and adds
//! the part that overlaps into the next chunk (the tail) to that chunk's
//! result.
//!
//! The filter itself only sizes, cuts, pads and stitches. The transforms
//! and the arithmetic on samples come from its caller, as a [`Kernel`].
use vstd::prelude::*;
use vstd::arithmetic::power2::is_pow2;
use crate::block::{map_slice, mapped, BlockRet};
use crate::{Error, Stream, StreamReader, StreamWriter};

verus! {

/// `n` is the smallest power of two that is at least `from`.
pub open spec fn is_ceil_pow2(n: nat, from: nat) -> bool {
    &&& is_pow2(n as int)
    &&& from <= n
    &&& forall|m: nat| is_pow2(m as int) && from <= m ==> n <= m
}

/// The smallest power of two that is at least `from`.
pub open spec fn ceil_pow2(from: nat) -> nat {
    choose|n: nat| is_ceil_pow2(n, from)
}

/// The transform size for a filter of `ntaps` taps: twice the smallest
/// power of two that is at least `ntaps`.
pub open spec fn spec_fft_size(ntaps: nat) -> nat {
    2 * ceil_pow2(ntaps)
}

/// Of two different powers of two, the larger is at least twice the
/// smaller.
proof fn lemma_pow2_gap(a: int, b: int)
    requires
        is_pow2(a),
        is_pow2(b),
        a < b,
    ensures
        2 * a <= b,
    decreases a,
{
    reveal(is_pow2);
    if a != 1 {
        lemma_pow2_gap(a / 2, b / 2);
    }
}

/// There is exactly one smallest power of two at least `from`: whatever
/// meets [`is_ceil_pow2`] is [`ceil_pow2`].
pub proof fn lemma_ceil_pow2_unique(n: nat, from: nat)
    requires
        is_ceil_pow2(n, from),
    ensures
        n == ceil_pow2(from),
{
    let c = ceil_pow2(from);
    assert(is_ceil_pow2(c, from));
}

/// The transform size for `from` taps, or `None` where it does not fit
/// the machine's word.
pub fn calc_fft_size(from: usize) -> (size: Option<usize>)
    ensures
        match size {
            Some(s) => s == spec_fft_size(from as nat),
            None => spec_fft_size(from as nat) > usize::MAX,
        },
{
    let mut n: usize = 1;
    proof {
        reveal(is_pow2);
        assert forall|m: nat| is_pow2(m as int) implies 1 <= m by {
            reveal(is_pow2);
        }
    }
    while n < from
        invariant
            1 <= n,
            is_pow2(n as int),
            forall|m: nat| is_pow2(m as int) && from <= m ==> n <= m,
        decreases (if n < from { from - n } else { 0 }),
    {
        proof {
            reveal(is_pow2);
        }
        match n.checked_mul(2) {
            Some(d) => {
                proof {
                    assert forall|m: nat| is_pow2(m as int) && from <= m implies d <= m by {
                        lemma_pow2_gap(n as int, m as int);
                    }
                }
                n = d;
            },
            None => {
                proof {
                    lemma_fft_size_exists(from as nat);
                    lemma_pow2_gap(n as int, ceil_pow2(from as nat) as int);
                }
                return None;
            },
        }
    }
    proof {
        lemma_ceil_pow2_unique(n as nat, from as nat);
    }
    n.checked_mul(2)
}

/// Every `from` has a smallest power of two at least as large.
pub proof fn lemma_fft_size_exists(from: nat)
    ensures
        is_ceil_pow2(ceil_pow2(from), from),
{
    assert forall|m: nat| is_pow2(m as int) implies 1 <= m by {
        reveal(is_pow2);
    }
    assert(is_pow2(1)) by {
        reveal(is_pow2);
    }
    let n = lemma_search(1, from);
    assert(is_ceil_pow2(n, from));
}

/// Doubling from a power of two `n` below every candidate reaches the
/// smallest power of two at least `from`.
proof fn lemma_search(n: nat, from: nat) -> (r: nat)
    requires
        1 <= n,
        is_pow2(n as int),
        forall|m: nat| is_pow2(m as int) && from <= m ==> n <= m,
    ensures
        is_ceil_pow2(r, from),
    decreases (if n < from { from - n } else { 0 }),
{
    reveal(is_pow2);
    if n >= from {
        n
    } else {
        assert forall|m: nat| is_pow2(m as int) && from <= m implies 2 * n <= m by {
            lemma_pow2_gap(n as int, m as int);
        }
        lemma_search(2 * n, from)
    }
}

/// The numeric operations that a filter applies to samples of type `T`:
/// the two transforms, on buffers of the transform size, and the
/// arithmetic on single samples.
pub struct Kernel<Fwd, Inv, Mul, Add, Scl> {
    /// The forward transform of a buffer.
    pub forward: Fwd,
    /// The inverse transform of a buffer, not normalised.
    pub inverse: Inv,
    /// The product of two samples.
    pub multiply: Mul,
    /// The sum of two samples.
    pub sum: Add,
    /// A sample divided by a transform size.
    pub scale: Scl,
}

/// `kernel` can be used with buffers of `n` samples: each operation may
/// be called, and the transforms give back as many samples as they got.
pub open spec fn kernel_fits<T, Fwd, Inv, Mul, Add, Scl>(
    kernel: &Kernel<Fwd, Inv, Mul, Add, Scl>,
    n: nat,
) -> bool where
    Fwd: Fn(Vec<T>) -> Vec<T>,
    Inv: Fn(Vec<T>) -> Vec<T>,
    Mul: Fn(T, T) -> T,
    Add: Fn(T, T) -> T,
    Scl: Fn(T, usize) -> T,
 {
    &&& forall|v: Vec<T>| v@.len() == n ==> #[trigger] kernel.forward.requires((v,))
    &&& forall|v: Vec<T>, r: Vec<T>|
        v@.len() == n && #[trigger] kernel.forward.ensures((v,), r) ==> r@.len() == n
    &&& forall|v: Vec<T>| v@.len() == n ==> #[trigger] kernel.inverse.requires((v,))
    &&& forall|v: Vec<T>, r: Vec<T>|
        v@.len() == n && #[trigger] kernel.inverse.ensures((v,), r) ==> r@.len() == n
    &&& forall|a: T, b: T| #[trigger] kernel.multiply.requires((a, b))
    &&& forall|a: T, b: T| #[trigger] kernel.sum.requires((a, b))
    &&& forall|a: T, m: usize| #[trigger] kernel.scale.requires((a, m))
}

/// `n` copies of `zero`.
pub open spec fn zeros<T>(zero: T, n: nat) -> Seq<T> {
    Seq::new(n, |i: int| zero)
}

/// `r` holds, place by place, a result of `f` on the samples of `a` and
/// `b`.
pub open spec fn pointwise<T, F: Fn(T, T) -> T>(f: &F, a: Seq<T>, b: Seq<T>, r: Seq<T>) -> bool {
    &&& a.len() == b.len()
    &&& r.len() == a.len()
    &&& forall|i: int| 0 <= i < r.len() ==> f.ensures((a[i], b[i]), #[trigger] r[i])
}

/// `r` holds, place by place, a result of `f` on the sample of `a` and
/// the size `n`.
pub open spec fn scaled<T, F: Fn(T, usize) -> T>(f: &F, a: Seq<T>, n: usize, r: Seq<T>) -> bool {
    &&& r.len() == a.len()
    &&& forall|i: int| 0 <= i < r.len() ==> f.ensures((a[i], n), #[trigger] r[i])
}

/// `out` is `filtered` cut to `n` samples, with `tail` added to its
/// first samples by `f`.
pub open spec fn overlapped<T, F: Fn(T, T) -> T>(
    f: &F,
    filtered: Seq<T>,
    tail: Seq<T>,
    n: nat,
    out: Seq<T>,
) -> bool {
    &&& tail.len() <= n <= filtered.len()
    &&& out.len() == n
    &&& forall|i: int|
        0 <= i < n ==> if i < tail.len() {
            f.ensures((filtered[i], tail[i]), #[trigger] out[i])
        } else {
            out[i] == filtered[i]
        }
}

/// A working buffer of `size` samples: the first `count` samples of
/// `src`, then zeros.
pub fn pad<T: Copy>(src: &[T], count: usize, zero: T, size: usize) -> (buf: Vec<T>)
    requires
        count <= src@.len(),
        count <= size,
    ensures
        buf@ == src@.take(count as int) + zeros(zero, (size - count) as nat),
{
    let mut buf: Vec<T> = Vec::new();
    let mut i: usize = 0;
    while i < count
        invariant
            i <= count <= src@.len(),
            buf@ == src@.take(i as int),
        decreases count - i,
    {
        buf.push(src[i]);
        i = i + 1;
        proof {
            assert(buf@ =~= src@.take(i as int));
        }
    }
    while i < size
        invariant
            count <= i <= size,
            buf@ == src@.take(count as int) + zeros(zero, (i - count) as nat),
        decreases size - i,
    {
        buf.push(zero);
        i = i + 1;
        proof {
            assert(buf@ =~= src@.take(count as int) + zeros(zero, (i - count) as nat));
        }
    }
    buf
}

/// The place-by-place product of two buffers of one length.
pub fn multiply_pointwise<T: Copy, Mul: Fn(T, T) -> T>(
    multiply: &Mul,
    a: &Vec<T>,
    b: &Vec<T>,
) -> (r: Vec<T>)
    requires
        a@.len() == b@.len(),
        forall|x: T, y: T| #[trigger] multiply.requires((x, y)),
    ensures
        pointwise(multiply, a@, b@, r@),
{
    let mut r: Vec<T> = Vec::new();
    let mut i: usize = 0;
    while i < a.len()
        invariant
            i <= a@.len(),
            a@.len() == b@.len(),
            r@.len() == i,
            forall|x: T, y: T| #[trigger] multiply.requires((x, y)),
            forall|j: int| 0 <= j < i ==> multiply.ensures((a@[j], b@[j]), #[trigger] r@[j]),
        decreases a@.len() - i,
    {
        let p = multiply(a[i], b[i]);
        r.push(p);
        i = i + 1;
    }
    r
}

/// Each sample of a buffer divided by `n`.
pub fn scale_all<T: Copy, Scl: Fn(T, usize) -> T>(scale: &Scl, a: &Vec<T>, n: usize) -> (r: Vec<T>)
    requires
        forall|x: T, m: usize| #[trigger] scale.requires((x, m)),
    ensures
        scaled(scale, a@, n, r@),
{
    let mut r: Vec<T> = Vec::new();
    let mut i: usize = 0;
    while i < a.len()
        invariant
            i <= a@.len(),
            r@.len() == i,
            forall|x: T, m: usize| #[trigger] scale.requires((x, m)),
            forall|j: int| 0 <= j < i ==> scale.ensures((a@[j], n), #[trigger] r@[j]),
        decreases a@.len() - i,
    {
        let p = scale(a[i], n);
        r.push(p);
        i = i + 1;
    }
    r
}

/// The first `n` samples of `filtered`, with `tail` added to the first
/// of them: what one round emits.
pub fn overlap_add<T: Copy, Add: Fn(T, T) -> T>(
    sum: &Add,
    filtered: &Vec<T>,
    tail: &Vec<T>,
    n: usize,
) -> (out: Vec<T>)
    requires
        tail@.len() <= n <= filtered@.len(),
        forall|x: T, y: T| #[trigger] sum.requires((x, y)),
    ensures
        overlapped(sum, filtered@, tail@, n as nat, out@),
{
    let mut out: Vec<T> = Vec::new();
    let mut i: usize = 0;
    while i < n
        invariant
            i <= n,
            tail@.len() <= n <= filtered@.len(),
            out@.len() == i,
            forall|x: T, y: T| #[trigger] sum.requires((x, y)),
            forall|j: int|
                0 <= j < i ==> if j < tail@.len() {
                    sum.ensures((filtered@[j], tail@[j]), #[trigger] out@[j])
                } else {
                    out@[j] == filtered@[j]
                },
        decreases n - i,
    {
        if i < tail.len() {
            let s = sum(filtered[i], tail[i]);
            out.push(s);
        } else {
            out.push(filtered[i]);
        }
        i = i + 1;
    }
    out
}

/// The samples of `filtered` from place `n` on: what one round leaves
/// for the next.
pub fn stash_tail<T: Copy>(filtered: &Vec<T>, n: usize) -> (tail: Vec<T>)
    requires
        n <= filtered@.len(),
    ensures
        tail@ == filtered@.skip(n as int),
{
    let mut tail: Vec<T> = Vec::new();
    let mut i: usize = n;
    while i < filtered.len()
        invariant
            n <= i <= filtered@.len(),
            tail@ == filtered@.subrange(n as int, i as int),
        decreases filtered@.len() - i,
    {
        tail.push(filtered[i]);
        i = i + 1;
        proof {
            assert(tail@ =~= filtered@.subrange(n as int, i as int));
        }
    }
    proof {
        assert(tail@ =~= filtered@.skip(n as int));
    }
    tail
}

/// The number of new samples that a filter of `ntaps` taps takes in one
/// round: the transform size less the taps.
pub open spec fn chunk_size(ntaps: nat) -> nat {
    (spec_fft_size(ntaps) - ntaps) as nat
}

/// A round takes at least as many samples as the filter has taps, so the
/// tail of one round ends within what the next round emits.
pub proof fn lemma_chunk_holds_tail(ntaps: nat)
    ensures
        ntaps <= chunk_size(ntaps),
        ntaps <= spec_fft_size(ntaps),
        1 <= chunk_size(ntaps),
{
    lemma_fft_size_exists(ntaps);
    assert(1 <= ceil_pow2(ntaps)) by {
        reveal(is_pow2);
    }
}

/// The steps of one round, with every value between them named:
/// `padded` is the chunk with zeros behind it, `spectrum` its transform,
/// `product` the spectrum times the taps, `filtered` the product
/// transformed back; `out` and `next_tail` are cut from `filtered`.
pub open spec fn round_steps<T, Fwd, Inv, Mul, Add, Scl>(
    kernel: &Kernel<Fwd, Inv, Mul, Add, Scl>,
    taps_fft: Seq<T>,
    zero: T,
    chunk: Seq<T>,
    tail: Seq<T>,
    out: Seq<T>,
    next_tail: Seq<T>,
    padded: Vec<T>,
    spectrum: Vec<T>,
    product: Vec<T>,
    filtered: Vec<T>,
) -> bool where
    Fwd: Fn(Vec<T>) -> Vec<T>,
    Inv: Fn(Vec<T>) -> Vec<T>,
    Mul: Fn(T, T) -> T,
    Add: Fn(T, T) -> T,
    Scl: Fn(T, usize) -> T,
 {
    &&& padded@ == chunk + zeros(zero, tail.len())
    &&& kernel.forward.ensures((padded,), spectrum)
    &&& pointwise(&kernel.multiply, spectrum@, taps_fft, product@)
    &&& kernel.inverse.ensures((product,), filtered)
    &&& overlapped(&kernel.sum, filtered@, tail, chunk.len(), out)
    &&& next_tail == filtered@.skip(chunk.len() as int)
}

/// One round of the filter on `chunk`, with `tail` carried in, may emit
/// `out` and carry `next_tail` out.
pub open spec fn round_of<T, Fwd, Inv, Mul, Add, Scl>(
    kernel: &Kernel<Fwd, Inv, Mul, Add, Scl>,
    taps_fft: Seq<T>,
    zero: T,
    chunk: Seq<T>,
    tail: Seq<T>,
    out: Seq<T>,
    next_tail: Seq<T>,
) -> bool where
    Fwd: Fn(Vec<T>) -> Vec<T>,
    Inv: Fn(Vec<T>) -> Vec<T>,
    Mul: Fn(T, T) -> T,
    Add: Fn(T, T) -> T,
    Scl: Fn(T, usize) -> T,
 {
    exists|padded: Vec<T>, spectrum: Vec<T>, product: Vec<T>, filtered: Vec<T>| #[trigger]
        round_steps(
            kernel,
            taps_fft,
            zero,
            chunk,
            tail,
            out,
            next_tail,
            padded,
            spectrum,
            product,
            filtered,
        )
}

/// `rounds` rounds in a row on the first samples of `input`, `n` samples
/// each, starting with `tail` carried in, may emit `output` and carry
/// `last_tail` out.
pub open spec fn run_of<T, Fwd, Inv, Mul, Add, Scl>(
    kernel: &Kernel<Fwd, Inv, Mul, Add, Scl>,
    taps_fft: Seq<T>,
    zero: T,
    n: nat,
    input: Seq<T>,
    tail: Seq<T>,
    rounds: nat,
    output: Seq<T>,
    last_tail: Seq<T>,
) -> bool where
    Fwd: Fn(Vec<T>) -> Vec<T>,
    Inv: Fn(Vec<T>) -> Vec<T>,
    Mul: Fn(T, T) -> T,
    Add: Fn(T, T) -> T,
    Scl: Fn(T, usize) -> T,

    decreases rounds,
{
    if rounds == 0 {
        output == Seq::<T>::empty() && last_tail == tail
    } else {
        let done = output.len() - n;
        &&& n <= output.len() <= input.len()
        &&& exists|mid_tail: Seq<T>|
            {
                &&& run_of(
                    kernel,
                    taps_fft,
                    zero,
                    n,
                    input,
                    tail,
                    (rounds - 1) as nat,
                    output.take(done),
                    mid_tail,
                )
                &&& #[trigger] round_of(
                    kernel,
                    taps_fft,
                    zero,
                    input.subrange(done, done + n),
                    mid_tail,
                    output.skip(done),
                    last_tail,
                )
            }
    }
}

/// The taps as a filter holds them: zero-padded to the transform size,
/// transformed, and each sample divided by the transform size.
pub open spec fn taps_transformed<T, Fwd, Inv, Mul, Add, Scl>(
    kernel: &Kernel<Fwd, Inv, Mul, Add, Scl>,
    taps: Seq<T>,
    zero: T,
    taps_fft: Seq<T>,
) -> bool where
    Fwd: Fn(Vec<T>) -> Vec<T>,
    Inv: Fn(Vec<T>) -> Vec<T>,
    Mul: Fn(T, T) -> T,
    Add: Fn(T, T) -> T,
    Scl: Fn(T, usize) -> T,
 {
    exists|padded: Vec<T>, spectrum: Vec<T>|
        {
            &&& padded@ == taps + zeros(zero, chunk_size(taps.len()))
            &&& #[trigger] kernel.forward.ensures((padded,), spectrum)
            &&& scaled(&kernel.scale, spectrum@, spec_fft_size(taps.len()) as usize, taps_fft)
        }
}

/// The number of rounds that a call of `work` completes: as many as the
/// input holds whole chunks of `n` samples, or as the output has room
/// for, whichever is less.
pub open spec fn rounds_of(n: nat, pending: nat, room: nat) -> nat {
    let want = pending / n;
    let can = room / n;
    if want <= can {
        want
    } else {
        can
    }
}

/// What a call of `work` returns: a capacity error where the input holds
/// more whole chunks than the output has room for; else whether a round
/// was completed.
pub open spec fn work_result(n: nat, pending: nat, room: nat) -> Result<BlockRet, Error> {
    if pending / n > room / n {
        Err(Error::Capacity)
    } else if pending / n == 0 {
        Ok(BlockRet::Noop)
    } else {
        Ok(BlockRet::Progress)
    }
}

/// After `k` rounds of `n` samples, with both streams having had room
/// for them: where either stream cannot take one more round, `k` is the
/// number of rounds that the call completes.
proof fn lemma_rounds(n: nat, pending: nat, room: nat, k: nat)
    requires
        1 <= n,
        k * n <= pending,
        k * n <= room,
    ensures
        k <= pending / n,
        k <= room / n,
        pending - k * n < n ==> pending / n == k,
        room - k * n < n ==> room / n == k,
        pending - k * n >= n ==> pending / n > k,
{
    lemma_quotient(n, pending, k);
    lemma_quotient(n, room, k);
}

/// Where `k * n <= x`, `k` is at most the quotient of `x` by `n`, and it
/// is the quotient where `x` is less than `(k + 1) * n`.
proof fn lemma_quotient(n: nat, x: nat, k: nat)
    requires
        1 <= n,
        k * n <= x,
    ensures
        k <= x / n,
        x - k * n < n ==> x / n == k,
        x - k * n >= n ==> x / n > k,
{
    vstd::arithmetic::div_mod::lemma_fundamental_div_mod(x as int, n as int);
    vstd::arithmetic::div_mod::lemma_mod_bound(x as int, n as int);
    let q = (x / n) as int;
    let r = (x % n) as int;
    assert(x == n * q + r);
    assert(0 <= r < n);
    if k > q {
        assert(k * n >= (q + 1) * n) by (nonlinear_arith)
            requires
                k >= q + 1,
                n >= 1,
        ;
        assert((q + 1) * n == n * q + n) by (nonlinear_arith);
    }
    if x - k * n < n && q > k {
        assert(q * n >= (k + 1) * n) by (nonlinear_arith)
            requires
                q >= k + 1,
                n >= 1,
        ;
        assert((k + 1) * n == k * n + n) by (nonlinear_arith);
        assert(n * q == q * n) by (nonlinear_arith);
    }
    if x - k * n >= n && q <= k {
        assert(q * n <= k * n) by (nonlinear_arith)
            requires
                q <= k,
                n >= 1,
        ;
        assert(n * q == q * n) by (nonlinear_arith);
    }
}

/// One more round after `k` rounds makes `k + 1` rounds.
pub proof fn lemma_run_step<T, Fwd, Inv, Mul, Add, Scl>(
    kernel: &Kernel<Fwd, Inv, Mul, Add, Scl>,
    taps_fft: Seq<T>,
    zero: T,
    n: nat,
    input: Seq<T>,
    tail: Seq<T>,
    k: nat,
    produced: Seq<T>,
    mid_tail: Seq<T>,
    out: Seq<T>,
    next_tail: Seq<T>,
) where
    Fwd: Fn(Vec<T>) -> Vec<T>,
    Inv: Fn(Vec<T>) -> Vec<T>,
    Mul: Fn(T, T) -> T,
    Add: Fn(T, T) -> T,
    Scl: Fn(T, usize) -> T,

    requires
        run_of(kernel, taps_fft, zero, n, input, tail, k, produced, mid_tail),
        out.len() == n,
        produced.len() + n <= input.len(),
        round_of(
            kernel,
            taps_fft,
            zero,
            input.subrange(produced.len() as int, (produced.len() + n) as int),
            mid_tail,
            out,
            next_tail,
        ),
    ensures
        run_of(kernel, taps_fft, zero, n, input, tail, k + 1, produced + out, next_tail),
{
    let grown = produced + out;
    let done = grown.len() - n;
    assert(grown.take(done) =~= produced);
    assert(grown.skip(done) =~= out);
    assert(run_of(
        kernel,
        taps_fft,
        zero,
        n,
        input,
        tail,
        ((k + 1) - 1) as nat,
        grown.take(done),
        mid_tail,
    ));
    assert(round_of(
        kernel,
        taps_fft,
        zero,
        input.subrange(done, done + n),
        mid_tail,
        grown.skip(done),
        next_tail,
    ));
}

/// No round emits nothing and carries the tail on as it was.
pub proof fn lemma_run_none<T, Fwd, Inv, Mul, Add, Scl>(
    kernel: &Kernel<Fwd, Inv, Mul, Add, Scl>,
    taps_fft: Seq<T>,
    zero: T,
    n: nat,
    input: Seq<T>,
    tail: Seq<T>,
    output: Seq<T>,
    last_tail: Seq<T>,
) where
    Fwd: Fn(Vec<T>) -> Vec<T>,
    Inv: Fn(Vec<T>) -> Vec<T>,
    Mul: Fn(T, T) -> T,
    Add: Fn(T, T) -> T,
    Scl: Fn(T, usize) -> T,

    ensures
        run_of(kernel, taps_fft, zero, n, input, tail, 0, output, last_tail) <==> output
            == Seq::<T>::empty() && last_tail == tail,
{
}

/// The last of one or more rounds works on the chunk of the input at
/// the place of the last `n` samples of the output, and emits those
/// samples; the rounds before it emit the samples before them.
pub proof fn lemma_run_last<T, Fwd, Inv, Mul, Add, Scl>(
    kernel: &Kernel<Fwd, Inv, Mul, Add, Scl>,
    taps_fft: Seq<T>,
    zero: T,
    n: nat,
    input: Seq<T>,
    tail: Seq<T>,
    rounds: nat,
    output: Seq<T>,
    last_tail: Seq<T>,
) -> (mid_tail: Seq<T>) where
    Fwd: Fn(Vec<T>) -> Vec<T>,
    Inv: Fn(Vec<T>) -> Vec<T>,
    Mul: Fn(T, T) -> T,
    Add: Fn(T, T) -> T,
    Scl: Fn(T, usize) -> T,

    requires
        rounds > 0,
        run_of(kernel, taps_fft, zero, n, input, tail, rounds, output, last_tail),
    ensures
        n <= output.len() <= input.len(),
        run_of(
            kernel,
            taps_fft,
            zero,
            n,
            input,
            tail,
            (rounds - 1) as nat,
            output.take(output.len() - n),
            mid_tail,
        ),
        round_of(
            kernel,
            taps_fft,
            zero,
            input.subrange(output.len() - n, output.len() as int),
            mid_tail,
            output.skip(output.len() - n),
            last_tail,
        ),
{
    let done = output.len() - n;
    let mid_tail = choose|mid_tail: Seq<T>|
        {
            &&& run_of(
                kernel,
                taps_fft,
                zero,
                n,
                input,
                tail,
                (rounds - 1) as nat,
                output.take(done),
                mid_tail,
            )
            &&& #[trigger] round_of(
                kernel,
                taps_fft,
                zero,
                input.subrange(done, done + n),
                mid_tail,
                output.skip(done),
                last_tail,
            )
        };
    mid_tail
}

/// Every round emits `n` samples.
pub proof fn lemma_run_len<T, Fwd, Inv, Mul, Add, Scl>(
    kernel: &Kernel<Fwd, Inv, Mul, Add, Scl>,
    taps_fft: Seq<T>,
    zero: T,
    n: nat,
    input: Seq<T>,
    tail: Seq<T>,
    rounds: nat,
    output: Seq<T>,
    last_tail: Seq<T>,
) where
    Fwd: Fn(Vec<T>) -> Vec<T>,
    Inv: Fn(Vec<T>) -> Vec<T>,
    Mul: Fn(T, T) -> T,
    Add: Fn(T, T) -> T,
    Scl: Fn(T, usize) -> T,

    requires
        run_of(kernel, taps_fft, zero, n, input, tail, rounds, output, last_tail),
    ensures
        output.len() == rounds * n,
    decreases rounds,
{
    if rounds > 0 {
        let mid = lemma_run_last(
            kernel,
            taps_fft,
            zero,
            n,
            input,
            tail,
            rounds,
            output,
            last_tail,
        );
        lemma_run_len(
            kernel,
            taps_fft,
            zero,
            n,
            input,
            tail,
            (rounds - 1) as nat,
            output.take(output.len() - n),
            mid,
        );
        assert(rounds * n == (rounds - 1) * n + n) by (nonlinear_arith);
    } else {
        assert(rounds * n == 0) by (nonlinear_arith)
            requires
                rounds == 0,
        ;
    }
}

/// Rounds read only as much of the input as they emit: any input that
/// starts with the same samples gives the same rounds.
pub proof fn lemma_run_reads_prefix<T, Fwd, Inv, Mul, Add, Scl>(
    kernel: &Kernel<Fwd, Inv, Mul, Add, Scl>,
    taps_fft: Seq<T>,
    zero: T,
    n: nat,
    input: Seq<T>,
    other: Seq<T>,
    tail: Seq<T>,
    rounds: nat,
    output: Seq<T>,
    last_tail: Seq<T>,
) where
    Fwd: Fn(Vec<T>) -> Vec<T>,
    Inv: Fn(Vec<T>) -> Vec<T>,
    Mul: Fn(T, T) -> T,
    Add: Fn(T, T) -> T,
    Scl: Fn(T, usize) -> T,

    requires
        run_of(kernel, taps_fft, zero, n, input, tail, rounds, output, last_tail),
        output.len() <= other.len(),
        other.take(output.len() as int) == input.take(output.len() as int),
    ensures
        run_of(kernel, taps_fft, zero, n, other, tail, rounds, output, last_tail),
    decreases rounds,
{
    if rounds > 0 {
        let mid = lemma_run_last(
            kernel,
            taps_fft,
            zero,
            n,
            input,
            tail,
            rounds,
            output,
            last_tail,
        );
        let done = output.len() - n;
        let produced = output.take(done);
        let emitted = output.skip(done);
        assert(other.take(done) =~= other.take(output.len() as int).take(done));
        assert(input.take(done) =~= input.take(output.len() as int).take(done));
        lemma_run_reads_prefix(
            kernel,
            taps_fft,
            zero,
            n,
            input,
            other,
            tail,
            (rounds - 1) as nat,
            produced,
            mid,
        );
        assert(other.subrange(done, done + n) =~= other.take(output.len() as int).subrange(
            done,
            done + n,
        ));
        assert(input.subrange(done, done + n) =~= input.take(output.len() as int).subrange(
            done,
            done + n,
        ));
        lemma_run_step(
            kernel,
            taps_fft,
            zero,
            n,
            other,
            tail,
            (rounds - 1) as nat,
            produced,
            mid,
            emitted,
            last_tail,
        );
        assert(produced + emitted =~= output);
    }
}

/// A filter takes up its work where it left it. Rounds on one input,
/// and then rounds on a second input with the tail that the first
/// rounds carried out, are rounds on what the first rounds read followed
/// by the second input; they emit what the first rounds emitted and then
/// what the second emitted.
pub proof fn lemma_run_resumes<T, Fwd, Inv, Mul, Add, Scl>(
    kernel: &Kernel<Fwd, Inv, Mul, Add, Scl>,
    taps_fft: Seq<T>,
    zero: T,
    n: nat,
    first: Seq<T>,
    second: Seq<T>,
    tail: Seq<T>,
    rounds1: nat,
    output1: Seq<T>,
    mid_tail: Seq<T>,
    rounds2: nat,
    output2: Seq<T>,
    last_tail: Seq<T>,
) where
    Fwd: Fn(Vec<T>) -> Vec<T>,
    Inv: Fn(Vec<T>) -> Vec<T>,
    Mul: Fn(T, T) -> T,
    Add: Fn(T, T) -> T,
    Scl: Fn(T, usize) -> T,

    requires
        run_of(kernel, taps_fft, zero, n, first, tail, rounds1, output1, mid_tail),
        run_of(kernel, taps_fft, zero, n, second, mid_tail, rounds2, output2, last_tail),
    ensures
        output1.len() <= first.len(),
        run_of(
            kernel,
            taps_fft,
            zero,
            n,
            first.take(output1.len() as int) + second,
            tail,
            rounds1 + rounds2,
            output1 + output2,
            last_tail,
        ),
    decreases rounds2,
{
    if rounds1 > 0 {
        let m = lemma_run_last(
            kernel,
            taps_fft,
            zero,
            n,
            first,
            tail,
            rounds1,
            output1,
            mid_tail,
        );
    }
    let read = first.take(output1.len() as int);
    let joined = read + second;
    if rounds2 == 0 {
        assert(output1 + output2 =~= output1);
        assert(joined.take(output1.len() as int) =~= read);
        assert(read.take(output1.len() as int) =~= read);
        lemma_run_reads_prefix(
            kernel,
            taps_fft,
            zero,
            n,
            first,
            joined,
            tail,
            rounds1,
            output1,
            mid_tail,
        );
    } else {
        let m = lemma_run_last(
            kernel,
            taps_fft,
            zero,
            n,
            second,
            mid_tail,
            rounds2,
            output2,
            last_tail,
        );
        let done = output2.len() - n;
        let produced = output2.take(done);
        let emitted = output2.skip(done);
        lemma_run_resumes(
            kernel,
            taps_fft,
            zero,
            n,
            first,
            second,
            tail,
            rounds1,
            output1,
            mid_tail,
            (rounds2 - 1) as nat,
            produced,
            m,
        );
        let so_far = output1 + produced;
        assert(joined.subrange(so_far.len() as int, (so_far.len() + n) as int) =~= second.subrange(
            done,
            done + n,
        ));
        lemma_run_step(
            kernel,
            taps_fft,
            zero,
            n,
            joined,
            tail,
            (rounds1 + rounds2 - 1) as nat,
            so_far,
            m,
            emitted,
            last_tail,
        );
        assert(so_far + emitted =~= output1 + output2);
    }
}

/// A filter that convolves a stream with its taps, chunk by chunk, and
/// carries the overlap from one chunk to the next.
pub struct FftFilter<T> {
    taps_fft: Vec<T>,
    nsamples: usize,
    fft_size: usize,
    tail: Vec<T>,
    zero: T,
}

impl<T> FftFilter<T> {
    #[verifier::type_invariant]
    spec fn sized(&self) -> bool {
        &&& 1 <= self.tail@.len()
        &&& self.fft_size == spec_fft_size(self.tail@.len())
        &&& self.nsamples == chunk_size(self.tail@.len())
        &&& self.taps_fft@.len() == self.fft_size
    }
}

impl<T: Copy> FftFilter<T> {
    /// The number of taps.
    pub closed spec fn ntaps(&self) -> nat {
        self.tail@.len()
    }

    /// The overlap carried into the next round.
    pub closed spec fn tail(&self) -> Seq<T> {
        self.tail@
    }

    /// The taps, transformed and scaled.
    pub closed spec fn taps_fft(&self) -> Seq<T> {
        self.taps_fft@
    }

    /// The sample that pads a chunk to the transform size.
    pub closed spec fn zero(&self) -> T {
        self.zero
    }

    /// A filter for `taps`, with an all-zero tail.
    ///
    /// Fails where there are no taps, and where the transform size does
    /// not fit the machine's word.
    pub fn new<Fwd, Inv, Mul, Add, Scl>(
        taps: &[T],
        zero: T,
        kernel: &Kernel<Fwd, Inv, Mul, Add, Scl>,
    ) -> (made: Result<Self, Error>) where
        Fwd: Fn(Vec<T>) -> Vec<T>,
        Inv: Fn(Vec<T>) -> Vec<T>,
        Mul: Fn(T, T) -> T,
        Add: Fn(T, T) -> T,
        Scl: Fn(T, usize) -> T,

        requires
            kernel_fits(kernel, spec_fft_size(taps@.len())),
        ensures
            match made {
                Ok(f) => {
                    &&& 1 <= taps@.len()
                    &&& spec_fft_size(taps@.len()) <= usize::MAX
                    &&& f.ntaps() == taps@.len()
                    &&& f.zero() == zero
                    &&& f.tail() == zeros(zero, taps@.len())
                    &&& taps_transformed(kernel, taps@, zero, f.taps_fft())
                },
                Err(e) => {
                    &&& e == Error::Configuration
                    &&& taps@.len() == 0 || spec_fft_size(taps@.len()) > usize::MAX
                },
            },
    {
        if taps.len() == 0 {
            return Err(Error::Configuration);
        }
        let fft_size = match calc_fft_size(taps.len()) {
            Some(s) => s,
            None => {
                return Err(Error::Configuration);
            },
        };
        proof {
            lemma_chunk_holds_tail(taps@.len());
        }
        let nsamples = fft_size - taps.len();
        let padded = pad(taps, taps.len(), zero, fft_size);
        proof {
            assert(taps@.take(taps@.len() as int) =~= taps@);
        }
        let spectrum = (kernel.forward)(padded);
        let taps_fft = scale_all(&kernel.scale, &spectrum, fft_size);
        let tail = pad(taps, 0, zero, taps.len());
        proof {
            assert(tail@ =~= zeros(zero, taps@.len()));
        }
        Ok(Self { taps_fft, nsamples, fft_size, tail, zero })
    }

    /// Filters what the input holds, one round after the other, for as
    /// long as the input holds a whole chunk.
    ///
    /// Each round reads one chunk, writes as many filtered samples, and
    /// only then consumes the chunk. Where the output has no room for a
    /// round that the input could feed, the rounds before it stand and
    /// the call fails.
    pub fn work<R, W, Fwd, Inv, Mul, Add, Scl>(
        &mut self,
        input: &mut R,
        output: &mut W,
        kernel: &Kernel<Fwd, Inv, Mul, Add, Scl>,
    ) -> (ret: Result<BlockRet, Error>) where
        R: StreamReader<T>,
        W: StreamWriter<T>,
        Fwd: Fn(Vec<T>) -> Vec<T>,
        Inv: Fn(Vec<T>) -> Vec<T>,
        Mul: Fn(T, T) -> T,
        Add: Fn(T, T) -> T,
        Scl: Fn(T, usize) -> T,

        requires
            kernel_fits(kernel, spec_fft_size(old(self).ntaps())),
        ensures
            final(self).ntaps() == old(self).ntaps(),
            final(self).zero() == old(self).zero(),
            final(self).taps_fft() == old(self).taps_fft(),
            final(input).limit() == old(input).limit(),
            final(output).bound() == old(output).bound(),
            ({
                let n = chunk_size(old(self).ntaps());
                let rounds = rounds_of(n, old(input).pending().len(), old(output).room());
                let before = old(output).written().len() as int;
                &&& final(input).pending() == old(input).pending().skip((rounds * n) as int)
                &&& final(output).room() == old(output).room() - rounds * n
                &&& final(output).written().len() == before + rounds * n
                &&& final(output).written().take(before) == old(output).written()
                &&& run_of(
                    kernel,
                    old(self).taps_fft(),
                    old(self).zero(),
                    n,
                    old(input).pending(),
                    old(self).tail(),
                    rounds as nat,
                    final(output).written().skip(before),
                    final(self).tail(),
                )
                &&& ret == work_result(n, old(input).pending().len(), old(output).room())
            }),
    {
        proof {
            use_type_invariant(&*self);
            lemma_chunk_holds_tail(self.ntaps());
        }
        let n = self.nsamples;
        let ghost tail0 = self.tail@;
        let ghost in0 = input.pending();
        let ghost out0 = output.written();
        let ghost room0 = output.room();
        let ghost mut k: nat = 0;
        let ghost mut produced: Seq<T> = Seq::empty();
        proof {
            assert(in0.skip(0) =~= in0);
            assert(out0 + produced =~= out0);
        }
        let mut ret: Result<BlockRet, Error> = Ok(BlockRet::Noop);
        loop
            invariant_except_break
                ret == (if k == 0 {
                    Ok::<BlockRet, Error>(BlockRet::Noop)
                } else {
                    Ok::<BlockRet, Error>(BlockRet::Progress)
                }),
            invariant
                1 <= self.tail@.len() <= n,
                n == chunk_size(self.tail@.len()),
                self.fft_size == n + self.tail@.len(),
                self.tail@.len() == tail0.len(),
                self.fft_size == spec_fft_size(self.tail@.len()),
                self.nsamples == n,
                self.taps_fft@.len() == self.fft_size,
                self.taps_fft@ == old(self).taps_fft@,
                self.zero == old(self).zero,
                input.limit() == old(input).limit(),
                output.bound() == old(output).bound(),
                kernel_fits(kernel, spec_fft_size(tail0.len())),
                input.pending() == in0.skip((k * n) as int),
                k * n <= in0.len(),
                k * n <= room0,
                output.written() == out0 + produced,
                produced.len() == k * n,
                output.room() == room0 - k * n,
                run_of(
                    kernel,
                    self.taps_fft@,
                    self.zero,
                    n as nat,
                    in0,
                    tail0,
                    k,
                    produced,
                    self.tail@,
                ),
            ensures
                self.tail@.len() == tail0.len(),
                self.fft_size == spec_fft_size(self.tail@.len()),
                self.nsamples == n,
                self.taps_fft@.len() == self.fft_size,
                self.taps_fft@ == old(self).taps_fft@,
                self.zero == old(self).zero,
                input.limit() == old(input).limit(),
                output.bound() == old(output).bound(),
                k == rounds_of(n as nat, in0.len(), room0),
                input.pending() == in0.skip((k * n) as int),
                output.written() == out0 + produced,
                produced.len() == k * n,
                output.room() == room0 - k * n,
                run_of(
                    kernel,
                    self.taps_fft@,
                    self.zero,
                    n as nat,
                    in0,
                    tail0,
                    k,
                    produced,
                    self.tail@,
                ),
                ret == work_result(n as nat, in0.len(), room0),
            decreases in0.len() - k * n,
        {
            if input.available() < n {
                proof {
                    lemma_rounds(n as nat, in0.len(), room0, k);
                }
                break ;
            }
            if output.available() < n {
                proof {
                    lemma_rounds(n as nat, in0.len(), room0, k);
                }
                ret = Err(Error::Capacity);
                break ;
            }
            let buf = pad(input.buffer(), n, self.zero, self.fft_size);
            let ghost padded = buf;
            let spectrum = (kernel.forward)(buf);
            let product = multiply_pointwise(&kernel.multiply, &spectrum, &self.taps_fft);
            let ghost product0 = product;
            let filtered = (kernel.inverse)(product);
            let out = overlap_add(&kernel.sum, &filtered, &self.tail, n);
            let next = stash_tail(&filtered, n);
            let wrote = output.write(out.as_slice());
            let ate = input.consume(n);
            proof {
                let chunk = in0.subrange(produced.len() as int, (produced.len() + n) as int);
                assert(in0.skip((k * n) as int).take(n as int) =~= chunk);
                assert(round_steps(
                    kernel,
                    self.taps_fft@,
                    self.zero,
                    chunk,
                    self.tail@,
                    out@,
                    next@,
                    padded,
                    spectrum,
                    product0,
                    filtered,
                ));
                let grown = produced + out@;
                lemma_run_step(
                    kernel,
                    self.taps_fft@,
                    self.zero,
                    n as nat,
                    in0,
                    tail0,
                    k,
                    produced,
                    self.tail@,
                    out@,
                    next@,
                );
                assert(in0.skip((k * n) as int).skip(n as int) =~= in0.skip(
                    ((k + 1) * n) as int,
                )) by {
                    assert((k + 1) * n == k * n + n) by (nonlinear_arith);
                }
                assert((k + 1) * n == k * n + n) by (nonlinear_arith);
                assert(out0 + produced + out@ =~= out0 + grown);
                produced = grown;
                k = k + 1;
            }
            self.tail = next;
            ret = Ok(BlockRet::Progress);
        }
        proof {
            assert((out0 + produced).take(out0.len() as int) =~= out0);
            assert((out0 + produced).skip(out0.len() as int) =~= produced);
        }
        ret
    }

    /// The transform size.
    pub fn fft_size(&self) -> (n: usize)
        ensures
            n == spec_fft_size(self.ntaps()),
    {
        proof {
            use_type_invariant(self);
        }
        self.fft_size
    }

    /// The number of new samples taken in one round.
    pub fn nsamples(&self) -> (n: usize)
        ensures
            n == chunk_size(self.ntaps()),
            1 <= self.ntaps() <= n,
    {
        proof {
            use_type_invariant(self);
            lemma_chunk_holds_tail(self.ntaps());
        }
        self.nsamples
    }
}

/// Rounds of a filter of wide samples on the widened form `wide_in` of
/// `input`, of which `output` is the narrowed form of what they emit,
/// `wide_out`.
pub open spec fn widened_run<R, C, Wid, Nar, Fwd, Inv, Mul, Add, Scl>(
    kernel: &Kernel<Fwd, Inv, Mul, Add, Scl>,
    widen: &Wid,
    narrow: &Nar,
    taps_fft: Seq<C>,
    zero: C,
    n: nat,
    input: Seq<R>,
    tail: Seq<C>,
    rounds: nat,
    output: Seq<R>,
    last_tail: Seq<C>,
    wide_in: Seq<C>,
    wide_out: Seq<C>,
) -> bool where
    Wid: Fn(R) -> C,
    Nar: Fn(C) -> R,
    Fwd: Fn(Vec<C>) -> Vec<C>,
    Inv: Fn(Vec<C>) -> Vec<C>,
    Mul: Fn(C, C) -> C,
    Add: Fn(C, C) -> C,
    Scl: Fn(C, usize) -> C,
 {
    &&& mapped(widen, input, wide_in)
    &&& run_of(kernel, taps_fft, zero, n, wide_in, tail, rounds, wide_out, last_tail)
    &&& mapped(narrow, wide_out, output)
}

/// A filter for samples of a narrower type `R`, such as real numbers,
/// that works by widening each sample to the type `C` of an
/// [`FftFilter`], filtering there, and narrowing what comes out.
pub struct FftFilterFloat<C> {
    complex: FftFilter<C>,
}

impl<C: Copy> FftFilterFloat<C> {
    /// The filter of wide samples that does the work.
    pub closed spec fn inner(&self) -> FftFilter<C> {
        self.complex
    }

    /// A filter for the taps `taps`, each widened by `widen`.
    ///
    /// Fails where there are no taps, and where the transform size does
    /// not fit the machine's word.
    pub fn new<R, Wid, Fwd, Inv, Mul, Add, Scl>(
        taps: &[R],
        zero: C,
        widen: &Wid,
        kernel: &Kernel<Fwd, Inv, Mul, Add, Scl>,
    ) -> (made: Result<Self, Error>) where
        R: Copy,
        Wid: Fn(R) -> C,
        Fwd: Fn(Vec<C>) -> Vec<C>,
        Inv: Fn(Vec<C>) -> Vec<C>,
        Mul: Fn(C, C) -> C,
        Add: Fn(C, C) -> C,
        Scl: Fn(C, usize) -> C,

        requires
            forall|x: R| #[trigger] widen.requires((x,)),
            kernel_fits(kernel, spec_fft_size(taps@.len())),
        ensures
            match made {
                Ok(f) => {
                    &&& 1 <= taps@.len()
                    &&& spec_fft_size(taps@.len()) <= usize::MAX
                    &&& f.inner().ntaps() == taps@.len()
                    &&& f.inner().zero() == zero
                    &&& f.inner().tail() == zeros(zero, taps@.len())
                    &&& exists|wide: Seq<C>|
                        {
                            &&& #[trigger] mapped(widen, taps@, wide)
                            &&& taps_transformed(kernel, wide, zero, f.inner().taps_fft())
                        }
                },
                Err(e) => {
                    &&& e == Error::Configuration
                    &&& taps@.len() == 0 || spec_fft_size(taps@.len()) > usize::MAX
                },
            },
    {
        let ctaps = map_slice(widen, taps);
        match FftFilter::new(ctaps.as_slice(), zero, kernel) {
            Ok(complex) => {
                proof {
                    assert(mapped(widen, taps@, ctaps@));
                }
                Ok(Self { complex })
            },
            Err(e) => Err(e),
        }
    }

    /// Filters what the input holds, as [`FftFilter::work`] does, on
    /// widened copies of the samples.
    ///
    /// As many samples are consumed from `r` as the inner filter
    /// consumed, and as many are written to `w` as it produced: each of
    /// them the narrowed form of the sample it produced at that place.
    pub fn work<R, RS, WS, Wid, Nar, Fwd, Inv, Mul, Add, Scl>(
        &mut self,
        r: &mut RS,
        w: &mut WS,
        kernel: &Kernel<Fwd, Inv, Mul, Add, Scl>,
        widen: &Wid,
        narrow: &Nar,
    ) -> (ret: Result<BlockRet, Error>) where
        R: Copy,
        RS: StreamReader<R>,
        WS: StreamWriter<R>,
        Wid: Fn(R) -> C,
        Nar: Fn(C) -> R,
        Fwd: Fn(Vec<C>) -> Vec<C>,
        Inv: Fn(Vec<C>) -> Vec<C>,
        Mul: Fn(C, C) -> C,
        Add: Fn(C, C) -> C,
        Scl: Fn(C, usize) -> C,

        requires
            forall|x: R| #[trigger] widen.requires((x,)),
            forall|x: C| #[trigger] narrow.requires((x,)),
            kernel_fits(kernel, spec_fft_size(old(self).inner().ntaps())),
        ensures
            final(self).inner().ntaps() == old(self).inner().ntaps(),
            final(self).inner().zero() == old(self).inner().zero(),
            final(self).inner().taps_fft() == old(self).inner().taps_fft(),
            final(r).limit() == old(r).limit(),
            final(w).bound() == old(w).bound(),
            ({
                let n = chunk_size(old(self).inner().ntaps());
                let rounds = rounds_of(n, old(r).pending().len(), old(w).room());
                let before = old(w).written().len() as int;
                &&& final(r).pending() == old(r).pending().skip((rounds * n) as int)
                &&& final(w).room() == old(w).room() - rounds * n
                &&& final(w).written().len() == before + rounds * n
                &&& final(w).written().take(before) == old(w).written()
                &&& exists|wide_in: Seq<C>, wide_out: Seq<C>| #[trigger]
                    widened_run(
                        kernel,
                        widen,
                        narrow,
                        old(self).inner().taps_fft(),
                        old(self).inner().zero(),
                        n,
                        old(r).pending(),
                        old(self).inner().tail(),
                        rounds as nat,
                        final(w).written().skip(before),
                        final(self).inner().tail(),
                        wide_in,
                        wide_out,
                    )
                &&& ret == work_result(n, old(r).pending().len(), old(w).room())
            }),
    {
        let input = map_slice(widen, r.buffer());
        let mut is: Stream<C> = Stream::new(input.len());
        let filled = is.write(input.as_slice());
        let mut os: Stream<C> = Stream::new(w.available());
        let ret = self.complex.work(&mut is, &mut os, kernel);
        let left = StreamReader::available(&is);
        let ate = r.consume(input.len() - left);
        let out = map_slice(narrow, StreamReader::buffer(&os));
        let wrote = w.write(out.as_slice());
        proof {
            let m = chunk_size(old(self).inner().ntaps());
            lemma_chunk_holds_tail(old(self).inner().ntaps());
            let rounds = rounds_of(m, old(r).pending().len(), old(w).room());
            let total = rounds * m;
            lemma_rounds_fit(m, old(r).pending().len(), old(w).room());
            let before = old(w).written();
            let start = before.len() as int;
            assert((before + out@).take(start) =~= before);
            assert((before + out@).skip(start) =~= out@);
            assert(os@.skip(0) =~= os@);
            assert(os@.len() == total);
            assert(input@.len() - is@.len() == total);
            assert(widened_run(
                kernel,
                widen,
                narrow,
                old(self).inner().taps_fft(),
                old(self).inner().zero(),
                m,
                old(r).pending(),
                old(self).inner().tail(),
                rounds as nat,
                w.written().skip(start),
                self.inner().tail(),
                input@,
                os@,
            ));
            assert(r.pending() == old(r).pending().skip(total as int));
            assert(w.room() == old(w).room() - total);
            assert(w.written().len() == start + total);
            assert(w.written().take(start) == old(w).written());
            assert(ret == work_result(m, old(r).pending().len(), old(w).room()));
        }
        ret
    }
}

/// The rounds that a call completes fit both streams.
pub proof fn lemma_rounds_fit(n: nat, pending: nat, room: nat)
    requires
        1 <= n,
    ensures
        rounds_of(n, pending, room) * n <= pending,
        rounds_of(n, pending, room) * n <= room,
{
    lemma_floor(n, pending);
    lemma_floor(n, room);
    let want = pending / n;
    let can = room / n;
    if want <= can {
        assert(want * n <= can * n) by (nonlinear_arith)
            requires
                want <= can,
                0 <= n,
        ;
    } else {
        assert(can * n <= want * n) by (nonlinear_arith)
            requires
                can <= want,
                0 <= n,
        ;
    }
}

/// The quotient of `x` by `n`, times `n`, is at most `x`.
proof fn lemma_floor(n: nat, x: nat)
    requires
        1 <= n,
    ensures
        (x / n) * n <= x,
{
    vstd::arithmetic::div_mod::lemma_fundamental_div_mod(x as int, n as int);
    vstd::arithmetic::div_mod::lemma_mod_bound(x as int, n as int);
    assert((x / n) * n == n * (x / n)) by (nonlinear_arith);
}

} // verus!
