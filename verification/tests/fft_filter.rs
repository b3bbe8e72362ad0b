use num::complex::Complex as C32;
use rustfft::FftPlanner;
use rustradio::block::BlockRet;
use rustradio::fft_filter::{
    calc_fft_size, multiply_pointwise, overlap_add, pad, scale_all, stash_tail, FftFilter,
    FftFilterFloat, Kernel,
};
use rustradio::{Complex, Error, Float, Stream, StreamReader, StreamWriter};

fn flt(x: f32) -> Float {
    Float::from_bits(x.to_bits())
}

fn value(x: Float) -> f32 {
    f32::from_bits(x.to_bits())
}

fn wide(z: Complex) -> C32<f32> {
    C32::new(value(z.re), value(z.im))
}

fn narrow(z: C32<f32>) -> Complex {
    Complex::new(flt(z.re), flt(z.im))
}

fn cplx(re: f32, im: f32) -> Complex {
    Complex::new(flt(re), flt(im))
}

fn transform(v: Vec<Complex>, inverse: bool) -> Vec<Complex> {
    let mut buf: Vec<C32<f32>> = v.into_iter().map(wide).collect();
    let mut planner = FftPlanner::new();
    let plan = if inverse {
        planner.plan_fft_inverse(buf.len())
    } else {
        planner.plan_fft_forward(buf.len())
    };
    plan.process(&mut buf);
    buf.into_iter().map(narrow).collect()
}

fn kernel() -> Kernel<
    impl Fn(Vec<Complex>) -> Vec<Complex>,
    impl Fn(Vec<Complex>) -> Vec<Complex>,
    impl Fn(Complex, Complex) -> Complex,
    impl Fn(Complex, Complex) -> Complex,
    impl Fn(Complex, usize) -> Complex,
> {
    Kernel {
        forward: |v: Vec<Complex>| transform(v, false),
        inverse: |v: Vec<Complex>| transform(v, true),
        multiply: |a: Complex, b: Complex| narrow(wide(a) * wide(b)),
        sum: |a: Complex, b: Complex| narrow(wide(a) + wide(b)),
        scale: |a: Complex, n: usize| narrow(wide(a) * (1.0 / n as f32)),
    }
}

fn assert_almost_equal_complex(left: &[Complex], right: &[Complex]) {
    assert_eq!(left.len(), right.len());
    for i in 0..left.len() {
        let d = (wide(left[i]) - wide(right[i])).norm_sqr().sqrt();
        assert!(d < 0.001, "at {}: {:?} != {:?}", i, wide(left[i]), wide(right[i]));
    }
}

fn assert_almost_equal_float(left: &[Float], right: &[f32]) {
    assert_eq!(left.len(), right.len());
    for i in 0..left.len() {
        let d = (value(left[i]) - right[i]).abs();
        assert!(d < 0.001, "at {}: {} != {}", i, value(left[i]), right[i]);
    }
}

fn filter_all(taps: &[Complex], input: &[Complex]) -> (Vec<Complex>, usize, BlockRet) {
    let k = kernel();
    let mut f = FftFilter::new(taps, cplx(0.0, 0.0), &k).unwrap();
    let mut src: Stream<Complex> = Stream::new(input.len());
    let mut dst: Stream<Complex> = Stream::new(input.len());
    src.write(input).unwrap();
    let ret = f.work(&mut src, &mut dst, &k).unwrap();
    (dst.buffer().to_vec(), StreamReader::available(&src), ret)
}

#[test]
fn fft_size_is_twice_the_next_power_of_two() {
    assert_eq!(calc_fft_size(0), Some(2));
    assert_eq!(calc_fft_size(1), Some(2));
    assert_eq!(calc_fft_size(2), Some(4));
    assert_eq!(calc_fft_size(3), Some(8));
    assert_eq!(calc_fft_size(4), Some(8));
    assert_eq!(calc_fft_size(5), Some(16));
    assert_eq!(calc_fft_size(28), Some(64));
    assert_eq!(calc_fft_size(1000), Some(2048));
    assert_eq!(calc_fft_size(1024), Some(2048));
    assert_eq!(calc_fft_size(1025), Some(4096));
}

#[test]
fn fft_size_that_does_not_fit_is_none() {
    assert_eq!(calc_fft_size(usize::MAX), None);
    assert_eq!(calc_fft_size(usize::MAX / 2 + 2), None);
    assert_eq!(calc_fft_size(usize::MAX / 2 + 1), None);
    assert_eq!(calc_fft_size(usize::MAX / 4 + 2), None);
    assert_eq!(calc_fft_size(usize::MAX / 4 + 1), Some(usize::MAX / 2 + 1));
}

#[test]
fn filter_sizes_follow_the_taps() {
    let k = kernel();
    let taps = vec![cplx(1.0, 0.0); 5];
    let f = FftFilter::new(&taps, cplx(0.0, 0.0), &k).unwrap();
    assert_eq!(f.fft_size(), 16);
    assert_eq!(f.nsamples(), 11);
    let one = FftFilter::new(&taps[..1], cplx(0.0, 0.0), &k).unwrap();
    assert_eq!(one.fft_size(), 2);
    assert_eq!(one.nsamples(), 1);
}

#[test]
fn filter_without_taps_is_a_configuration_error() {
    let k = kernel();
    let taps: Vec<Complex> = Vec::new();
    assert!(matches!(
        FftFilter::new(&taps, cplx(0.0, 0.0), &k),
        Err(Error::Configuration)
    ));
    let real_taps: Vec<Float> = Vec::new();
    let widen = |x: Float| Complex::new(x, flt(0.0));
    assert!(matches!(
        FftFilterFloat::new(&real_taps, cplx(0.0, 0.0), &widen, &k),
        Err(Error::Configuration)
    ));
}

#[test]
fn identity_filter_end_to_end() {
    let taps = [cplx(1.0, 0.0)];
    let input: Vec<Complex> = [1.0, 2.0, 3.0, 4.0, 5.0].iter().map(|x| cplx(*x, 0.0)).collect();
    let (out, left, ret) = filter_all(&taps, &input);
    assert_eq!(ret, BlockRet::Progress);
    assert_eq!(left, 0);
    assert_almost_equal_complex(&out, &input);
}

#[test]
fn all_pass_filter_is_the_identity() {
    let taps = [cplx(1.0, 0.0)];
    let input: Vec<Complex> = (0..64)
        .map(|i| cplx((i as f32 * 0.37).sin(), (i as f32 * 0.11).cos()))
        .collect();
    let (out, left, _) = filter_all(&taps, &input);
    assert_eq!(left, 0);
    assert_almost_equal_complex(&out, &input);
}

#[test]
fn impulse_reproduces_the_taps() {
    let taps = [cplx(0.5, 0.0), cplx(-0.25, 0.125), cplx(0.75, -1.0)];
    let fft_size = calc_fft_size(taps.len()).unwrap();
    let nsamples = fft_size - taps.len();
    let mut input = vec![cplx(0.0, 0.0); 3 * nsamples];
    input[0] = cplx(1.0, 0.0);
    let (out, left, _) = filter_all(&taps, &input);
    assert_eq!(left, 0);
    assert_eq!(out.len(), input.len());
    assert_almost_equal_complex(&out[..taps.len()], &taps);
    let rest = vec![cplx(0.0, 0.0); out.len() - taps.len()];
    assert_almost_equal_complex(&out[taps.len()..], &rest);
    assert!(wide(out[taps.len() - 1]).norm_sqr() > 0.1);
}

#[test]
fn impulse_at_the_end_of_a_chunk_spills_into_the_next() {
    let taps = [cplx(0.5, 0.0), cplx(-0.25, 0.125), cplx(0.75, -1.0)];
    let nsamples = calc_fft_size(taps.len()).unwrap() - taps.len();
    let mut input = vec![cplx(0.0, 0.0); 2 * nsamples];
    input[nsamples - 1] = cplx(1.0, 0.0);
    let (out, _, _) = filter_all(&taps, &input);
    let mut want = vec![cplx(0.0, 0.0); 2 * nsamples];
    want[nsamples - 1] = taps[0];
    want[nsamples] = taps[1];
    want[nsamples + 1] = taps[2];
    assert_almost_equal_complex(&out, &want);
}

#[test]
fn tail_is_carried_between_calls() {
    let taps = [cplx(1.0, 0.0), cplx(1.0, 0.0)];
    let k = kernel();
    let mut f = FftFilter::new(&taps, cplx(0.0, 0.0), &k).unwrap();
    let n = f.nsamples();
    assert_eq!(n, 2);
    let mut src: Stream<Complex> = Stream::new(16);
    let mut dst: Stream<Complex> = Stream::new(16);
    src.write(&[cplx(1.0, 0.0), cplx(2.0, 0.0)]).unwrap();
    assert_eq!(f.work(&mut src, &mut dst, &k), Ok(BlockRet::Progress));
    src.write(&[cplx(3.0, 0.0), cplx(4.0, 0.0)]).unwrap();
    assert_eq!(f.work(&mut src, &mut dst, &k), Ok(BlockRet::Progress));
    let want: Vec<Complex> = [1.0, 3.0, 5.0, 7.0].iter().map(|x| cplx(*x, 0.0)).collect();
    assert_almost_equal_complex(dst.buffer(), &want);
}

#[test]
fn too_little_input_is_a_noop() {
    let taps = vec![cplx(1.0, 0.0); 3];
    let k = kernel();
    let mut f = FftFilter::new(&taps, cplx(0.0, 0.0), &k).unwrap();
    assert_eq!(f.nsamples(), 5);
    let mut src: Stream<Complex> = Stream::new(16);
    let mut dst: Stream<Complex> = Stream::new(16);
    assert_eq!(f.work(&mut src, &mut dst, &k), Ok(BlockRet::Noop));
    src.write(&[cplx(1.0, 0.0); 4]).unwrap();
    assert_eq!(f.work(&mut src, &mut dst, &k), Ok(BlockRet::Noop));
    assert_eq!(StreamReader::available(&src), 4);
    assert_eq!(StreamReader::available(&dst), 0);
    src.write(&[cplx(1.0, 0.0); 3]).unwrap();
    assert_eq!(f.work(&mut src, &mut dst, &k), Ok(BlockRet::Progress));
    assert_eq!(StreamReader::available(&src), 2);
    assert_eq!(StreamReader::available(&dst), 5);
}

#[test]
fn full_output_stops_the_filter_with_a_capacity_error() {
    let taps = [cplx(1.0, 0.0)];
    let k = kernel();
    let mut f = FftFilter::new(&taps, cplx(0.0, 0.0), &k).unwrap();
    let mut src: Stream<Complex> = Stream::new(8);
    let mut dst: Stream<Complex> = Stream::new(3);
    let input: Vec<Complex> = [1.0, 2.0, 3.0, 4.0, 5.0].iter().map(|x| cplx(*x, 0.0)).collect();
    src.write(&input).unwrap();
    assert_eq!(f.work(&mut src, &mut dst, &k), Err(Error::Capacity));
    assert_almost_equal_complex(dst.buffer(), &input[..3]);
    assert_almost_equal_complex(src.buffer(), &input[3..]);
    assert_eq!(StreamWriter::available(&dst), 0);
    dst.consume(3).unwrap();
    assert_eq!(f.work(&mut src, &mut dst, &k), Ok(BlockRet::Progress));
    assert_almost_equal_complex(dst.buffer(), &input[3..]);
    assert_eq!(StreamReader::available(&src), 0);
}

#[test]
fn real_filter_counts_as_the_complex_one() {
    let k = kernel();
    let widen = |x: Float| Complex::new(x, flt(0.0));
    let narrow_re = |z: Complex| z.re;
    let taps = [flt(1.0), flt(1.0)];
    let mut f = FftFilterFloat::new(&taps, cplx(0.0, 0.0), &widen, &k).unwrap();
    let mut src: Stream<Float> = Stream::new(16);
    let mut dst: Stream<Float> = Stream::new(16);
    let input: Vec<Float> = [1.0, 2.0, 3.0, 4.0, 5.0].iter().map(|x| flt(*x)).collect();
    src.write(&input).unwrap();
    assert_eq!(f.work(&mut src, &mut dst, &k, &widen, &narrow_re), Ok(BlockRet::Progress));
    assert_eq!(StreamReader::available(&src), 1);
    assert_almost_equal_float(dst.buffer(), &[1.0, 3.0, 5.0, 7.0]);
    assert_eq!(value(src.buffer()[0]), 5.0);
    src.write(&[flt(6.0)]).unwrap();
    assert_eq!(f.work(&mut src, &mut dst, &k, &widen, &narrow_re), Ok(BlockRet::Progress));
    assert_almost_equal_float(dst.buffer(), &[1.0, 3.0, 5.0, 7.0, 9.0, 11.0]);
    assert_eq!(f.work(&mut src, &mut dst, &k, &widen, &narrow_re), Ok(BlockRet::Noop));
}

#[test]
fn real_filter_with_full_output_fails_and_keeps_the_rest() {
    let k = kernel();
    let widen = |x: Float| Complex::new(x, flt(0.0));
    let narrow_re = |z: Complex| z.re;
    let taps = [flt(1.0)];
    let mut f = FftFilterFloat::new(&taps, cplx(0.0, 0.0), &widen, &k).unwrap();
    let mut src: Stream<Float> = Stream::new(16);
    let mut dst: Stream<Float> = Stream::new(2);
    let input: Vec<Float> = [1.0, 2.0, 3.0].iter().map(|x| flt(*x)).collect();
    src.write(&input).unwrap();
    assert_eq!(f.work(&mut src, &mut dst, &k, &widen, &narrow_re), Err(Error::Capacity));
    assert_almost_equal_float(dst.buffer(), &[1.0, 2.0]);
    assert_almost_equal_float(src.buffer(), &[3.0]);
}

#[test]
fn pad_takes_the_front_and_adds_zeros() {
    let buf = pad(&[1u32, 2, 3, 4], 2, 0, 5);
    assert_eq!(buf, vec![1, 2, 0, 0, 0]);
    let none = pad(&[1u32, 2], 0, 9, 3);
    assert_eq!(none, vec![9, 9, 9]);
}

#[test]
fn pointwise_helpers_work_place_by_place() {
    let product = multiply_pointwise(&|a: u32, b: u32| a * b, &vec![1, 2, 3], &vec![4, 5, 6]);
    assert_eq!(product, vec![4, 10, 18]);
    let scaled = scale_all(&|a: u32, n: usize| a / n as u32, &vec![8, 12, 16], 4);
    assert_eq!(scaled, vec![2, 3, 4]);
}

#[test]
fn overlap_add_adds_the_tail_to_the_front_only() {
    let filtered = vec![10u32, 20, 30, 40, 50, 60];
    let tail = vec![1u32, 2];
    let out = overlap_add(&|a: u32, b: u32| a + b, &filtered, &tail, 4);
    assert_eq!(out, vec![11, 22, 30, 40]);
    assert_eq!(stash_tail(&filtered, 4), vec![50, 60]);
}

#[test]
fn fft_then_ifft() {
    let raw: [(f32, f32); 28] = [
        (-0.045228414, 0.05276649),
        (0.045228407, 0.0075380574),
        (0.015076124, 0.06030453),
        (-0.015076143, -0.03769034),
        (-0.045228403, 0.105532974),
        (-0.05276649, 0.17337555),
        (-0.06784265, 0.007538076),
        (-0.075380675, 0.08291874),
        (5.3462292e-9, -0.03015228),
        (-0.015076158, 0.060304545),
        (-0.015076132, 0.10553298),
        (-0.045228425, 0.045228384),
        (0.07538068, -0.0150761455),
        (0.067842625, 0.01507613),
        (0.0301523, 0.07538069),
        (-0.015076129, 0.067842595),
        (-0.015076145, -0.052766465),
        (-0.052766472, 0.022614188),
        (-0.09799488, 0.10553297),
        (-0.015076136, 0.0075380704),
        (-0.015076153, -4.566649e-9),
        (0.06784262, -0.05276648),
        (0.03015228, 0.022614205),
        (0.09045683, -0.07538069),
        (0.0075380807, -0.12814716),
        (0.015076138, 0.06784261),
        (0.075380705, -0.0150761455),
        (-0.060304567, -0.007538066),
    ];
    let buf: Vec<Complex> = raw.iter().map(|(re, im)| cplx(*re, *im)).collect();
    let k = kernel();
    let buf_fft = (k.forward)(buf.clone());
    let back = (k.inverse)(buf_fft);
    let back = scale_all(&k.scale, &back, buf.len());
    assert_eq!(buf.len(), back.len());
    assert_almost_equal_complex(&back, &buf);
}

#[test]
fn two_calls_filter_like_one() {
    let taps = [cplx(0.5, 0.0), cplx(0.25, -0.5), cplx(-1.0, 0.125)];
    let k = kernel();
    let input: Vec<Complex> = (0..20)
        .map(|i| cplx((i as f32 * 0.7).sin(), (i as f32 * 0.3).cos()))
        .collect();
    let (whole, left, _) = filter_all(&taps, &input);
    assert_eq!(left, 0);

    let mut f = FftFilter::new(&taps, cplx(0.0, 0.0), &k).unwrap();
    assert_eq!(f.nsamples(), 5);
    let mut src: Stream<Complex> = Stream::new(32);
    let mut dst: Stream<Complex> = Stream::new(32);
    src.write(&input[..7]).unwrap();
    assert_eq!(f.work(&mut src, &mut dst, &k), Ok(BlockRet::Progress));
    assert_eq!(StreamReader::available(&src), 2);
    src.write(&input[7..]).unwrap();
    assert_eq!(f.work(&mut src, &mut dst, &k), Ok(BlockRet::Progress));
    assert_eq!(StreamReader::available(&src), 0);
    assert_eq!(dst.buffer(), &whole[..]);
}
