use rustradio::{Complex, Error, Float, Sample};

#[test]
fn sample_sizes() {
    assert_eq!(<u32 as Sample>::size(), 4);
    assert_eq!(<Float as Sample>::size(), 4);
    assert_eq!(<Complex as Sample>::size(), 8);
}

#[test]
fn parse_u32_is_little_endian() {
    assert_eq!(<u32 as Sample>::parse(&[1, 2, 0, 0]), Ok(513));
    assert_eq!(<u32 as Sample>::parse(&[0x78, 0x56, 0x34, 0x12]), Ok(0x1234_5678));
    assert_eq!(<u32 as Sample>::parse(&[0xff, 0xff, 0xff, 0xff]), Ok(u32::MAX));
    assert_eq!(<u32 as Sample>::parse(&[0, 0, 0, 0]), Ok(0));
    assert_eq!(<u32 as Sample>::parse(&0xdead_beefu32.to_le_bytes()), Ok(0xdead_beef));
}

#[test]
fn parse_float_reads_the_bit_pattern() {
    let x = <Float as Sample>::parse(&1.5f32.to_le_bytes()).unwrap();
    assert_eq!(f32::from_bits(x.to_bits()), 1.5);
    let y = <Float as Sample>::parse(&(-0.0f32).to_le_bytes()).unwrap();
    assert_eq!(y.to_bits(), 0x8000_0000);
    assert_eq!(Float::from_bits(7).to_bits(), 7);
}

#[test]
fn parse_complex_reads_real_then_imaginary() {
    let mut bytes = Vec::new();
    bytes.extend_from_slice(&2.5f32.to_le_bytes());
    bytes.extend_from_slice(&(-4.0f32).to_le_bytes());
    let z = <Complex as Sample>::parse(&bytes).unwrap();
    assert_eq!(f32::from_bits(z.re.to_bits()), 2.5);
    assert_eq!(f32::from_bits(z.im.to_bits()), -4.0);
    assert_eq!(z, Complex::new(Float::from_bits(2.5f32.to_bits()), Float::from_bits((-4.0f32).to_bits())));
}

#[test]
fn parse_of_wrong_length_is_decode_error() {
    assert_eq!(<u32 as Sample>::parse(&[]), Err(Error::Decode));
    assert_eq!(<u32 as Sample>::parse(&[1, 2, 3]), Err(Error::Decode));
    assert_eq!(<u32 as Sample>::parse(&[1, 2, 3, 4, 5]), Err(Error::Decode));
    assert_eq!(<Float as Sample>::parse(&[1, 2, 3]), Err(Error::Decode));
    assert_eq!(<Float as Sample>::parse(&[0; 8]), Err(Error::Decode));
    assert_eq!(<Complex as Sample>::parse(&[0; 4]), Err(Error::Decode));
    assert_eq!(<Complex as Sample>::parse(&[0; 7]), Err(Error::Decode));
    assert_eq!(<Complex as Sample>::parse(&[0; 9]), Err(Error::Decode));
}
