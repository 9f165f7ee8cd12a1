use teca::codec::{CodecError, ContentCodecDescriptor};

#[test]
fn ctm_b9_byte_codec_is_three_base9_digits() {
    let symbols = ContentCodecDescriptor::CtmB9.symbols(&[0, 255]);
    assert_eq!(symbols.len(), 6);
    assert!(symbols.iter().all(|&x| x < 9));
}

#[test]
fn runtime_coefficients_match_canonical_ctm_framing() {
    assert_eq!(
        ContentCodecDescriptor::CtmB9
            .monic_prime_coefficients(&[0], 107)
            .unwrap(),
        vec![1, 2, 9, 10]
    );
}

#[test]
fn binary_codec_is_msb_first() {
    assert_eq!(
        ContentCodecDescriptor::BinaryMsb0.symbols(&[0b1010_0001]),
        vec![1, 0, 1, 0, 0, 0, 0, 1]
    );
}

#[test]
fn codec_cardinalities_are_two_and_nine() {
    assert_eq!(ContentCodecDescriptor::BinaryMsb0.symbol_cardinality(), 2);
    assert_eq!(ContentCodecDescriptor::CtmB9.symbol_cardinality(), 9);
}

#[test]
fn ctm_b9_digits_of_a_byte() {
    // 255 -> three base-9 digits after the affine map.
    let symbols = ContentCodecDescriptor::CtmB9.symbols(&[255]);
    assert_eq!(symbols.len(), 3);
}

#[test]
fn coefficients_refuse_a_non_prime_below_two() {
    assert_eq!(
        ContentCodecDescriptor::BinaryMsb0.monic_prime_coefficients(&[1], 1),
        Err(CodecError::InvalidPrime(1))
    );
}
