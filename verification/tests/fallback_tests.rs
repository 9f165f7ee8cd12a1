use teca::address::AtomId;
use teca::codec::ContentCodecDescriptor;
use teca::fallback::{
    binary_hasse_zero_finite_len, direct_radix_v1_finite_len, radix_digits_for_bytes,
    FallbackAddress, FallbackError,
};
use teca::field::standardff::StandardFieldDescriptor;
use teca::probe::{FieldDescriptor, ScalarProbe};

fn finite_prefix_vec(mut address: FallbackAddress<'_>) -> Vec<AtomId> {
    let n = address.finite_len().expect("test input length fits usize");
    (0..n).map(|_| address.next_atom()).collect()
}

#[test]
fn distinct_inputs_diverge() {
    let mut a = FallbackAddress::new(b"a", 2).unwrap();
    let mut b = FallbackAddress::new(b"b", 2).unwrap();
    assert!((0..64).any(|_| a.next_atom() != b.next_atom()));
}

#[test]
fn length_is_part_of_prefix_code() {
    let a = finite_prefix_vec(FallbackAddress::new(b"", 257).unwrap());
    let b = finite_prefix_vec(FallbackAddress::new(&[0], 257).unwrap());
    assert_ne!(a, b);
    assert!(!a.starts_with(&b));
    assert!(!b.starts_with(&a));
}

#[test]
fn full_blocks_use_capacity_efficient_widths() {
    assert_eq!(radix_digits_for_bytes(2, 15), 120);
    assert_eq!(radix_digits_for_bytes(3, 15), 76);
    assert_eq!(radix_digits_for_bytes(257, 15), 15);
    assert_eq!(radix_digits_for_bytes(11_456, 15), 9);
}

#[test]
fn all_one_byte_inputs_are_distinct_for_representative_capacities() {
    for capacity in [2, 3, 11, 257, 11_456] {
        let codes: std::collections::BTreeSet<Vec<_>> = (0u8..=255)
            .map(|b| finite_prefix_vec(FallbackAddress::new(&[b], capacity).unwrap()))
            .collect();
        assert_eq!(codes.len(), 256);
    }
}

#[test]
fn leading_zeroes_are_preserved_by_fixed_block_width() {
    for capacity in [2, 3, 257, 11_456] {
        let a = finite_prefix_vec(FallbackAddress::new(&[0, 1], capacity).unwrap());
        let b = finite_prefix_vec(FallbackAddress::new(&[1], capacity).unwrap());
        assert_ne!(a, b);
    }
}

#[test]
fn finite_length_helper_matches_iterator_geometry() {
    for capacity in [2, 3, 11, 257, 11_456] {
        for len in [0usize, 1, 2, 14, 15, 16, 31, 255, 4096] {
            let bytes = vec![0x5a; len];
            let address = FallbackAddress::new(&bytes, capacity).unwrap();
            assert_eq!(
                address.finite_len().unwrap(),
                direct_radix_v1_finite_len(len, capacity).unwrap()
            );
        }
    }
}

#[test]
fn binary_hasse_reference_uses_largest_binary_bundle() {
    assert_eq!(binary_hasse_zero_finite_len(0, 2).unwrap(), 1);
    assert_eq!(binary_hasse_zero_finite_len(1, 2).unwrap(), 9);
    assert_eq!(binary_hasse_zero_finite_len(15, 11_456).unwrap(), 10);
    assert_eq!(binary_hasse_zero_finite_len(1500, 11_456).unwrap(), 924);
    assert!(
        direct_radix_v1_finite_len(1500, 11_456).unwrap()
            < binary_hasse_zero_finite_len(1500, 11_456).unwrap()
    );
}

#[test]
fn static_polynomial_stream_is_infinite_and_matches_probe() {
    let field = StandardFieldDescriptor {
        characteristic: 12_347,
        degree: 1,
    };
    let mut address = FallbackAddress::new_static(
        b"Gortnite",
        12_359,
        ContentCodecDescriptor::CtmB9,
        field,
        [6743, 2728, 6148, 1809],
    )
    .unwrap();
    let expected = ScalarProbe {
        field: FieldDescriptor::Standard(field),
        point_rank: 6743,
        hasse_order: 0,
    }
    .evaluate(b"Gortnite", ContentCodecDescriptor::CtmB9)
    .unwrap()
    .0;
    assert_eq!(address.next_atom(), AtomId(expected as u32));
    assert_eq!(address.finite_len(), Err(FallbackError::Infinite));
}

#[test]
fn capacity_below_two_is_refused() {
    assert!(matches!(
        FallbackAddress::new(b"x", 1),
        Err(FallbackError::CapacityTooSmall(1))
    ));
    assert_eq!(
        direct_radix_v1_finite_len(3, 1),
        Err(FallbackError::CapacityTooSmall(1))
    );
    assert_eq!(
        binary_hasse_zero_finite_len(3, 0),
        Err(FallbackError::CapacityTooSmall(0))
    );
}

#[test]
fn empty_input_direct_radix_length_is_the_gamma_code() {
    // Length 0 is Elias-gamma coded as a single atom; there is no payload.
    assert_eq!(direct_radix_v1_finite_len(0, 2).unwrap(), 1);
    // Binary radix, one byte: gamma(1) = 3 atoms, payload 8 digits.
    assert_eq!(direct_radix_v1_finite_len(1, 2).unwrap(), 11);
}
