use num_bigint::BigUint;
use teca::ctm::{from_fixed_point_scenarios, parse_canonical_b9, CtmError, CANONICAL_B9_FILENAME};
use teca::prior::{PriorMetadata, PriorTransform, WeightExpr};
use teca::prior_bytes::validate_prior;

fn units_of(s: &teca::prior::Scenario) -> BigUint {
    let WeightExpr::FixedPoint { units, .. } = &s.weight;
    BigUint::from_bytes_be(units)
}

#[test]
fn shaping_canonicalizes_drops_and_sums_pairs() {
    let rows = vec![
        (vec![1, 2], vec![0, 5], vec![1]),
        (vec![0, 5], vec![1, 2], vec![0, 2]),
        (vec![3], vec![3], vec![9]),
        (vec![4], vec![5], vec![]),
        (vec![7], vec![6], vec![0, 0]),
        (vec![8], vec![0, 1], vec![1, 0]),
    ];
    let prior = from_fixed_point_scenarios(rows, 96, "test-provenance".to_string());
    assert_eq!(prior.symbol_space.cardinality, 9);
    assert_eq!(prior.symbol_space.name, "CTM-B9");
    assert_eq!(prior.transformations, vec![PriorTransform::PairOrderCanonicalized]);
    assert_eq!(
        prior.metadata,
        PriorMetadata::CanonicalCtmB9D12 { provenance: "test-provenance".into() }
    );
    assert_eq!(prior.provenance.len(), 1);
    assert_eq!(prior.provenance[0].name, "CTM-B9-D12");
    assert_eq!(prior.provenance[0].source, "pybdm CTM-B9-D12 direct joint 6+6 table");
    assert_eq!(prior.provenance[0].license, "MIT (pybdm source package)");
    assert_eq!(prior.scenarios.len(), 2);
    assert_eq!(prior.scenarios[0].left, vec![0, 1]);
    assert_eq!(prior.scenarios[0].right, vec![8]);
    assert_eq!(units_of(&prior.scenarios[0]), BigUint::from(256u32));
    assert_eq!(prior.scenarios[1].left, vec![0, 5]);
    assert_eq!(prior.scenarios[1].right, vec![1, 2]);
    assert_eq!(units_of(&prior.scenarios[1]), BigUint::from(3u32));
    let WeightExpr::FixedPoint { units, fractional_bits } = &prior.scenarios[1].weight;
    assert_eq!(units, &vec![3u8]);
    assert_eq!(*fractional_bits, 96);
    assert!(validate_prior(&prior).is_ok());
}

#[test]
fn shaping_adds_masses_beyond_one_byte() {
    let big = BigUint::from(u64::MAX);
    let rows = vec![
        (vec![2], vec![1], big.to_bytes_be()),
        (vec![1], vec![2], big.to_bytes_be()),
    ];
    let prior = from_fixed_point_scenarios(rows, 7, "p".to_string());
    assert_eq!(prior.scenarios.len(), 1);
    assert_eq!(units_of(&prior.scenarios[0]), &big + &big);
}

#[test]
fn shaping_nothing_gives_no_scenarios() {
    let prior = from_fixed_point_scenarios(Vec::new(), 96, String::new());
    assert!(prior.scenarios.is_empty());
}

fn header(count: u64) -> Vec<u8> {
    let mut b = b"TECACTM1".to_vec();
    for v in [1u32, 96, 9, 6] {
        b.extend_from_slice(&v.to_be_bytes());
    }
    b.extend_from_slice(&7u64.to_be_bytes());
    b.extend_from_slice(&5u64.to_be_bytes());
    b.extend_from_slice(&count.to_be_bytes());
    b.extend_from_slice(&[0xaa; 72]);
    b
}

fn row(left: u32, right: u32, units: u128) -> Vec<u8> {
    let mut b = left.to_be_bytes().to_vec();
    b.extend_from_slice(&right.to_be_bytes());
    b.extend_from_slice(&units.to_be_bytes());
    b
}

fn invalid(bytes: &[u8]) -> &'static str {
    match parse_canonical_b9(bytes) {
        Err(CtmError::Invalid(m)) => m,
        Ok(_) => panic!("accepted"),
    }
}

#[test]
fn canonical_table_rows_become_base9_pairs() {
    let mut b = header(3);
    // 1 = 000001, 9 = 000010 in base 9.
    b.extend(row(9, 1, 5));
    b.extend(row(1, 9, 2));
    b.extend(row(4, 4, 11));
    let prior = parse_canonical_b9(&b).unwrap();
    assert_eq!(prior.scenarios.len(), 1);
    assert_eq!(prior.scenarios[0].left, vec![0, 0, 0, 0, 0, 1]);
    assert_eq!(prior.scenarios[0].right, vec![0, 0, 0, 0, 1, 0]);
    assert_eq!(units_of(&prior.scenarios[0]), BigUint::from(7u32));
    let WeightExpr::FixedPoint { fractional_bits, .. } = &prior.scenarios[0].weight;
    assert_eq!(*fractional_bits, 96);
    assert_eq!(
        prior.metadata,
        PriorMetadata::CanonicalCtmB9D12 {
            provenance: "verified direct CTM-B9-D12; fixed 6+6; canonical supplied table".into()
        }
    );
}

#[test]
fn canonical_table_digits_drop_high_places() {
    // 9^6 = 531441 is 1000000 in base 9: six places keep only the zeros.
    let mut b = header(1);
    b.extend(row(531441 + 80, 8, 1));
    let prior = parse_canonical_b9(&b).unwrap();
    assert_eq!(prior.scenarios[0].left, vec![0, 0, 0, 0, 0, 8]);
    assert_eq!(prior.scenarios[0].right, vec![0, 0, 0, 0, 8, 8]);
}

#[test]
fn canonical_table_faults_are_named() {
    assert_eq!(invalid(b"TECA"), "truncated");
    assert_eq!(invalid(b"TECACTM2........................"), "header");
    assert_eq!(invalid(&header(0)[..10]), "truncated");
    let mut bad_version = header(0);
    bad_version[11] = 2;
    assert_eq!(invalid(&bad_version), "header");
    let mut bad_width = header(0);
    bad_width[23] = 7;
    assert_eq!(invalid(&bad_width), "header");
    assert_eq!(invalid(&header(0)[..100]), "truncated");
    let mut short = header(2);
    short.extend(row(1, 2, 3));
    assert_eq!(invalid(&short), "truncated");
    let mut long = header(1);
    long.extend(row(1, 2, 3));
    long.push(0);
    assert_eq!(invalid(&long), "trailing bytes");
    assert!(parse_canonical_b9(&header(0)).unwrap().scenarios.is_empty());
}

#[test]
fn canonical_file_name() {
    assert_eq!(CANONICAL_B9_FILENAME, "ctm-b9-d12-pair-prior-fp96-v1.bin");
}
