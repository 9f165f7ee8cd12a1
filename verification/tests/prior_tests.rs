use num_bigint::BigUint;
use teca::artifact::ArtifactError;
use teca::prior::{
    PriorArtifact, PriorMetadata, PriorTransform, Scenario, SymbolSpace, WeightExpr,
};
use teca::prior_bytes::{decode_prior, encode_prior, validate_prior};

fn units(n: &BigUint) -> Vec<u8> {
    n.to_bytes_be()
}

fn binary_prior() -> PriorArtifact {
    PriorArtifact {
        symbol_space: SymbolSpace {
            cardinality: 2,
            name: "binary".into(),
        },
        scenarios: vec![Scenario {
            left: vec![0],
            right: vec![1],
            weight: WeightExpr::FixedPoint {
                units: units(&BigUint::from(3u8)),
                fractional_bits: 5,
            },
        }],
        transformations: vec![PriorTransform::PairOrderCanonicalized],
        metadata: PriorMetadata::ExternalFinite {
            model_identity: "hand-authored-binary-v1".into(),
            builder_identity: "fixture".into(),
            budget: Some("finite fixture".into()),
            uncertainty_note: String::new(),
        },
        provenance: vec![],
    }
}

#[test]
fn prior_round_trip_preserves_canonical_fixed_point_mass() {
    let prior = PriorArtifact {
        symbol_space: SymbolSpace {
            cardinality: 9,
            name: "CTM-B9".into(),
        },
        scenarios: vec![Scenario {
            left: vec![0],
            right: vec![1],
            weight: WeightExpr::FixedPoint {
                units: units(&BigUint::from(2u32)),
                fractional_bits: 96,
            },
        }],
        transformations: vec![PriorTransform::PairOrderCanonicalized],
        metadata: PriorMetadata::CanonicalCtmB9D12 {
            provenance: "verified".into(),
        },
        provenance: vec![],
    };
    let bytes = encode_prior(&prior).unwrap();
    assert_eq!(decode_prior(&bytes).unwrap(), prior);
}

#[test]
fn external_prior_metadata_round_trips() {
    let prior = binary_prior();
    let bytes = encode_prior(&prior).unwrap();
    assert_eq!(decode_prior(&bytes).unwrap(), prior);
}

#[test]
fn prior_v1_round_trip_preserves_arbitrary_precision_integers() {
    let huge = (BigUint::from(1u8) << 300usize) + BigUint::from(123u32);
    let prior = PriorArtifact {
        symbol_space: SymbolSpace {
            cardinality: 9,
            name: "CTM-B9".into(),
        },
        scenarios: vec![Scenario {
            left: vec![0],
            right: vec![1],
            weight: WeightExpr::FixedPoint {
                units: units(&huge),
                fractional_bits: 64,
            },
        }],
        transformations: vec![PriorTransform::PairOrderCanonicalized],
        metadata: PriorMetadata::CanonicalCtmB9D12 {
            provenance: "test".into(),
        },
        provenance: vec![],
    };
    let bytes = encode_prior(&prior).unwrap();
    let decoded = decode_prior(&bytes).unwrap();
    assert_eq!(decoded, prior);
    let WeightExpr::FixedPoint { units: got, .. } = &decoded.scenarios[0].weight;
    assert_eq!(BigUint::from_bytes_be(got), huge);
}

#[test]
fn prior_bytes_start_with_magic_and_cardinality() {
    let bytes = encode_prior(&binary_prior()).unwrap();
    assert_eq!(&bytes[..8], b"TECAPR02");
    assert_eq!(&bytes[8..12], &[0, 0, 0, 2]);
    // name "binary": length then bytes.
    assert_eq!(&bytes[12..16], &[0, 0, 0, 6]);
    assert_eq!(&bytes[16..22], b"binary");
}

#[test]
fn leading_zero_units_are_read_as_their_number() {
    let prior = binary_prior();
    let bytes = encode_prior(&prior).unwrap();
    // The units [3] sit after magic, cardinality, name, count and the two
    // symbol strings, behind the weight tag and their length.
    let at = 8 + 4 + 10 + 4 + 8 + 8 + 1;
    assert_eq!(&bytes[at..at + 5], &[0, 0, 0, 1, 3]);
    let mut padded = bytes[..at].to_vec();
    padded.extend_from_slice(&[0, 0, 0, 3, 0, 0, 3]);
    padded.extend_from_slice(&bytes[at + 5..]);
    assert_eq!(decode_prior(&padded).unwrap(), prior);
}

#[test]
fn decoder_rejects_bad_prior_magic_truncation_and_trailing() {
    let bytes = encode_prior(&binary_prior()).unwrap();
    let mut bad = bytes.clone();
    bad[3] = b'X';
    assert!(matches!(decode_prior(&bad), Err(ArtifactError::BadMagic)));
    assert!(matches!(decode_prior(&bytes[..5]), Err(ArtifactError::Truncated)));
    assert!(matches!(
        decode_prior(&bytes[..bytes.len() - 1]),
        Err(ArtifactError::Truncated)
    ));
    let mut trailing = bytes.clone();
    trailing.push(7);
    assert!(matches!(
        decode_prior(&trailing),
        Err(ArtifactError::TrailingBytes)
    ));
}

#[test]
fn validation_rejects_each_broken_rule() {
    let mut p = binary_prior();
    p.symbol_space.cardinality = 1;
    assert!(matches!(validate_prior(&p), Err(ArtifactError::InvalidPrior(_))));

    let mut p = binary_prior();
    p.transformations = vec![
        PriorTransform::Named("b".into()),
        PriorTransform::Named("a".into()),
    ];
    assert!(matches!(validate_prior(&p), Err(ArtifactError::InvalidPrior(_))));

    let mut p = binary_prior();
    p.scenarios[0].right = vec![0];
    assert!(matches!(validate_prior(&p), Err(ArtifactError::InvalidPrior(_))));

    let mut p = binary_prior();
    p.scenarios[0] = Scenario {
        left: vec![1],
        right: vec![0],
        weight: p.scenarios[0].weight.clone(),
    };
    assert!(matches!(validate_prior(&p), Err(ArtifactError::InvalidPrior(_))));

    let mut p = binary_prior();
    p.scenarios[0].right = vec![2];
    assert!(matches!(validate_prior(&p), Err(ArtifactError::InvalidPrior(_))));

    let mut p = binary_prior();
    p.scenarios[0].weight = WeightExpr::FixedPoint {
        units: Vec::new(),
        fractional_bits: 5,
    };
    assert!(matches!(validate_prior(&p), Err(ArtifactError::InvalidPrior(_))));

    let mut p = binary_prior();
    let second = Scenario {
        left: vec![0],
        right: vec![1, 1],
        weight: WeightExpr::FixedPoint {
            units: vec![1],
            fractional_bits: 6,
        },
    };
    p.scenarios.push(second);
    assert!(matches!(validate_prior(&p), Err(ArtifactError::InvalidPrior(_))));

    let mut p = binary_prior();
    p.metadata = PriorMetadata::CanonicalCtmB9D12 {
        provenance: "x".into(),
    };
    assert!(matches!(validate_prior(&p), Err(ArtifactError::InvalidPrior(_))));

    let mut p = binary_prior();
    p.transformations = vec![
        PriorTransform::PairOrderCanonicalized,
        PriorTransform::GlobalBinaryComplementAggregated,
    ];
    validate_prior(&p).unwrap();
    p.symbol_space.cardinality = 3;
    assert!(matches!(validate_prior(&p), Err(ArtifactError::InvalidPrior(_))));

    let p = binary_prior();
    validate_prior(&p).unwrap();
}

#[test]
fn scenarios_must_come_in_strict_pair_order() {
    let mut p = binary_prior();
    let w = p.scenarios[0].weight.clone();
    p.scenarios = vec![
        Scenario { left: vec![0, 1], right: vec![1], weight: w.clone() },
        Scenario { left: vec![0], right: vec![1], weight: w.clone() },
    ];
    assert!(matches!(validate_prior(&p), Err(ArtifactError::InvalidPrior(_))));
    p.scenarios.swap(0, 1);
    validate_prior(&p).unwrap();
    let bytes = encode_prior(&p).unwrap();
    assert_eq!(decode_prior(&bytes).unwrap(), p);
}
