use num_bigint::BigUint;
use teca::artifact::{ArtifactError, CookObjectiveDescriptor, CookStatus};
use teca::codec::ContentCodecDescriptor;
use teca::defaults::default_scheme;
use teca::prior::WeightExpr;
use teca::scheme::Scheme;
use teca::scheme_bytes::{
    decode_scheme, encode_scheme, validate_certificate_kind, CookCertificateArtifact, SchemeArtifact,
};

/// Units of a weight: big-endian bytes without leading zeros, zero empty.
fn units(n: &BigUint) -> Vec<u8> {
    if *n == BigUint::from(0u8) {
        Vec::new()
    } else {
        n.to_bytes_be()
    }
}

fn weight(n: u64, fractional_bits: u32) -> WeightExpr {
    WeightExpr::FixedPoint {
        units: units(&BigUint::from(n)),
        fractional_bits,
    }
}

fn artifact(scheme: Scheme, certificate: CookCertificateArtifact) -> SchemeArtifact {
    SchemeArtifact {
        scheme,
        objective: CookObjectiveDescriptor::ExpectedDistinguishingAtoms,
        cook_status: CookStatus::ExactRelativeToPrior,
        certificate,
        spec_revision: "v9".into(),
        cooker_revision: "1".into(),
    }
}

#[test]
fn scheme_v1_round_trip() {
    let scheme = Scheme::fallback_only(257, ContentCodecDescriptor::BinaryMsb0).unwrap();
    let zero = WeightExpr::FixedPoint {
        units: units(&BigUint::from(0u8)),
        fractional_bits: 0,
    };
    let artifact = SchemeArtifact {
        scheme,
        objective: CookObjectiveDescriptor::ExpectedDistinguishingAtoms,
        cook_status: CookStatus::ExactRelativeToPrior,
        certificate: CookCertificateArtifact {
            total_weight: zero.clone(),
            objective_cost: zero.clone(),
            root_lower_bound: zero,
            explored_states: 0,
            memoized_states: 0,
        },
        spec_revision: "v9".into(),
        cooker_revision: "1".into(),
    };
    let bytes = encode_scheme(&artifact).unwrap();
    assert_eq!(decode_scheme(&bytes).unwrap(), artifact);
}

#[test]
fn canonical_scheme_artifact_round_trips_with_counters() {
    let a = SchemeArtifact {
        cook_status: CookStatus::ApproximateRelativeToPrior,
        ..artifact(
            default_scheme(),
            CookCertificateArtifact {
                total_weight: weight(5, 3),
                objective_cost: weight(1 << 40, 3),
                root_lower_bound: weight(300, 3),
                explored_states: u64::MAX,
                memoized_states: 1 << 33,
            },
        )
    };
    let bytes = encode_scheme(&a).unwrap();
    assert_eq!(&bytes[..8], b"TECASM02");
    assert_eq!(bytes[8], 0);
    assert_eq!(bytes[9], 1);
    assert_eq!(decode_scheme(&bytes).unwrap(), a);
}

#[test]
fn certificates_must_be_ordered_and_of_one_scale() {
    let ok = CookCertificateArtifact {
        total_weight: weight(1, 2),
        objective_cost: weight(3, 2),
        root_lower_bound: weight(2, 2),
        explored_states: 7,
        memoized_states: 7,
    };
    validate_certificate_kind(&ok).unwrap();
    let mut unordered = ok.clone();
    unordered.root_lower_bound = weight(4, 2);
    assert!(matches!(
        validate_certificate_kind(&unordered),
        Err(ArtifactError::InvalidPrior(_))
    ));
    let mut scales = ok.clone();
    scales.objective_cost = weight(3, 1);
    assert!(matches!(
        validate_certificate_kind(&scales),
        Err(ArtifactError::InvalidPrior(_))
    ));
    let mut padded = ok.clone();
    padded.total_weight = WeightExpr::FixedPoint {
        units: vec![0, 1],
        fractional_bits: 2,
    };
    assert!(matches!(
        validate_certificate_kind(&padded),
        Err(ArtifactError::InvalidPrior(_))
    ));
    let scheme = Scheme::fallback_only(257, ContentCodecDescriptor::BinaryMsb0).unwrap();
    assert!(matches!(
        encode_scheme(&artifact(scheme, unordered)),
        Err(ArtifactError::InvalidPrior(_))
    ));
}

#[test]
fn invalid_schemes_are_not_encoded() {
    let mut scheme = Scheme::fallback_only(257, ContentCodecDescriptor::BinaryMsb0).unwrap();
    scheme.capacity = 1;
    let zero = weight(0, 0);
    let cert = CookCertificateArtifact {
        total_weight: zero.clone(),
        objective_cost: zero.clone(),
        root_lower_bound: zero,
        explored_states: 0,
        memoized_states: 0,
    };
    assert!(matches!(
        encode_scheme(&artifact(scheme, cert)),
        Err(ArtifactError::InvalidScheme(_))
    ));
}

#[test]
fn scheme_decoder_rejects_bad_tags_and_lengths() {
    let scheme = Scheme::fallback_only(257, ContentCodecDescriptor::BinaryMsb0).unwrap();
    let cert = CookCertificateArtifact {
        total_weight: weight(1, 0),
        objective_cost: weight(1, 0),
        root_lower_bound: weight(1, 0),
        explored_states: 0,
        memoized_states: 0,
    };
    let bytes = encode_scheme(&artifact(scheme, cert)).unwrap();
    let mut objective = bytes.clone();
    objective[8] = 9;
    assert!(matches!(
        decode_scheme(&objective),
        Err(ArtifactError::UnsupportedTag { tag: 9, .. })
    ));
    let mut status = bytes.clone();
    status[9] = 2;
    assert!(matches!(
        decode_scheme(&status),
        Err(ArtifactError::UnsupportedTag { tag: 2, .. })
    ));
    assert!(matches!(decode_scheme(&bytes[..7]), Err(ArtifactError::Truncated)));
    assert!(matches!(
        decode_scheme(&bytes[..bytes.len() - 2]),
        Err(ArtifactError::Truncated)
    ));
    let mut trailing = bytes.clone();
    trailing.push(1);
    assert!(matches!(
        decode_scheme(&trailing),
        Err(ArtifactError::TrailingBytes)
    ));
}
