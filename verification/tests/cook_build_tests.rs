use teca::artifact::CookStatus;
use teca::codec::ContentCodecDescriptor;
use teca::cook::{ActionError, ExactCookError};
use teca::cook_build::{cook_prior, cook_static, CookBuildError};
use teca::fallback::{FallbackDescriptor, FallbackError};
use teca::prior::{PriorArtifact, PriorMetadata, Scenario, SymbolSpace, WeightExpr};
use teca::scheme::SchemeError;

fn tiny_prior(scenarios: Vec<Scenario>) -> PriorArtifact {
    PriorArtifact {
        symbol_space: SymbolSpace { cardinality: 2, name: "binary".into() },
        scenarios,
        transformations: vec![],
        metadata: PriorMetadata::ExternalFinite {
            model_identity: "tiny-binary-test".into(),
            builder_identity: "unit-test".into(),
            budget: None,
            uncertainty_note: String::new(),
        },
        provenance: vec![],
    }
}

fn one_pair() -> PriorArtifact {
    tiny_prior(vec![Scenario {
        left: vec![0],
        right: vec![1],
        weight: WeightExpr::FixedPoint { units: vec![1], fractional_bits: 0 },
    }])
}

#[test]
fn tiny_fixed_prior_cooks_to_valid_runtime_scheme() {
    let prior = one_pair();
    let artifact = cook_prior(&prior, 2, ContentCodecDescriptor::BinaryMsb0).unwrap();
    artifact.scheme.validate().unwrap();
    assert_eq!(artifact.cook_status, CookStatus::ExactRelativeToPrior);
}

#[test]
fn library_rejects_prior_codec_symbol_mismatch() {
    let prior = one_pair();
    assert!(matches!(
        cook_prior(&prior, 2, ContentCodecDescriptor::CtmB9),
        Err(CookBuildError::CodecSymbolMismatch { prior: 2, codec: 9 })
    ));
}

#[test]
fn static_cook_builds_a_valid_binary_scheme() {
    let prior = one_pair();
    let artifact = cook_static(&prior, 11_449, ContentCodecDescriptor::BinaryMsb0).unwrap();
    assert!(artifact.scheme.nodes.is_empty());
    assert!(matches!(artifact.scheme.fallback, FallbackDescriptor::StaticPolynomialV2 { .. }));
    assert_eq!(artifact.cook_status, CookStatus::ApproximateRelativeToPrior);
    artifact.scheme.validate().unwrap();
}

#[test]
fn static_cook_uses_largest_prime_and_canonical_points() {
    let prior = one_pair();
    let a = cook_static(&prior, 11_449, ContentCodecDescriptor::BinaryMsb0).unwrap();
    match a.scheme.fallback {
        FallbackDescriptor::StaticPolynomialV2 { field, optimized_points, .. } => {
            assert_eq!(field.characteristic, 11_447);
            assert_eq!(field.degree, 1);
            assert_eq!(optimized_points, [1, 2, 3, 4]);
        }
        _ => panic!("not static"),
    }
    let mut ctm = one_pair();
    ctm.symbol_space.cardinality = 9;
    let c = cook_static(&ctm, 12_359, ContentCodecDescriptor::CtmB9).unwrap();
    match c.scheme.fallback {
        FallbackDescriptor::StaticPolynomialV2 { field, optimized_points, .. } => {
            assert_eq!(field.characteristic, 12_347);
            assert_eq!(optimized_points, [6743, 2728, 6148, 1809]);
        }
        _ => panic!("not static"),
    }
    assert_eq!(c.certificate.total_weight, WeightExpr::FixedPoint { units: vec![1], fractional_bits: 96 });
    assert_eq!(c.certificate.objective_cost, c.certificate.total_weight);
    assert_eq!(c.spec_revision, "teca-canonical-refactor-spec-v10");
    assert_eq!(c.cooker_revision, "teca-static-polynomial-v2");
}

#[test]
fn static_cook_errors() {
    let prior = one_pair();
    assert_eq!(
        cook_static(&prior, 1, ContentCodecDescriptor::BinaryMsb0).unwrap_err(),
        CookBuildError::StaticCapacityTooSmall { required: 2, capacity: 1 }
    );
    assert_eq!(
        cook_static(&prior, 4, ContentCodecDescriptor::BinaryMsb0).unwrap_err(),
        CookBuildError::Scheme(SchemeError::Fallback(FallbackError::InvalidStaticField))
    );
    assert_eq!(
        cook_static(&prior, 5, ContentCodecDescriptor::CtmB9).unwrap_err(),
        CookBuildError::CodecSymbolMismatch { prior: 2, codec: 9 }
    );
    assert!(cook_static(&prior, 5, ContentCodecDescriptor::BinaryMsb0).is_ok());
}

#[test]
fn empty_prior_cooks_to_fallback_only() {
    let prior = tiny_prior(vec![]);
    let a = cook_prior(&prior, 7, ContentCodecDescriptor::BinaryMsb0).unwrap();
    assert!(a.scheme.nodes.is_empty());
    assert_eq!(a.scheme.root, None);
    assert_eq!(a.scheme.fallback, FallbackDescriptor::DirectRadixV1);
    assert_eq!(a.certificate.total_weight, WeightExpr::FixedPoint { units: vec![], fractional_bits: 0 });
    assert_eq!(a.cooker_revision, "teca-cooker-exact-v1");
    assert_eq!(
        cook_prior(&prior, 1, ContentCodecDescriptor::BinaryMsb0).unwrap_err(),
        CookBuildError::Scheme(SchemeError::CapacityTooSmall(1))
    );
    assert_eq!(
        cook_prior(&one_pair(), 1, ContentCodecDescriptor::BinaryMsb0).unwrap_err(),
        CookBuildError::Action(ActionError::CapacityTooSmall(1))
    );
}

#[test]
fn exact_cook_certificate_is_ordered() {
    let prior = one_pair();
    let a = cook_prior(&prior, 2, ContentCodecDescriptor::BinaryMsb0).unwrap();
    assert_eq!(a.scheme.root, Some(0));
    assert!(!a.scheme.nodes.is_empty());
    let WeightExpr::FixedPoint { units: total, .. } = &a.certificate.total_weight;
    let WeightExpr::FixedPoint { units: cost, .. } = &a.certificate.objective_cost;
    assert_eq!(total, &vec![1]);
    assert!(num_bigint::BigUint::from_bytes_be(total) <= num_bigint::BigUint::from_bytes_be(cost));
    assert_eq!(a.certificate.explored_states, a.certificate.memoized_states);
    let _ = ExactCookError::UnseparableState;
}
