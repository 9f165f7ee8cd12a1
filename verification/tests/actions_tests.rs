use num_bigint::BigUint;
use teca::actions::{fixed_point_matrix, generate_actions, pair_outcome_matrix};
use teca::cook::{behavior_key, behavior_refines, scalar_key, ActionError, MatrixError};
use teca::prior::{PriorArtifact, PriorMetadata, Scenario, SymbolSpace, WeightExpr};

fn prior(cardinality: u32, pairs: &[(Vec<u32>, Vec<u32>)], scales: &[u32]) -> PriorArtifact {
    PriorArtifact {
        symbol_space: SymbolSpace {
            cardinality,
            name: "test".into(),
        },
        scenarios: pairs
            .iter()
            .zip(scales)
            .map(|((l, r), &s)| Scenario {
                left: l.clone(),
                right: r.clone(),
                weight: WeightExpr::FixedPoint {
                    units: BigUint::from(1u8).to_bytes_be(),
                    fractional_bits: s,
                },
            })
            .collect(),
        transformations: vec![],
        metadata: PriorMetadata::ExternalFinite {
            model_identity: "tiny-binary-test".into(),
            builder_identity: "unit-test".into(),
            budget: None,
            uncertainty_note: String::new(),
        },
        provenance: vec![],
    }
}

#[test]
fn tiny_action_generation_is_finite_and_capacity_bounded() {
    let prior = prior(2, &[(vec![0], vec![1])], &[0]);
    let generated = generate_actions(&prior, 2).unwrap();
    assert!(!generated.bundles.is_empty());
    assert_eq!(generated.bundles.len(), generated.tests.len());
    assert!(generated
        .bundles
        .iter()
        .all(|b| b.outcome_cardinality().unwrap() <= 2));
}

#[test]
fn generated_actions_are_numbered_sorted_distinct_and_undominated() {
    let p = prior(
        3,
        &[
            (vec![0], vec![1]),
            (vec![0], vec![2]),
            (vec![1, 0], vec![2, 1]),
        ],
        &[0, 0, 0],
    );
    let g = generate_actions(&p, 7).unwrap();
    assert!(!g.tests.is_empty());
    for (i, t) in g.tests.iter().enumerate() {
        assert_eq!(t.id as usize, i);
        assert_eq!(t.outcomes.len(), 3);
    }
    for b in &g.bundles {
        assert!(!b.probes.is_empty());
        assert!(b.outcome_cardinality().unwrap() <= 7);
    }
    let keys: Vec<Vec<_>> = g
        .bundles
        .iter()
        .map(|b| b.probes.iter().map(scalar_key).collect())
        .collect();
    for w in keys.windows(2) {
        assert!(w[0] < w[1]);
    }
    let behaviors: Vec<Vec<u32>> = g.tests.iter().map(|t| behavior_key(&t.outcomes)).collect();
    for i in 0..behaviors.len() {
        for j in 0..behaviors.len() {
            if i != j {
                assert_ne!(behaviors[i], behaviors[j]);
                assert!(!behavior_refines(&behaviors[j], &behaviors[i]));
            }
        }
    }
}

#[test]
fn action_generation_refuses_small_capacity_and_alphabet() {
    let p = prior(2, &[(vec![0], vec![1])], &[0]);
    assert!(matches!(
        generate_actions(&p, 1),
        Err(ActionError::CapacityTooSmall(1))
    ));
    let q = prior(1, &[(vec![0], vec![0, 0])], &[0]);
    assert!(matches!(
        generate_actions(&q, 5),
        Err(ActionError::SymbolCardinalityTooSmall(1))
    ));
}

#[test]
fn outcome_matrix_has_one_row_per_bundle() {
    let p = prior(2, &[(vec![0], vec![1]), (vec![1, 1], vec![0, 1])], &[3, 3]);
    let g = generate_actions(&p, 4).unwrap();
    let tests = pair_outcome_matrix(&p, &g.bundles, 4).unwrap();
    assert_eq!(tests, g.tests);
    let (w, t2, scale) = fixed_point_matrix(&p, &g.bundles, 4).unwrap();
    assert_eq!(t2, tests);
    assert_eq!(scale, 3);
    assert_eq!(w, vec![vec![1u8], vec![1u8]]);
}

#[test]
fn outcome_matrix_refuses_mixed_scales_and_small_alphabets() {
    let p = prior(2, &[(vec![0], vec![1]), (vec![1], vec![0, 0])], &[1, 2]);
    assert!(matches!(
        fixed_point_matrix(&p, &[], 4),
        Err(MatrixError::MixedFixedPointScales)
    ));
    let q = prior(1, &[], &[]);
    assert!(matches!(
        pair_outcome_matrix(&q, &[], 4),
        Err(MatrixError::SymbolCardinalityTooSmall)
    ));
}
