use teca::cook::{behavior_key, behavior_refines, PairOutcome, RESOLVED};

#[test]
fn behavioral_keys_ignore_irrelevant_output_labels() {
    let a = vec![
        PairOutcome { left: 7, right: 7 },
        PairOutcome { left: 9, right: 3 },
        PairOutcome { left: 7, right: 7 },
        PairOutcome { left: 4, right: 4 },
    ];
    let b = vec![
        PairOutcome { left: 2, right: 2 },
        PairOutcome { left: 8, right: 1 },
        PairOutcome { left: 2, right: 2 },
        PairOutcome { left: 6, right: 6 },
    ];
    assert_eq!(behavior_key(&a), behavior_key(&b));
}

#[test]
fn refinement_is_information_monotone() {
    let coarse = vec![0, 0, 1, RESOLVED];
    let fine = vec![0, 1, 2, RESOLVED];
    assert!(behavior_refines(&fine, &coarse));
    assert!(!behavior_refines(&coarse, &fine));
}

#[test]
fn behavior_key_numbers_blocks_by_first_use() {
    let outs = vec![
        PairOutcome { left: 5, right: 5 },
        PairOutcome { left: 1, right: 2 },
        PairOutcome { left: 3, right: 3 },
        PairOutcome { left: 5, right: 5 },
    ];
    assert_eq!(behavior_key(&outs), vec![0, RESOLVED, 1, 0]);
}

#[test]
fn refinement_requires_equal_lengths_and_resolved_kept() {
    assert!(!behavior_refines(&[0, 0], &[0]));
    assert!(!behavior_refines(&[0, 1], &[RESOLVED, 0]));
    assert!(behavior_refines(&[RESOLVED, RESOLVED], &[0, 0]));
    assert!(behavior_refines(&[0, 1], &[0, 1]));
}
