use std::collections::BTreeMap;

use num_bigint::BigUint;
use teca::cook::{CandidateTest, ExactCookError, PairOutcome};
use teca::search::{first_step_lower_bound, weighted_depth_cost, ExactCooker};

fn units(n: &BigUint) -> Vec<u8> {
    if *n == BigUint::from(0u8) {
        Vec::new()
    } else {
        n.to_bytes_be()
    }
}

fn value(u: &[u8]) -> BigUint {
    BigUint::from_bytes_be(u)
}

/// Deliberately simple reference recurrence with no memoization, certificate
/// logic, or pruning: an independent oracle for the exact adaptive objective
/// on tiny instances.
fn brute_cost(weights: &[BigUint], tests: &[CandidateTest], state: &[usize]) -> Option<BigUint> {
    if state.is_empty() {
        return Some(BigUint::from(0u8));
    }
    let node_cost: BigUint = state.iter().map(|&i| &weights[i]).sum();
    let mut best: Option<BigUint> = None;
    for test in tests {
        let mut branches = BTreeMap::<u32, Vec<usize>>::new();
        for &scenario in state {
            let outcome = test.outcomes[scenario];
            if outcome.left == outcome.right {
                branches.entry(outcome.left).or_default().push(scenario);
            }
        }
        if branches.len() == 1 && branches.values().next().is_some_and(|b| b.len() == state.len()) {
            continue;
        }
        let mut total = node_cost.clone();
        let mut finite = true;
        for child in branches.values() {
            let Some(cost) = brute_cost(weights, tests, child) else {
                finite = false;
                break;
            };
            total += cost;
        }
        if finite && best.as_ref().is_none_or(|b| total < *b) {
            best = Some(total);
        }
    }
    best
}

fn ternary_outcome(code: usize) -> PairOutcome {
    match code {
        0 => PairOutcome { left: 0, right: 1 },
        1 => PairOutcome { left: 0, right: 0 },
        2 => PairOutcome { left: 1, right: 1 },
        _ => unreachable!(),
    }
}

fn exhaustive_tiny_oracle(scenarios: usize, test_count: usize) {
    let weights: Vec<BigUint> = (1..=scenarios).map(BigUint::from).collect();
    let cells = scenarios * test_count;
    let total_matrices = 3usize.pow(cells as u32);
    for encoded in 0..total_matrices {
        let mut value_left = encoded;
        let mut tests = Vec::with_capacity(test_count);
        for test_id in 0..test_count {
            let mut outcomes = Vec::with_capacity(scenarios);
            for _ in 0..scenarios {
                outcomes.push(ternary_outcome(value_left % 3));
                value_left /= 3;
            }
            tests.push(CandidateTest { id: test_id as u32, outcomes });
        }
        let state: Vec<usize> = (0..scenarios).collect();
        let expected = brute_cost(&weights, &tests, &state);
        let unit_weights: Vec<Vec<u8>> = weights.iter().map(units).collect();
        let actual = ExactCooker::new(unit_weights, tests).unwrap().solve();
        match (expected, actual) {
            (Some(expected), Ok(actual)) => {
                assert_eq!(value(&actual.cost), expected, "matrix {encoded}")
            }
            (None, Err(ExactCookError::UnseparableState)) => {}
            (expected, actual) => panic!(
                "tiny oracle mismatch for matrix {encoded}: expected {expected:?}, actual {actual:?}"
            ),
        }
    }
}

#[test]
fn exact_solver_matches_exhaustive_two_scenario_oracle() {
    exhaustive_tiny_oracle(2, 2);
}

#[test]
fn exact_solver_matches_exhaustive_three_scenario_oracle() {
    exhaustive_tiny_oracle(3, 2);
}

#[test]
fn adaptive_branching_beats_bad_global_second_test() {
    // Scenario 0 is resolved by test 0. Scenarios 1 and 2 collide under test
    // 0 but into different shared values, allowing different next tests.
    let weights = vec![units(&10u32.into()), units(&5u32.into()), units(&5u32.into())];
    let tests = vec![
        CandidateTest {
            id: 0,
            outcomes: vec![
                PairOutcome { left: 0, right: 1 },
                PairOutcome { left: 2, right: 2 },
                PairOutcome { left: 3, right: 3 },
            ],
        },
        CandidateTest {
            id: 1,
            outcomes: vec![
                PairOutcome { left: 0, right: 0 },
                PairOutcome { left: 0, right: 1 },
                PairOutcome { left: 4, right: 4 },
            ],
        },
        CandidateTest {
            id: 2,
            outcomes: vec![
                PairOutcome { left: 0, right: 0 },
                PairOutcome { left: 4, right: 4 },
                PairOutcome { left: 0, right: 1 },
            ],
        },
    ];
    let solution = ExactCooker::new(weights, tests).unwrap().solve().unwrap();
    assert_eq!(value(&solution.cost), BigUint::from(30u32)); // 20 at root + 5 + 5 in two branches.
    assert_eq!(value(&solution.certificate.root_lower_bound), BigUint::from(30u32));
    let root = solution.root.unwrap();
    assert_eq!(root.test_id, 0);
    assert_eq!(root.residual_branches.len(), 2);
    assert_eq!(root.residual_branches[&2].test_id, 1);
    assert_eq!(root.residual_branches[&3].test_id, 2);
    assert!(root.residual_branches[&2].residual_branches.is_empty());
    assert_eq!(value(&solution.certificate.total_weight), BigUint::from(20u32));
    assert_eq!(solution.certificate.optimum_cost, solution.cost);
    assert_eq!(solution.certificate.explored_states, 4);
    assert_eq!(solution.certificate.memoized_states, 4);
}

#[test]
fn cooker_construction_checks_tests() {
    assert!(matches!(ExactCooker::new(vec![vec![1]], vec![]), Err(ExactCookError::EmptyTests)));
    let short = CandidateTest { id: 0, outcomes: vec![] };
    assert!(matches!(
        ExactCooker::new(vec![vec![1]], vec![short]),
        Err(ExactCookError::LengthMismatch)
    ));
}

#[test]
fn zero_weight_scenarios_need_no_tree() {
    let tests = vec![CandidateTest { id: 0, outcomes: vec![PairOutcome { left: 1, right: 1 }] }];
    let solution = ExactCooker::new(vec![vec![]], tests).unwrap().solve().unwrap();
    assert!(solution.cost.is_empty());
    assert!(solution.root.is_none());
    assert_eq!(solution.certificate.explored_states, 0);
}

#[test]
fn scenario_no_test_separates_is_unseparable() {
    let tests = vec![CandidateTest {
        id: 0,
        outcomes: vec![PairOutcome { left: 0, right: 1 }, PairOutcome { left: 2, right: 2 }],
    }];
    assert!(matches!(
        ExactCooker::new(vec![vec![1], vec![2]], tests).unwrap().solve(),
        Err(ExactCookError::UnseparableState)
    ));
}

#[test]
fn single_resolving_test_costs_the_total_weight() {
    let tests = vec![CandidateTest {
        id: 7,
        outcomes: vec![PairOutcome { left: 0, right: 1 }, PairOutcome { left: 2, right: 3 }],
    }];
    let solution = ExactCooker::new(vec![vec![1, 0], vec![0, 5]], tests).unwrap().solve().unwrap();
    assert_eq!(solution.cost, vec![1, 5]);
    assert_eq!(solution.certificate.root_lower_bound, vec![1, 5]);
    assert_eq!(solution.root.unwrap().test_id, 7);
}

#[test]
fn first_step_lower_bound_adds() {
    assert_eq!(first_step_lower_bound(&[1, 0], &[0xff]), vec![1, 0xff]);
    assert_eq!(first_step_lower_bound(&[0xff], &[1]), vec![1, 0]);
    assert!(first_step_lower_bound(&[], &[0]).is_empty());
}

#[test]
fn weighted_depth_cost_sums_products() {
    assert_eq!(weighted_depth_cost(&[vec![3], vec![1, 0]], &[2, 3]), Some(vec![3, 6]));
    assert_eq!(weighted_depth_cost(&[vec![3]], &[2, 3]), None);
    assert_eq!(weighted_depth_cost(&[], &[]), Some(vec![]));
    assert_eq!(weighted_depth_cost(&[vec![9]], &[0]), Some(vec![]));
}

#[test]
fn optimum_is_at_least_total_plus_least_residual() {
    // Test 0 leaves scenarios 0 and 1 collided (weights 2 + 3); test 1
    // leaves only scenario 2 (weight 4): W = 9, R = 4, optimum = 9 + 4.
    let tests = vec![
        CandidateTest {
            id: 0,
            outcomes: vec![
                PairOutcome { left: 5, right: 5 },
                PairOutcome { left: 6, right: 6 },
                PairOutcome { left: 0, right: 1 },
            ],
        },
        CandidateTest {
            id: 1,
            outcomes: vec![
                PairOutcome { left: 0, right: 1 },
                PairOutcome { left: 0, right: 1 },
                PairOutcome { left: 7, right: 7 },
            ],
        },
    ];
    let solution = ExactCooker::new(vec![vec![2], vec![3], vec![4]], tests).unwrap().solve().unwrap();
    assert_eq!(solution.certificate.total_weight, vec![9]);
    assert_eq!(solution.certificate.root_lower_bound, vec![13]);
    assert_eq!(solution.cost, vec![13]);
    assert_eq!(solution.root.unwrap().test_id, 1);
}
