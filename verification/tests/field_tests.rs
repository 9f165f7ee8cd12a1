use teca::field::element::{checked_pow, ExplicitField};
use teca::field::hasse::binomial_mod_prime;
use teca::field::orders::{is_prime, prime_powers_up_to, PrimePower};
use teca::field::polynomial::evaluate_hasse;
use teca::field::standardff::{
    embed_steinitz, standard_affine_shift, standard_prime_degree_coefficients, std_mon_degrees,
    StandardFfError, StandardFieldDescriptor,
};

#[test]
fn prime_field_inverse() {
    let f = ExplicitField::prime(107).unwrap();
    let x = f.from_rank(17).unwrap();
    let inv = f.inverse(&x).unwrap();
    assert_eq!(f.rank(&f.mul(&x, &inv).unwrap()).unwrap(), 1);
}

#[test]
fn tower_quadratic_relation() {
    let base = ExplicitField::prime(3).unwrap();
    // X^2 + 1 over F3.
    let f = ExplicitField::tower(base, 2, &[1]).unwrap();
    let x = f.from_rank(3).unwrap();
    let x2 = f.mul(&x, &x).unwrap();
    assert_eq!(f.rank(&x2).unwrap(), 2);
}

#[test]
fn lucas_handles_characteristic_crossing() {
    assert_eq!(binomial_mod_prime(107, 1, 107), 0);
    assert_eq!(binomial_mod_prime(107, 107, 107), 1);
}

#[test]
fn frontier_capacity_contains_107_squared() {
    let fields = prime_powers_up_to(11_456);
    assert!(fields
        .iter()
        .any(|x| x.characteristic == 107 && x.degree == 2 && x.order == 11_449));
}

#[test]
fn lower_endpoint_is_two() {
    let fields = prime_powers_up_to(2);
    assert_eq!(
        fields,
        vec![PrimePower {
            characteristic: 2,
            degree: 1,
            order: 2
        }]
    );
}

#[test]
fn hasse_at_zero_returns_coefficient() {
    let f = ExplicitField::prime(11).unwrap();
    let zero = f.zero();
    let p = [3, 5, 7, 1];
    for (r, &expected) in p.iter().enumerate() {
        let got = evaluate_hasse(&f, &p, r, &zero).unwrap();
        assert_eq!(f.rank(&got).unwrap(), expected as u128);
    }
}

#[test]
fn standard_affine_shift_matches_gap_documentation() {
    let got: Vec<u128> = (0..=10).map(|i| standard_affine_shift(11, i)).collect();
    assert_eq!(got, vec![7, 4, 1, 9, 6, 3, 0, 8, 5, 2, 10]);
}

#[test]
fn gap_documented_prime_degree_polynomials() {
    assert_eq!(
        standard_prime_degree_coefficients(13, 3, 1).unwrap(),
        vec![11, 0, 0]
    );
    assert_eq!(
        standard_prime_degree_coefficients(13, 5, 1).unwrap(),
        vec![12, 3, 3, 0, 0]
    );
}

#[test]
fn standard_gf4_relation_and_steinitz_rank() {
    let f = StandardFieldDescriptor::new(2, 2)
        .unwrap()
        .instantiate()
        .unwrap();
    let x = f.from_rank(2).unwrap();
    let x2 = f.mul(&x, &x).unwrap();
    assert_eq!(f.rank(&x2).unwrap(), 3);
}

#[test]
fn embeddings_preserve_tower_basis_positions() {
    assert_eq!(embed_steinitz(2, 2, 4, 2).unwrap(), 2);
}

#[test]
fn every_small_standard_field_is_a_field() {
    for p in [2u32, 3, 5, 7] {
        for n in 1..=4 {
            let Some(q) = checked_pow(p as u128, n) else {
                continue;
            };
            if q > 256 {
                continue;
            }
            let f = StandardFieldDescriptor::new(p, n)
                .unwrap()
                .instantiate()
                .unwrap();
            for rank in 1..f.cardinality() {
                let x = f.from_rank(rank).unwrap();
                let inv = f.inverse(&x).unwrap();
                assert_eq!(f.mul(&x, &inv).unwrap(), f.one());
            }
        }
    }
}

#[test]
fn primality_of_small_numbers() {
    let primes: Vec<u32> = (0..30).filter(|&n| is_prime(n)).collect();
    assert_eq!(primes, vec![2, 3, 5, 7, 11, 13, 17, 19, 23, 29]);
    assert!(is_prime(12_347));
    assert!(!is_prime(12_349));
}

#[test]
fn descriptor_validation_and_order() {
    assert_eq!(StandardFieldDescriptor::new(4, 1), Err(StandardFfError::InvalidDescriptor));
    assert_eq!(StandardFieldDescriptor::new(2, 0), Err(StandardFfError::InvalidDescriptor));
    assert_eq!(StandardFieldDescriptor::new(3, 4).unwrap().order().unwrap(), 81);
}

#[test]
fn monomial_degrees_of_degree_four() {
    assert_eq!(std_mon_degrees(1), vec![1]);
    assert_eq!(std_mon_degrees(4), vec![1, 2, 4, 4]);
}

#[test]
fn field_arithmetic_in_f7() {
    let f = ExplicitField::prime(7).unwrap();
    let a = f.from_rank(5).unwrap();
    let b = f.from_rank(4).unwrap();
    assert_eq!(f.rank(&f.add(&a, &b).unwrap()).unwrap(), 2);
    assert_eq!(f.rank(&f.sub(&b, &a).unwrap()).unwrap(), 6);
    assert_eq!(f.rank(&f.neg(&a).unwrap()).unwrap(), 2);
    assert_eq!(f.rank(&f.pow(&a, 6).unwrap()).unwrap(), 1);
    assert!(f.from_rank(7).is_err());
}
