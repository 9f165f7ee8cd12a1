//! Hasse derivatives of polynomials with prime-subfield coefficients.
use crate::field::element::{
    add_spec, check_err, elem_ok, from_prime_spec, fs_wf, mul_spec, one_spec, zero_spec,
    ExplicitField, FieldElement, FieldError, FieldSpec,
};
use crate::field::hasse::{binom_mod_spec, binomial_mod_prime};
use vstd::arithmetic::div_mod::*;
use vstd::prelude::*;

verus! {

/// Prime-field scalar of term `i` of the order-`order` Hasse derivative:
/// `c[i] * C(i, order) mod p`.
pub open spec fn hasse_scalar(p: nat, c: Seq<u32>, order: nat, i: nat) -> nat {
    ((c[i as int] as nat) * binom_mod_spec(i, order, p)) % p
}

/// Accumulated value and current power of the point after the first `n`
/// terms (indices `order .. order + n`) of the Hasse derivative at `point`.
pub open spec fn hasse_fold(f: FieldSpec, c: Seq<u32>, order: nat, point: Seq<u32>, n: nat) -> (
    Seq<u32>,
    Seq<u32>,
)
    decreases n,
{
    if n == 0 {
        (zero_spec(f), one_spec(f))
    } else {
        let prev = hasse_fold(f, c, order, point, (n - 1) as nat);
        let scalar = hasse_scalar(f.p, c, order, (order + n - 1) as nat);
        let out = if scalar != 0 {
            add_spec(f, prev.0, mul_spec(f, from_prime_spec(f, scalar as u32), prev.1))
        } else {
            prev.0
        };
        (out, mul_spec(f, prev.1, point))
    }
}

/// Value at `point` of the order-`order` Hasse derivative of the polynomial
/// with coefficients `c` (low degree first).
pub open spec fn hasse_spec(f: FieldSpec, c: Seq<u32>, order: nat, point: Seq<u32>) -> Seq<u32> {
    if order >= c.len() {
        zero_spec(f)
    } else {
        hasse_fold(f, c, order, point, (c.len() - order) as nat).0
    }
}

/// Evaluate the Hasse derivative of order `order` of the polynomial whose
/// coefficients (low degree first) live in the prime subfield.
pub fn evaluate_hasse(
    field: &ExplicitField,
    prime_coefficients: &[u32],
    order: usize,
    point: &FieldElement,
) -> (r: Result<FieldElement, FieldError>)
    requires
        field.wf(),
    ensures
        order >= prime_coefficients@.len() ==> (r matches Ok(e) && e@ == zero_spec(field@)),
        order < prime_coefficients@.len() && !elem_ok(field@, point@) ==> r == Err::<
            FieldElement,
            FieldError,
        >(check_err(field@, point@)),
        order < prime_coefficients@.len() && elem_ok(field@, point@) ==> (r matches Ok(e) && e@
            == hasse_spec(field@, prime_coefficients@, order as nat, point@) && elem_ok(
            field@,
            e@,
        )),
{
    if order >= prime_coefficients.len() {
        return Ok(field.zero());
    }
    let ghost f = field@;
    let ghost c = prime_coefficients@;
    proof {
        field.lemma_wf_facts();
    }
    let p = field.characteristic();
    let mut out = field.zero();
    let mut power = field.one();
    proof {
        lemma_mod_bound(1, f.p as int);
    }
    let mut i: usize = order;
    while i < prime_coefficients.len()
        invariant
            field.wf(),
            f == field@,
            c == prime_coefficients@,
            fs_wf(f),
            p == f.p,
            p >= 2,
            order < c.len(),
            order <= i <= c.len(),
            elem_ok(f, out@),
            elem_ok(f, power@),
            i > order ==> elem_ok(f, point@),
            (out@, power@) == hasse_fold(f, c, order as nat, point@, (i - order) as nat),
        decreases c.len() - i,
    {
        let choose = binomial_mod_prime(i, order, p);
        proof {
            let cv = prime_coefficients@[i as int];
            assert(cv * choose < 0x1_0000_0000_0000_0000) by (nonlinear_arith)
                requires
                    choose < p,
                    p <= 0xffff_ffff,
                    cv <= 0xffff_ffff,
            ;
        }
        let scalar = ((prime_coefficients[i] as u64 * choose as u64) % p as u64) as u32;
        let ghost prev_out = out@;
        let ghost prev_power = power@;
        proof {
            assert(scalar as nat == hasse_scalar(f.p, c, order as nat, i as nat));
        }
        if scalar != 0 {
            let fp = field.from_prime(scalar);
            proof {
                lemma_mod_bound(scalar as int, f.p as int);
            }
            let term = match field.mul(&fp, &power) {
                Ok(t) => t,
                Err(e) => {
                    proof {
                        assert(false);
                    }
                    return Err(e);
                },
            };
            out = match field.add(&out, &term) {
                Ok(t) => t,
                Err(e) => {
                    proof {
                        assert(false);
                    }
                    return Err(e);
                },
            };
        }
        power = match field.mul(&power, point) {
            Ok(t) => t,
            Err(e) => {
                return Err(e);
            },
        };
        proof {
            assert((i + 1 - order) as nat - 1 == (i - order) as nat);
            assert((order + ((i + 1 - order) as nat) - 1) as nat == i as nat);
        }
        i = i + 1;
    }
    Ok(out)
}

} // verus!
