//! Lübeck StandardFF construction of the TECA finite fields.
//!
//! Fields keep the natural tower basis: a field of degree `n` over F_p is a
//! prime-degree extension `K[X]/f` of the standard field of degree `n/r`,
//! where `r` is the largest prime dividing `n`. The tower basis fixes Steinitz
//! numbering and the canonical embeddings.
use crate::field::element::{
    check_err, checked_pow, checked_pow_spec, elem_ok, elems_view, from_rank_spec, fs_wf, is_zero_spec, neg_spec, rank_spec, add_spec, mul_spec, sub_spec, zero_spec, lemma_zero_ok, ExplicitField,
    FieldElement, FieldError, FieldSpec, ModelSpec,
};
use crate::field::hasse::lemma_modpow_step;
use crate::field::orders::{is_prime, spec_prime};
use vstd::arithmetic::div_mod::*;
use vstd::arithmetic::mul::*;
use vstd::arithmetic::power::*;
use vstd::prelude::*;

verus! {

#[derive(Clone, Copy, Debug, PartialEq, Eq, Structural, Hash, PartialOrd, Ord)]
pub struct StandardFieldDescriptor {
    pub characteristic: u32,
    pub degree: u32,
}

#[derive(Clone, Debug, PartialEq, Eq)]
pub enum StandardFfError {
    InvalidDescriptor,
    Arithmetic(FieldError),
    IntegerOverflow,
    CachePoisoned,
    InternalConstruction(&'static str),
}

impl StandardFieldDescriptor {
    /// Outcome of validation: a prime characteristic, a positive degree, and
    /// an order `p^degree` that fits in u128.
    pub open spec fn validate_spec(self) -> Result<(), StandardFfError> {
        if self.degree == 0 || !spec_prime(self.characteristic as int) {
            Err(StandardFfError::InvalidDescriptor)
        } else if checked_pow_spec(self.characteristic as nat, self.degree as nat) is None {
            Err(StandardFfError::IntegerOverflow)
        } else {
            Ok(())
        }
    }

    pub open spec fn order_spec(self) -> nat {
        pow(self.characteristic as int, self.degree as nat) as nat
    }

    pub fn new(characteristic: u32, degree: u32) -> (r: Result<Self, StandardFfError>)
        ensures
            (StandardFieldDescriptor { characteristic, degree }).validate_spec() is Ok ==> r
                == Ok::<Self, StandardFfError>(StandardFieldDescriptor { characteristic, degree }),
            (StandardFieldDescriptor { characteristic, degree }).validate_spec() matches Err(e)
                ==> r == Err::<Self, StandardFfError>(e),
    {
        let descriptor = StandardFieldDescriptor { characteristic, degree };
        match descriptor.validate() {
            Ok(()) => Ok(descriptor),
            Err(e) => Err(e),
        }
    }

    pub fn validate(self) -> (r: Result<(), StandardFfError>)
        ensures
            r == self.validate_spec(),
    {
        if self.degree == 0 || !is_prime(self.characteristic) {
            return Err(StandardFfError::InvalidDescriptor);
        }
        match checked_pow(self.characteristic as u128, self.degree) {
            Some(_) => Ok(()),
            None => Err(StandardFfError::IntegerOverflow),
        }
    }

    /// Field order `p^degree`.
    pub fn order(self) -> (r: Result<u128, StandardFfError>)
        ensures
            self.validate_spec() matches Err(e) ==> r == Err::<u128, StandardFfError>(e),
            self.validate_spec() is Ok ==> r == Ok::<u128, StandardFfError>(
                self.order_spec() as u128,
            ) && self.order_spec() < 0x1_0000_0000_0000_0000_0000_0000_0000_0000,
    {
        match self.validate() {
            Ok(()) => {},
            Err(e) => {
                return Err(e);
            },
        }
        match checked_pow(self.characteristic as u128, self.degree) {
            Some(q) => {
                proof {
                    assert(((self.characteristic as u128) as nat) as int == self.characteristic as int);
                    lemma_pow_nonneg_int(self.characteristic as nat, self.degree as nat);
                }
                Ok(q)
            },
            None => Err(StandardFfError::IntegerOverflow),
        }
    }
}

// ---------------------------------------------------------------------------
// Integer helpers
// ---------------------------------------------------------------------------

/// Greatest common divisor, by Euclid.
pub open spec fn gcd_spec(a: nat, b: nat) -> nat
    decreases b,
{
    if b == 0 {
        a
    } else {
        gcd_spec(b, a % b)
    }
}

proof fn lemma_gcd_positive(a: nat, b: nat)
    requires
        b > 0,
    ensures
        gcd_spec(a, b) > 0,
    decreases b,
{
    reveal_with_fuel(gcd_spec, 2);
    let r = a % b;
    if r > 0 {
        lemma_mod_decreases(a, b);
        lemma_gcd_positive(b, r);
    }
}

proof fn lemma_gcd_one(q: nat)
    requires
        q >= 2,
    ensures
        gcd_spec(1, q) == 1,
{
    lemma_small_mod(1, q);
    assert(1nat % q == 1);
    assert(q % 1 == 0) by {
        lemma_fundamental_div_mod_converse(q as int, 1, q as int, 0);
    }
    reveal_with_fuel(gcd_spec, 3);
}

fn gcd_u128(a: u128, b: u128) -> (r: u128)
    ensures
        r == gcd_spec(a as nat, b as nat),
{
    let ghost g = gcd_spec(a as nat, b as nat);
    let mut a = a;
    let mut b = b;
    while b != 0
        invariant
            gcd_spec(a as nat, b as nat) == g,
        decreases b,
    {
        let r = a % b;
        a = b;
        b = r;
    }
    a
}

fn gcd_u32(a: u32, b: u32) -> (r: u32)
    ensures
        r == gcd_spec(a as nat, b as nat),
{
    let ghost g = gcd_spec(a as nat, b as nat);
    let mut a = a;
    let mut b = b;
    while b != 0
        invariant
            gcd_spec(a as nat, b as nat) == g,
        decreases b,
    {
        let r = a % b;
        a = b;
        b = r;
    }
    a
}

/// `a / gcd(a, b) * b`, truncated to 32 bits.
pub open spec fn lcm_spec(a: nat, b: nat) -> u32 {
    ((a / gcd_spec(a, b)) * b) as u32
}

fn lcm_u32(a: u32, b: u32) -> (r: u32)
    requires
        b > 0,
    ensures
        r == lcm_spec(a as nat, b as nat),
{
    let g = gcd_u32(a, b);
    proof {
        lemma_gcd_positive(a as nat, b as nat);
        lemma_div_is_ordered_by_denominator(a as int, 1, g as int);
        lemma_div_basics(a as int);
        lemma_mul_upper_bound((a / g) as int, 0xffff_ffff, b as int, 0xffff_ffff);
    }
    let wide: u64 = (a / g) as u64 * b as u64;
    wide as u32
}

/// Start of the multiplier search of the affine permutation: about `4q/5`.
pub open spec fn affine_start(q: nat) -> nat {
    (q / 5) * 4 + ((q % 5) * 4) / 5
}

/// Offset of the affine permutation: about `2q/3`.
pub open spec fn affine_addend(q: nat) -> nat {
    (q / 3) * 2 + ((q % 3) * 2) / 3
}

/// The largest value at most `m` that is coprime to `q` (0 if none).
pub open spec fn coprime_below(m: nat, q: nat) -> nat
    decreases m,
{
    if m == 0 || gcd_spec(m, q) == 1 {
        m
    } else {
        coprime_below((m - 1) as nat, q)
    }
}

/// Lübeck's deterministic affine permutation of `[0, q)`.
pub open spec fn affine_shift_spec(q: nat, i: nat) -> nat {
    if q <= 1 {
        0
    } else {
        (coprime_below(affine_start(q), q) * (i % q) + affine_addend(q)) % q
    }
}

proof fn lemma_coprime_below(m: nat, q: nat)
    requires
        m >= 1,
        q >= 2,
    ensures
        1 <= coprime_below(m, q) <= m,
    decreases m,
{
    lemma_gcd_one(q);
    if m > 1 && gcd_spec(m, q) != 1 {
        lemma_coprime_below((m - 1) as nat, q);
    }
}

/// Lübeck's deterministic affine permutation of `[0, q)`.
pub fn standard_affine_shift(q: u128, i: u128) -> (r: u128)
    ensures
        r == affine_shift_spec(q as nat, i as nat),
        q >= 1 ==> r < q,
{
    if q <= 1 {
        return 0;
    }
    let start = (q / 5) * 4 + ((q % 5) * 4) / 5;
    let mut multiplier = start;
    proof {
        assert(start as nat == affine_start(q as nat));
        if q >= 5 {
            assert(q / 5 >= 1);
        } else {
            lemma_small_mod(q as nat, 5);
            assert((q * 4) / 5 >= 1);
        }
        lemma_coprime_below(start as nat, q as nat);
        lemma_gcd_one(q as nat);
    }
    while gcd_u128(multiplier, q) != 1
        invariant
            q >= 2,
            1 <= multiplier <= start,
            coprime_below(multiplier as nat, q as nat) == coprime_below(start as nat, q as nat),
        decreases multiplier,
    {
        proof {
            lemma_gcd_one(q as nat);
        }
        multiplier = multiplier - 1;
    }
    let addend = (q / 3) * 2 + ((q % 3) * 2) / 3;
    proof {
        assert(addend as nat == affine_addend(q as nat));
        assert(addend < q) by (nonlinear_arith)
            requires
                q >= 2,
                addend == (q / 3) * 2 + ((q % 3) * 2) / 3,
        ;
        assert(multiplier < q) by (nonlinear_arith)
            requires
                q >= 2,
                multiplier <= (q / 5) * 4 + ((q % 5) * 4) / 5,
        ;
    }
    let prod = mul_mod_u128(multiplier, i % q, q);
    proof {
        lemma_add_mod_noop(multiplier * (i % q), addend as int, q as int);
        lemma_small_mod(addend as nat, q as nat);
        lemma_small_mod(prod as nat, q as nat);
        if prod >= q - addend {
            lemma_fundamental_div_mod_converse(prod + addend, q as int, 1, prod + addend - q);
        } else {
            lemma_small_mod((prod + addend) as nat, q as nat);
        }
    }
    // (prod + addend) mod q, with both terms below q
    if prod >= q - addend {
        prod - (q - addend)
    } else {
        prod + addend
    }
}

/// `(a * b) mod m` without overflow, by doubling.
fn mul_mod_u128(a: u128, b: u128, modulus: u128) -> (r: u128)
    requires
        modulus > 0,
    ensures
        r == (a * b) % (modulus as int),
        r < modulus,
{
    let ghost m = modulus as int;
    let ghost target = (a * b) % m;
    proof {
        lemma_mul_mod_noop_left(a as int, b as int, m);
    }
    let mut out: u128 = 0;
    let mut a = a % modulus;
    let mut b = b;
    while b != 0
        invariant
            m == modulus as int,
            modulus > 0,
            out < modulus,
            a < modulus,
            (out + a * b) % m == target,
        decreases b,
    {
        let ghost a0 = a as int;
        let ghost b0 = b as int;
        let ghost o0 = out as int;
        let ghost k = b0 / 2;
        let ghost o1 = o0 + a0 * (b0 % 2);
        let ghost rest = (2 * a0) * k;
        proof {
            assert(b & 1 == b % 2) by (bit_vector);
            assert(b >> 1 == b / 2) by (bit_vector);
            assert(a0 * b0 == a0 * (b0 % 2) + (2 * a0) * k) by (nonlinear_arith)
                requires
                    b0 == 2 * k + b0 % 2,
            ;
            assert(target == (o1 + rest) % m);
        }
        if b & 1 != 0 {
            out = if out >= modulus - a {
                out - (modulus - a)
            } else {
                out + a
            };
            proof {
                if o0 + a0 >= m {
                    lemma_fundamental_div_mod_converse(o0 + a0, m, 1, o0 + a0 - m);
                } else {
                    lemma_small_mod((o0 + a0) as nat, m as nat);
                }
                assert(b0 % 2 == 1);
                lemma_mul_basics(a0);
                assert(o1 == o0 + a0);
                assert(out as int == o1 % m);
            }
        } else {
            proof {
                lemma_mul_basics(a0);
                lemma_small_mod(o0 as nat, m as nat);
                assert(out as int == o1 % m);
            }
        }
        b = b >> 1;
        if b != 0 {
            a = if a >= modulus - a {
                a - (modulus - a)
            } else {
                a + a
            };
            proof {
                if 2 * a0 >= m {
                    lemma_fundamental_div_mod_converse(2 * a0, m, 1, 2 * a0 - m);
                } else {
                    lemma_small_mod((2 * a0) as nat, m as nat);
                }
                assert(a as int == (2 * a0) % m);
                let y = (a as int) * k;
                lemma_mul_mod_noop_left(2 * a0, k, m);
                assert(y % m == rest % m);
                lemma_add_mod_noop(o1 % m, y, m);
                lemma_add_mod_noop(o1, rest, m);
                lemma_mod_twice(o1, m);
                assert((out + a * b) % m == (o1 + rest) % m);
            }
        } else {
            proof {
                assert(k == 0);
                lemma_mul_basics(2 * a0);
                lemma_mul_basics(a as int);
                lemma_mod_twice(o1, m);
                assert((out + a * b) % m == (o1 + rest) % m);
            }
        }
    }
    proof {
        lemma_small_mod(out as nat, modulus as nat);
        lemma_mul_basics(a as int);
    }
    out
}

/// Base-`base` digits of `value`, least significant first, `width` of them
/// (all zero for a base below 2).
pub open spec fn qadic_digits_spec(value: nat, base: nat, width: nat) -> Seq<u128> {
    Seq::new(
        width,
        |i: int|
            if base <= 1 {
                0u128
            } else {
                ((value / (pow(base as int, i as nat) as nat)) % base) as u128
            },
    )
}

fn qadic_digits(value: u128, base: u128, width: usize) -> (r: Vec<u128>)
    ensures
        r@ == qadic_digits_spec(value as nat, base as nat, width as nat),
{
    let ghost v0 = value as nat;
    let mut value = value;
    let mut out: Vec<u128> = Vec::new();
    let mut i: usize = 0;
    proof {
        reveal(pow);
        lemma_div_basics(v0 as int);
        assert(pow(base as int, 0) == 1);
        assert(out@ =~= qadic_digits_spec(v0, base as nat, width as nat).take(0));
    }
    while i < width
        invariant
            i <= width,
            out@ == qadic_digits_spec(v0, base as nat, width as nat).take(i as int),
            base > 1 ==> value as nat == v0 / (pow(base as int, i as nat) as nat),
            base > 1 ==> pow(base as int, i as nat) > 0,
        decreases width - i,
    {
        let d = if base <= 1 {
            0
        } else {
            value % base
        };
        out.push(d);
        if base > 1 {
            proof {
                let pw = pow(base as int, i as nat);
                lemma_div_denominator(v0 as int, pw, base as int);
                reveal(pow);
                lemma_mul_is_commutative(pw, base as int);
                lemma_mul_strictly_positive(pw, base as int);
            }
            value = value / base;
        }
        i = i + 1;
        proof {
            assert(out@ =~= qadic_digits_spec(v0, base as nat, width as nat).take(i as int));
        }
    }
    proof {
        assert(out@ =~= qadic_digits_spec(v0, base as nat, width as nat));
    }
    out
}

/// `sum digits[i] * base^i`.
pub open spec fn digits_value(digits: Seq<u128>, base: nat) -> nat
    decreases digits.len(),
{
    if digits.len() == 0 {
        0
    } else {
        digits_value(digits.drop_last(), base) + (digits.last() as nat) * (pow(
            base as int,
            (digits.len() - 1) as nat,
        ) as nat)
    }
}

/// The places `base^i` for `i < len` fit in u128.
pub open spec fn places_fit(base: nat, len: nat) -> bool {
    forall|i: nat| i < len ==> #[trigger] pow(base as int, i) < 0x1_0000_0000_0000_0000_0000_0000_0000_0000
}

/// A prefix of the digits has at most the value of all of them.
proof fn lemma_digits_value_prefix(d: Seq<u128>, base: nat, k: nat)
    requires
        k <= d.len(),
    ensures
        digits_value(d.take(k as int), base) <= digits_value(d, base),
    decreases d.len() - k,
{
    if k < d.len() {
        let t = d.take((k + 1) as int);
        assert(t.drop_last() =~= d.take(k as int));
        lemma_pow_nonneg_int(base, k);
        lemma_digits_value_prefix(d, base, k + 1);
    } else {
        assert(d.take(k as int) =~= d);
    }
}

proof fn lemma_pow_nonneg_int(b: nat, e: nat)
    ensures
        pow(b as int, e) >= 0,
{
    if b == 0 {
        if e == 0 {
            lemma_pow0(0);
        } else {
            lemma0_pow(e);
        }
    } else {
        lemma_pow_positive(b as int, e);
    }
}

fn value_base(digits: &[u128], base: u128) -> (r: Result<u128, StandardFfError>)
    ensures
        r is Ok <==> places_fit(base as nat, digits@.len()) && digits_value(digits@, base as nat)
            < 0x1_0000_0000_0000_0000_0000_0000_0000_0000,
        r matches Ok(v) ==> v == digits_value(digits@, base as nat),
        r matches Err(e) ==> e == StandardFfError::IntegerOverflow,
{
    let ghost d = digits@;
    let ghost b = base as nat;
    let mut place: u128 = 1;
    let mut out: u128 = 0;
    let mut index: usize = 0;
    proof {
        reveal(pow);
        assert(d.take(0) =~= Seq::<u128>::empty());
    }
    while index < digits.len()
        invariant
            d == digits@,
            b == base as nat,
            index <= d.len(),
            out as nat == digits_value(d.take(index as int), b),
            index < d.len() ==> place as int == pow(b as int, index as nat),
            forall|i: nat| i < index ==> #[trigger] pow(b as int, i) < 0x1_0000_0000_0000_0000_0000_0000_0000_0000,
        decreases d.len() - index,
    {
        let ghost t = d.take((index + 1) as int);
        proof {
            assert(t.drop_last() =~= d.take(index as int));
            assert(t.last() == d[index as int]);
            lemma_digits_value_prefix(d, b, (index + 1) as nat);
            lemma_pow_nonneg_int(b, index as nat);
        }
        let term = match digits[index].checked_mul(place) {
            Some(t) => t,
            None => {
                return Err(StandardFfError::IntegerOverflow);
            },
        };
        out = match out.checked_add(term) {
            Some(v) => v,
            None => {
                return Err(StandardFfError::IntegerOverflow);
            },
        };
        if index + 1 != digits.len() {
            place = match place.checked_mul(base) {
                Some(v) => v,
                None => {
                    proof {
                        reveal(pow);
                        assert(pow(b as int, (index + 1) as nat) == b * pow(b as int, index as nat));
                        lemma_mul_is_commutative(place as int, base as int);
                        assert(pow(b as int, (index + 1) as nat) >= 0x1_0000_0000_0000_0000_0000_0000_0000_0000);
                        assert(!places_fit(b, d.len()));
                    }
                    return Err(StandardFfError::IntegerOverflow);
                },
            };
            proof {
                reveal(pow);
                lemma_mul_is_commutative(b as int, pow(b as int, index as nat));
            }
        }
        index = index + 1;
    }
    proof {
        assert(d.take(d.len() as int) =~= d);
    }
    Ok(out)
}

// ---------------------------------------------------------------------------
// Trial-division factorization and the tower monomial degrees
// ---------------------------------------------------------------------------

/// `n` with every factor `p` removed, and the number removed.
pub open spec fn strip(n: nat, p: nat) -> (nat, nat)
    decreases n,
{
    if p >= 2 && n > 0 && n % p == 0 {
        proof {
            lemma_div_decreases(n as int, p as int);
        }
        let s = strip(n / p, p);
        (s.0, s.1 + 1)
    } else {
        (n, 0)
    }
}

/// Next trial divisor: 2, 3, 5, 7, 9, ...
pub open spec fn next_trial(p: nat) -> nat {
    if p == 2 {
        3
    } else {
        p + 2
    }
}

/// Factorization of `n` by trial division from `p` upward: `(prime, exponent)`
/// pairs in increasing prime order.
pub open spec fn factor_from(n: nat, p: nat) -> Seq<(u32, u32)>
    decreases n, n - p,
{
    if p < 2 {
        Seq::empty()
    } else if p * p > n {
        if n > 1 {
            seq![(n as u32, 1u32)]
        } else {
            Seq::empty()
        }
    } else if n % p == 0 {
        proof {
            assert(n > 0) by (nonlinear_arith)
                requires
                    p >= 2,
                    p * p <= n,
            ;
            lemma_strip(n, p);
        }
        let s = strip(n, p);
        seq![(p as u32, s.1 as u32)] + factor_from(s.0, next_trial(p))
    } else {
        proof {
            lemma_next_trial_bound(n, p);
        }
        factor_from(n, next_trial(p))
    }
}

pub proof fn lemma_next_trial_bound(n: nat, p: nat)
    requires
        p >= 2,
        p * p <= n,
    ensures
        next_trial(p) <= n,
        next_trial(p) > p,
{
    assert(p + 2 <= p * p || p == 2) by (nonlinear_arith)
        requires
            p >= 2,
    ;
}

/// `strip` removes exactly a power of `p`, and leaves a cofactor not
/// divisible by `p`.
pub proof fn lemma_strip(n: nat, p: nat)
    requires
        p >= 2,
        n > 0,
    ensures
        strip(n, p).0 * pow(p as int, strip(n, p).1) == n,
        strip(n, p).0 > 0,
        strip(n, p).0 % p != 0,
        n % p == 0 ==> strip(n, p).1 >= 1 && strip(n, p).0 < n,
        strip(n, p).0 <= n,
    decreases n,
{
    reveal(pow);
    if n % p == 0 {
        lemma_div_decreases(n as int, p as int);
        lemma_fundamental_div_mod(n as int, p as int);
        assert(n / p > 0) by {
            if n / p == 0 {
                lemma_mul_basics(p as int);
            }
        }
        lemma_strip(n / p, p);
        let s = strip(n / p, p);
        let pw = pow(p as int, s.1);
        assert(strip(n, p) == (s.0, s.1 + 1));
        assert(pow(p as int, s.1 + 1) == p * pw);
        assert(s.0 * pw == n / p);
        lemma_mul_is_associative(s.0 as int, pw, p as int);
        lemma_mul_is_commutative(pw, p as int);
        lemma_mul_is_commutative(p as int, (n / p) as int);
        assert(n == (n / p) * p);
        assert(s.0 * (p * pw) == n);
    } else {
        lemma_mul_basics(n as int);
    }
}

/// Every factor `(q, e)` has `q >= 2`, `e >= 1` and `q^e` dividing `n`;
/// and `n > 1` has at least one factor.
pub proof fn lemma_factor_facts(n: nat, p: nat)
    requires
        p >= 2,
        n > 0,
        n < 0x1_0000_0000,
    ensures
        n > 1 ==> factor_from(n, p).len() > 0,
        forall|i: int|
            0 <= i < factor_from(n, p).len() ==> {
                let (q, e) = #[trigger] factor_from(n, p)[i];
                &&& q >= 2
                &&& e >= 1
                &&& n % (pow(q as int, e as nat) as nat) == 0
                &&& pow(q as int, e as nat) > 0
            },
    decreases n, n - p,
{
    let f = factor_from(n, p);
    if p * p > n {
        if n > 1 {
            lemma_pow1(n as int);
            lemma_mod_self_0(n as int);
        }
    } else if n % p == 0 {
        lemma_strip(n, p);
        let s = strip(n, p);
        lemma_factor_facts(s.0, next_trial(p));
        let tail = factor_from(s.0, next_trial(p));
        assert(f == seq![(p as u32, s.1 as u32)] + tail);
        assert(p < 0x1_0000_0000) by (nonlinear_arith)
            requires
                p >= 2,
                p * p <= n,
                n < 0x1_0000_0000,
        ;
        assert(s.1 < 0x1_0000_0000) by {
            lemma_pow_at_least_two(p, s.1);
            lemma_pow2_exceeds(s.1);
            lemma_pow_positive(p as int, s.1);
            lemma_mul_le_nat(1, s.0, pow(p as int, s.1) as nat, pow(p as int, s.1) as nat);
        }
        lemma_pow_positive(p as int, s.1);
        let pp = pow(p as int, s.1);
        assert forall|i: int| 0 <= i < f.len() implies {
            let (q, e) = #[trigger] f[i];
            &&& q >= 2
            &&& e >= 1
            &&& n % (pow(q as int, e as nat) as nat) == 0
            &&& pow(q as int, e as nat) > 0
        } by {
            if i == 0 {
                assert(f[0] == (p as u32, s.1 as u32));
                lemma_mod_multiples_basic(s.0 as int, pp);
            } else {
                assert(f[i] == tail[i - 1]);
                let q = tail[i - 1].0;
                let e = tail[i - 1].1;
                let pq = pow(q as int, e as nat);
                assert(pq > 0);
                assert(s.0 % (pq as nat) == 0);
                lemma_fundamental_div_mod(s.0 as int, pq);
                let c = s.0 as int / pq;
                assert(s.0 == pq * c);
                lemma_mul_is_associative(pq, c, pp);
                lemma_mul_is_commutative(c * pp, pq);
                assert(n == (c * pp) * pq);
                lemma_mod_multiples_basic(c * pp, pq);
            }
        }
    } else {
        lemma_next_trial_bound(n, p);
        lemma_factor_facts(n, next_trial(p));
    }
}

proof fn lemma_pow2_exceeds(e: nat)
    ensures
        pow(2, e) > e,
    decreases e,
{
    reveal(pow);
    if e > 0 {
        lemma_pow2_exceeds((e - 1) as nat);
    }
}

proof fn lemma_pow_at_least_two(p: nat, e: nat)
    requires
        p >= 2,
    ensures
        pow(p as int, e) >= pow(2, e),
{
    lemma_pow_increases_base_nat(2, p, e);
}

proof fn lemma_pow_increases_base_nat(a: nat, b: nat, e: nat)
    requires
        1 <= a <= b,
    ensures
        pow(a as int, e) <= pow(b as int, e),
    decreases e,
{
    reveal(pow);
    if e > 0 {
        lemma_pow_increases_base_nat(a, b, (e - 1) as nat);
        lemma_pow_positive(a as int, (e - 1) as nat);
        lemma_pow_positive(b as int, (e - 1) as nat);
        lemma_mul_le_nat(a, b, pow(a as int, (e - 1) as nat) as nat, pow(b as int, (e - 1) as nat) as nat);
    }
}

proof fn lemma_mul_le_nat(a: nat, b: nat, c: nat, d: nat)
    requires
        a <= b,
        c <= d,
    ensures
        a * c <= b * d,
{
    lemma_mul_upper_bound(a as int, b as int, c as int, d as int);
}

/// Prime factorization by trial division, primes increasing.
fn factorization(n: u32) -> (r: Vec<(u32, u32)>)
    ensures
        r@ == factor_from(n as nat, 2),
{
    let ghost n0 = n as nat;
    let mut out: Vec<(u32, u32)> = Vec::new();
    let mut n = n;
    let mut p: u32 = 2;
    proof {
        assert(out@ + factor_from(n as nat, 2) =~= factor_from(n0, 2));
    }
    while p as u64 * p as u64 <= n as u64
        invariant
            p >= 2,
            p <= 65537,
            p * p <= 0xffff_ffff_ffff_ffff,
            out@ + factor_from(n as nat, p as nat) == factor_from(n0, 2),
        decreases n, 0x1_0000_0000 - p,
    {
        let ghost nb = n as nat;
        proof {
            lemma_next_trial_bound(n as nat, p as nat);
        }
        if n % p == 0 {
            let mut exponent: u32 = 0;
            proof {
                lemma_strip(nb, p as nat);
            }
            while n % p == 0
                invariant
                    p >= 2,
                    n > 0,
                    strip(n as nat, p as nat).0 == strip(nb, p as nat).0,
                    strip(n as nat, p as nat).1 + exponent == strip(nb, p as nat).1,
                    exponent + n <= nb,
                    nb <= 0xffff_ffff,
                decreases n,
            {
                proof {
                    lemma_div_decreases(n as int, p as int);
                    lemma_fundamental_div_mod(n as int, p as int);
                    assert(n / p > 0) by {
                        if n / p == 0 {
                            lemma_mul_basics(p as int);
                        }
                    }
                    assert(n / p <= n - 1);
                }
                n = n / p;
                exponent = exponent + 1;
            }
            out.push((p, exponent));
            proof {
                let s = strip(nb, p as nat);
                assert(s.0 == n as nat);
                assert(s.1 == exponent as nat);
                assert(factor_from(nb, p as nat) == seq![(p, exponent)] + factor_from(
                    n as nat,
                    next_trial(p as nat),
                ));
                assert(out@ + factor_from(n as nat, next_trial(p as nat)) =~= factor_from(n0, 2));
            }
        }
        proof {
            assert(p <= 65535) by (nonlinear_arith)
                requires
                    p * p <= nb,
                    nb <= 0xffff_ffff,
                    p >= 2,
            ;
        }
        p = if p == 2 {
            3
        } else {
            p + 2
        };
        proof {
            lemma_mul_upper_bound(p as int, 65537, p as int, 65537);
        }
    }
    if n > 1 {
        out.push((n, 1));
    }
    proof {
        assert(out@ =~= factor_from(n0, 2));
    }
    out
}

/// `c` copies of `s`, concatenated.
pub open spec fn repeat_seq(s: Seq<u32>, c: nat) -> Seq<u32>
    decreases c,
{
    if c == 0 {
        Seq::empty()
    } else {
        repeat_seq(s, (c - 1) as nat) + s
    }
}

/// Degrees over F_p of each tower-basis monomial of the degree-`n` standard
/// field, in Steinitz digit order: with `(r, k)` the last (largest-prime)
/// factor of `n`, the monomials of the degree-`n/r` field, followed by `r - 1`
/// copies of their degrees lifted by `lcm(_, r^k)`.
pub open spec fn std_mon_degrees_spec(n: nat) -> Seq<u32>
    decreases n,
{
    if n <= 1 {
        seq![1u32]
    } else {
        let f = factor_from(n, 2);
        if f.len() == 0 || f.last().0 < 2 || f.last().0 > n {
            Seq::empty()
        } else {
            let r = f.last().0 as nat;
            let k = f.last().1 as nat;
            proof {
                lemma_div_decreases(n as int, r as int);
            }
            let base = std_mon_degrees_spec(n / r);
            let ext = pow(r as int, k) as nat;
            let lifted = base.map_values(|d: u32| lcm_spec(d as nat, ext));
            base + repeat_seq(lifted, (r - 1) as nat)
        }
    }
}

proof fn lemma_repeat_len(s: Seq<u32>, c: nat)
    ensures
        repeat_seq(s, c).len() == s.len() * c,
    decreases c,
{
    if c > 0 {
        lemma_repeat_len(s, (c - 1) as nat);
        assert(repeat_seq(s, c) == repeat_seq(s, (c - 1) as nat) + s);
        assert(repeat_seq(s, c).len() == repeat_seq(s, (c - 1) as nat).len() + s.len());
        let l = s.len() as int;
        let cc = c as int;
        assert(l * (cc - 1) + l == l * cc) by (nonlinear_arith);
    } else {
        lemma_mul_basics(s.len() as int);
    }
}

/// The last factor `(r, k)` of `n > 1`: `r >= 2`, `k >= 1`, `r^k` divides `n`.
proof fn lemma_last_factor(n: nat)
    requires
        1 < n < 0x1_0000_0000,
    ensures
        factor_from(n, 2).len() > 0,
        factor_from(n, 2).last().0 >= 2,
        factor_from(n, 2).last().1 >= 1,
        n % (pow(factor_from(n, 2).last().0 as int, factor_from(n, 2).last().1 as nat) as nat) == 0,
        pow(factor_from(n, 2).last().0 as int, factor_from(n, 2).last().1 as nat) <= n,
        n % (factor_from(n, 2).last().0 as nat) == 0,
        factor_from(n, 2).last().0 <= n,
{
    lemma_factor_facts(n, 2);
    let f = factor_from(n, 2);
    let (r, k) = f[f.len() - 1];
    let pk = pow(r as int, k as nat);
    assert(n % (pk as nat) == 0);
    lemma_fundamental_div_mod(n as int, pk);
    let c = n as int / pk;
    assert(n == pk * c);
    assert(c >= 1) by {
        if c <= 0 {
            lemma_mul_basics(pk);
            lemma_mul_le_nat(0, 0, 0, 0);
            assert(pk * c <= 0) by (nonlinear_arith)
                requires
                    pk > 0,
                    c <= 0,
            ;
        }
    }
    lemma_mul_le_nat(1, c as nat, pk as nat, pk as nat);
    lemma_mul_is_commutative(c, pk);
    // r divides r^k, which divides n
    reveal(pow);
    assert(pk == r * pow(r as int, (k - 1) as nat));
    lemma_pow_positive(r as int, (k - 1) as nat);
    let rest = pow(r as int, (k - 1) as nat) * c;
    lemma_mul_is_associative(r as int, pow(r as int, (k - 1) as nat), c);
    assert(n == r * rest);
    lemma_mul_is_commutative(r as int, rest);
    lemma_mod_multiples_basic(rest, r as int);
    assert(rest >= 1) by (nonlinear_arith)
        requires
            rest == pow(r as int, (k - 1) as nat) * c,
            pow(r as int, (k - 1) as nat) > 0,
            c >= 1,
    ;
    lemma_mul_le_nat(1, rest as nat, r as nat, r as nat);
}

pub proof fn lemma_std_mon_degrees_len(n: nat)
    requires
        1 <= n < 0x1_0000_0000,
    ensures
        std_mon_degrees_spec(n).len() == n,
    decreases n,
{
    if n > 1 {
        lemma_last_factor(n);
        let f = factor_from(n, 2);
        let r = f.last().0 as nat;
        lemma_div_decreases(n as int, r as int);
        lemma_fundamental_div_mod(n as int, r as int);
        assert(n / r >= 1) by {
            if n / r == 0 {
                lemma_mul_basics(r as int);
            }
        }
        lemma_std_mon_degrees_len(n / r);
        let base = std_mon_degrees_spec(n / r);
        let lifted = base.map_values(|d: u32| lcm_spec(d as nat, pow(r as int, f.last().1 as nat) as nat));
        lemma_repeat_len(lifted, (r - 1) as nat);
        assert((n / r) + (n / r) * (r - 1) == (n / r) * r) by (nonlinear_arith);
        lemma_mul_is_commutative(r as int, (n / r) as int);
    }
}

/// Degrees over F_p of each tower-basis monomial, in Steinitz digit order.
pub fn std_mon_degrees(n: u32) -> (r: Vec<u32>)
    requires
        n >= 1,
    ensures
        r@ == std_mon_degrees_spec(n as nat),
        r@.len() == n,
    decreases n,
{
    proof {
        lemma_std_mon_degrees_len(n as nat);
    }
    if n == 1 {
        let mut v: Vec<u32> = Vec::new();
        v.push(1);
        proof {
            assert(v@ =~= seq![1u32]);
        }
        return v;
    }
    let factors = factorization(n);
    proof {
        lemma_last_factor(n as nat);
    }
    let (r, k) = factors[factors.len() - 1];
    let base_n = n / r;
    proof {
        lemma_div_decreases(n as int, r as int);
        lemma_fundamental_div_mod(n as int, r as int);
        assert(base_n >= 1) by {
            if n / r == 0 {
                lemma_mul_basics(r as int);
            }
        }
    }
    let mut result = std_mon_degrees(base_n);
    let ghost base = result@;
    let extension_degree: u32 = match checked_pow(r as u128, k) {
        Some(v) => {
            proof {
                assert(((r as u128) as nat) as int == r as int);
                lemma_pow_positive(r as int, k as nat);
            }
            v as u32
        },
        None => {
            proof {
                assert(((r as u128) as nat) as int == r as int);
            }
            return Vec::new();
        },
    };
    let ghost ext = pow(r as int, k as nat) as nat;
    let mut lifted: Vec<u32> = Vec::new();
    let mut i: usize = 0;
    while i < result.len()
        invariant
            result@ == base,
            extension_degree as nat == ext,
            ext > 0,
            i <= base.len(),
            lifted@ == base.take(i as int).map_values(|d: u32| lcm_spec(d as nat, ext)),
        decreases base.len() - i,
    {
        let l = lcm_u32(result[i], extension_degree);
        lifted.push(l);
        i = i + 1;
        proof {
            assert(lifted@ =~= base.take(i as int).map_values(|d: u32| lcm_spec(d as nat, ext)));
        }
    }
    proof {
        assert(base.take(base.len() as int) =~= base);
    }
    let mut copies: u32 = 1;
    while copies < r
        invariant
            1 <= copies <= r,
            result@ == base + repeat_seq(lifted@, (copies - 1) as nat),
        decreases r - copies,
    {
        let mut j: usize = 0;
        let ghost before = result@;
        while j < lifted.len()
            invariant
                j <= lifted@.len(),
                result@ == before + lifted@.take(j as int),
            decreases lifted@.len() - j,
        {
            result.push(lifted[j]);
            j = j + 1;
            proof {
                assert(result@ =~= before + lifted@.take(j as int));
            }
        }
        proof {
            assert(lifted@.take(lifted@.len() as int) =~= lifted@);
            assert(result@ =~= base + repeat_seq(lifted@, copies as nat));
        }
        copies = copies + 1;
    }
    result
}

/// Positions, in order, of the monomials whose degree divides `n`.
pub open spec fn divisor_positions(degs: Seq<u32>, n: nat) -> Seq<int>
    decreases degs.len(),
{
    if degs.len() == 0 {
        Seq::empty()
    } else {
        let prev = divisor_positions(degs.drop_last(), n);
        if degs.last() != 0 && n % (degs.last() as nat) == 0 {
            prev.push(degs.len() - 1)
        } else {
            prev
        }
    }
}

/// Width-`m` digit vector with `digits[j]` written at `map[j]` for `j < count`.
pub open spec fn placed(m: nat, digits: Seq<u128>, map: Seq<int>, count: nat) -> Seq<u128>
    decreases count,
{
    if count == 0 {
        Seq::new(m, |i: int| 0u128)
    } else {
        placed(m, digits, map, (count - 1) as nat).update(map[count - 1], digits[count - 1])
    }
}

/// The canonical StandardFF embedding of Steinitz number `rank` of FF(p, n)
/// into FF(p, m): the base-p digits of `rank` move to the tower monomials of
/// FF(p, m) whose degree divides `n`.
pub open spec fn embed_spec(p: u32, n: u32, m: u32, rank: u128) -> Result<u128, StandardFfError> {
    if n == 0 || m == 0 || m % n != 0 {
        Err(StandardFfError::InvalidDescriptor)
    } else if checked_pow_spec(p as nat, n as nat) is None {
        Err(StandardFfError::IntegerOverflow)
    } else if rank >= pow(p as int, n as nat) {
        Err(
            StandardFfError::Arithmetic(
                FieldError::RankOutOfRange {
                    rank,
                    cardinality: pow(p as int, n as nat) as u128,
                },
            ),
        )
    } else if n == m || rank == 0 {
        Ok(rank)
    } else {
        let digits = qadic_digits_spec(rank as nat, p as nat, n as nat);
        let map = divisor_positions(std_mon_degrees_spec(m as nat), n as nat);
        if map.len() < digits.len() {
            Err(StandardFfError::InternalConstruction("invalid StandardFF monomial embedding"))
        } else {
            let out = placed(m as nat, digits, map, n as nat);
            if places_fit(p as nat, m as nat) && digits_value(out, p as nat)
                < 0x1_0000_0000_0000_0000_0000_0000_0000_0000 {
                Ok(digits_value(out, p as nat) as u128)
            } else {
                Err(StandardFfError::IntegerOverflow)
            }
        }
    }
}

proof fn lemma_divisor_positions(degs: Seq<u32>, n: nat)
    ensures
        forall|i: int|
            0 <= i < divisor_positions(degs, n).len() ==> 0 <= #[trigger] divisor_positions(
                degs,
                n,
            )[i] < degs.len(),
        divisor_positions(degs, n).len() <= degs.len(),
    decreases degs.len(),
{
    if degs.len() > 0 {
        lemma_divisor_positions(degs.drop_last(), n);
    }
}

/// Canonical StandardFF embedding of a Steinitz number from FF(p, n) into
/// FF(p, m), `n | m`, expressed as the destination Steinitz number.
pub fn embed_steinitz(p: u32, n: u32, m: u32, rank: u128) -> (r: Result<u128, StandardFfError>)
    ensures
        embed_spec(p, n, m, rank) matches Err(StandardFfError::InternalConstruction(_)) ==> (r matches Err(
            StandardFfError::InternalConstruction(_),
        )),
        !(embed_spec(p, n, m, rank) matches Err(StandardFfError::InternalConstruction(_))) ==> r
            == embed_spec(p, n, m, rank),
{
    if n == 0 || m == 0 || m % n != 0 {
        return Err(StandardFfError::InvalidDescriptor);
    }
    let source_size = match checked_pow(p as u128, n) {
        Some(v) => v,
        None => {
            proof {
                assert(((p as u128) as nat) == p as nat);
            }
            return Err(StandardFfError::IntegerOverflow);
        },
    };
    proof {
        assert(((p as u128) as nat) as int == p as int);
        lemma_pow_nonneg_int(p as nat, n as nat);
        assert(source_size as int == pow(p as int, n as nat));
    }
    if rank >= source_size {
        return Err(
            StandardFfError::Arithmetic(
                FieldError::RankOutOfRange { rank, cardinality: source_size },
            ),
        );
    }
    if n == m || rank == 0 {
        return Ok(rank);
    }
    let digits = qadic_digits(rank, p as u128, n as usize);
    let degrees = std_mon_degrees(m);
    let ghost degs = degrees@;
    let mut map: Vec<usize> = Vec::new();
    let mut index: usize = 0;
    proof {
        assert(degs.take(0) =~= Seq::<u32>::empty());
        assert(map@.map_values(|x: usize| x as int) =~= divisor_positions(degs.take(0), n as nat));
    }
    while index < degrees.len()
        invariant
            degs == degrees@,
            n >= 1,
            index <= degs.len(),
            map@.map_values(|x: usize| x as int) == divisor_positions(degs.take(index as int), n as nat),
        decreases degs.len() - index,
    {
        let d = degrees[index];
        proof {
            assert(degs.take((index + 1) as int).drop_last() =~= degs.take(index as int));
        }
        if d != 0 && n % d == 0 {
            map.push(index);
        }
        index = index + 1;
        proof {
            assert(map@.map_values(|x: usize| x as int) =~= divisor_positions(
                degs.take(index as int),
                n as nat,
            ));
        }
    }
    let ghost mp = map@.map_values(|x: usize| x as int);
    proof {
        assert(degs.take(degs.len() as int) =~= degs);
        lemma_divisor_positions(degs, n as nat);
    }
    if map.len() < digits.len() {
        return Err(StandardFfError::InternalConstruction("invalid StandardFF monomial embedding"));
    }
    let mut output_digits: Vec<u128> = Vec::new();
    let mut i: usize = 0;
    while i < m as usize
        invariant
            i <= m,
            output_digits@ == Seq::new(i as nat, |k: int| 0u128),
        decreases m - i,
    {
        output_digits.push(0);
        i = i + 1;
        proof {
            assert(output_digits@ =~= Seq::new(i as nat, |k: int| 0u128));
        }
    }
    let mut j: usize = 0;
    proof {
        assert(output_digits@ =~= placed(m as nat, digits@, mp, 0));
    }
    while j < digits.len()
        invariant
            j <= digits@.len(),
            digits@.len() == n,
            map@.len() >= digits@.len(),
            mp == map@.map_values(|x: usize| x as int),
            degs.len() == m,
            forall|t: int| 0 <= t < mp.len() ==> 0 <= #[trigger] mp[t] < degs.len(),
            output_digits@.len() == m,
            output_digits@ == placed(m as nat, digits@, mp, j as nat),
        decreases digits@.len() - j,
    {
        proof {
            assert(mp[j as int] == map@[j as int] as int);
        }
        let position = map[j];
        output_digits.set(position, digits[j]);
        j = j + 1;
    }
    value_base(&output_digits, p as u128)
}

/// `base^exponent mod modulus`.
fn pow_mod_u32(base: u32, exponent: u32, modulus: u32) -> (r: u32)
    requires
        modulus >= 2,
    ensures
        r == pow(base as int, exponent as nat) % (modulus as int),
{
    let ghost m = modulus as int;
    let m64 = modulus as u64;
    let mut out: u64 = 1;
    let mut cur: u64 = (base % modulus) as u64;
    let mut e = exponent;
    proof {
        lemma_pow_mod_noop(base as int, exponent as nat, m);
        lemma_mul_basics(pow(cur as int, exponent as nat));
        lemma_small_mod(1, modulus as nat);
    }
    while e != 0
        invariant
            m == modulus as int,
            m64 == modulus as u64,
            modulus >= 2,
            out < m64,
            cur < m64,
            (out * pow(cur as int, e as nat)) % m == pow(base as int, exponent as nat) % m,
        decreases e,
    {
        proof {
            lemma_modpow_step(out as int, cur as int, e as nat, m);
            assert(e & 1 == e % 2) by (bit_vector);
            assert(e >> 1 == e / 2) by (bit_vector);
            lemma_mul_upper_bound(out as int, 0xffff_ffff, cur as int, 0xffff_ffff);
            lemma_mul_upper_bound(cur as int, 0xffff_ffff, cur as int, 0xffff_ffff);
            reveal(pow);
            lemma_pow1(cur as int);
            lemma_small_mod(out as nat, modulus as nat);
        }
        if e & 1 != 0 {
            out = out * cur % m64;
        } else {
            proof {
                assert((out * pow(cur as int, 0)) % m == out);
            }
        }
        e = e >> 1;
        if e != 0 {
            cur = cur * cur % m64;
        } else {
            proof {
                assert(pow((cur * cur) % m, 0) == 1);
            }
        }
    }
    proof {
        reveal(pow);
        lemma_small_mod(out as nat, modulus as nat);
    }
    out as u32
}

// ---------------------------------------------------------------------------
// Polynomials over an explicit field (coefficient vectors, low degree first)
// ---------------------------------------------------------------------------

pub open spec fn poly_ok(f: FieldSpec, v: Seq<FieldElement>) -> bool {
    forall|i: int| 0 <= i < v.len() ==> elem_ok(f, #[trigger] v[i]@)
}

/// No zero leading coefficient.
pub open spec fn trimmed(v: Seq<FieldElement>) -> bool {
    v.len() == 0 || !is_zero_spec(v.last()@)
}

/// Length after dropping zero leading coefficients.
pub open spec fn trim_len(v: Seq<Seq<u32>>) -> nat
    decreases v.len(),
{
    if v.len() == 0 {
        0
    } else if is_zero_spec(v.last()) {
        trim_len(v.drop_last())
    } else {
        v.len()
    }
}

proof fn lemma_trim_len(v: Seq<Seq<u32>>)
    ensures
        trim_len(v) <= v.len(),
        trim_len(v) == 0 || !is_zero_spec(v[trim_len(v) - 1]),
        forall|i: int| trim_len(v) <= i < v.len() ==> is_zero_spec(#[trigger] v[i]),
        forall|k: nat| trim_len(v) <= k <= v.len() ==> trim_len(#[trigger] v.take(k as int)) == trim_len(v),
    decreases v.len(),
{
    if v.len() > 0 {
        if is_zero_spec(v.last()) {
            lemma_trim_len(v.drop_last());
            assert forall|i: int| trim_len(v) <= i < v.len() implies is_zero_spec(#[trigger] v[i]) by {
                if i < v.len() - 1 {
                    assert(v[i] == v.drop_last()[i]);
                }
            }
            assert forall|k: nat| trim_len(v) <= k <= v.len() implies trim_len(#[trigger] v.take(k as int)) == trim_len(v) by {
                if k == v.len() {
                    assert(v.take(k as int) =~= v);
                } else {
                    assert(v.take(k as int) =~= v.drop_last().take(k as int));
                }
            }
        } else {
            assert forall|k: nat| trim_len(v) <= k <= v.len() implies trim_len(#[trigger] v.take(k as int)) == trim_len(v) by {
                assert(v.take(k as int) =~= v);
            }
        }
    }
}

fn poly_trim(polynomial: Vec<FieldElement>) -> (r: Vec<FieldElement>)
    ensures
        r@.len() == trim_len(elems_view(polynomial@)),
        r@.len() <= polynomial@.len(),
        forall|f: FieldSpec| poly_ok(f, polynomial@) ==> #[trigger] poly_ok(f, r@),
        r@ == polynomial@.take(r@.len() as int),
        trimmed(r@),
{
    let ghost v = polynomial@;
    let ghost t = trim_len(elems_view(v));
    let mut polynomial = polynomial;
    proof {
        lemma_trim_len(elems_view(v));
        assert(v.take(v.len() as int) =~= v);
    }
    while polynomial.len() > 0 && polynomial[polynomial.len() - 1].is_zero()
        invariant
            t == trim_len(elems_view(v)),
            t <= polynomial@.len() <= v.len(),
            polynomial@ == v.take(polynomial@.len() as int),
            forall|i: int| t <= i < v.len() ==> is_zero_spec(#[trigger] elems_view(v)[i]),
            t == 0 || !is_zero_spec(elems_view(v)[t - 1]),
        decreases polynomial@.len(),
    {
        let ghost before = polynomial@;
        proof {
            let l = polynomial@.len() - 1;
            assert(polynomial@[l as int] == v[l as int]);
            assert(elems_view(v)[l as int] == v[l as int]@);
            if l < t {
                assert(l == t - 1);
            }
        }
        polynomial.pop();
        proof {
            assert(polynomial@ =~= v.take(polynomial@.len() as int));
        }
    }
    proof {
        if polynomial@.len() > t {
            let l = polynomial@.len() - 1;
            assert(polynomial@[l as int] == v[l as int]);
            assert(elems_view(v)[l as int] == v[l as int]@);
        }
        if polynomial@.len() > 0 {
            let l = polynomial@.len() - 1;
            assert(polynomial@[l as int] == v[l as int]);
            assert(elems_view(v)[l as int] == v[l as int]@);
        }
    }
    polynomial
}

fn poly_copy(v: &Vec<FieldElement>) -> (r: Vec<FieldElement>)
    ensures
        r@.len() == v@.len(),
        forall|i: int| 0 <= i < v@.len() ==> (#[trigger] r@[i])@ == v@[i]@,
        elems_view(r@) == elems_view(v@),
        forall|f: FieldSpec| poly_ok(f, v@) ==> #[trigger] poly_ok(f, r@),
{
    let mut out: Vec<FieldElement> = Vec::new();
    let mut i: usize = 0;
    while i < v.len()
        invariant
            i <= v@.len(),
            out@.len() == i,
            forall|k: int| 0 <= k < i ==> (#[trigger] out@[k])@ == v@[k]@,
        decreases v@.len() - i,
    {
        out.push(v[i].duplicate());
        i = i + 1;
    }
    proof {
        assert(elems_view(out@) =~= elems_view(v@));
    }
    out
}

fn poly_zeros(field: &ExplicitField, n: usize) -> (r: Vec<FieldElement>)
    requires
        field.wf(),
    ensures
        r@.len() == n,
        poly_ok(field@, r@),
        forall|k: int| 0 <= k < n ==> (#[trigger] r@[k])@ == zero_spec(field@),
{
    let mut out: Vec<FieldElement> = Vec::new();
    let mut i: usize = 0;
    proof {
        field.lemma_wf_facts();
    }
    while i < n
        invariant
            field.wf(),
            field@.p >= 2,
            i <= n,
            out@.len() == i,
            poly_ok(field@, out@),
            forall|k: int| 0 <= k < i ==> (#[trigger] out@[k])@ == zero_spec(field@),
        decreases n - i,
    {
        out.push(field.zero());
        i = i + 1;
    }
    out
}

/// Coefficient `i` of a polynomial, zero beyond its length.
pub open spec fn coef(f: FieldSpec, v: Seq<Seq<u32>>, i: int) -> Seq<u32> {
    if 0 <= i < v.len() {
        v[i]
    } else {
        zero_spec(f)
    }
}

/// A coefficient list without its zero leading coefficients.
pub open spec fn trim(v: Seq<Seq<u32>>) -> Seq<Seq<u32>> {
    v.take(trim_len(v) as int)
}

/// Coefficient-wise difference over the first `n` places.
pub open spec fn sub_coeffs(f: FieldSpec, a: Seq<Seq<u32>>, b: Seq<Seq<u32>>, n: nat) -> Seq<Seq<u32>> {
    Seq::new(n, |i: int| sub_spec(f, coef(f, a, i), coef(f, b, i)))
}

/// Coefficient `k` of `a * b` accumulated over the first `m` coefficients of
/// `a`, in order.
pub open spec fn conv_acc(f: FieldSpec, a: Seq<Seq<u32>>, b: Seq<Seq<u32>>, k: int, m: nat) -> Seq<u32>
    decreases m,
{
    if m == 0 {
        zero_spec(f)
    } else {
        let prev = conv_acc(f, a, b, k, (m - 1) as nat);
        let t = k - (m - 1);
        if 0 <= t < b.len() {
            add_spec(f, prev, mul_spec(f, a[m - 1], b[t]))
        } else {
            prev
        }
    }
}

/// Coefficients of the product `a * b` before trimming.
pub open spec fn mul_coeffs(f: FieldSpec, a: Seq<Seq<u32>>, b: Seq<Seq<u32>>) -> Seq<Seq<u32>> {
    Seq::new((a.len() + b.len() - 1) as nat, |k: int| conv_acc(f, a, b, k, a.len()))
}

fn poly_mul(field: &ExplicitField, a: &Vec<FieldElement>, b: &Vec<FieldElement>) -> (r: Vec<
    FieldElement,
>)
    requires
        field.wf(),
        poly_ok(field@, a@),
        poly_ok(field@, b@),
        a@.len() < 0x1_0000,
        b@.len() < 0x1_0000,
    ensures
        poly_ok(field@, r@),
        trimmed(r@),
        a@.len() > 0 && b@.len() > 0 ==> r@.len() <= a@.len() + b@.len() - 1,
        a@.len() == 0 || b@.len() == 0 ==> r@.len() == 0,
        a@.len() > 0 && b@.len() > 0 ==> elems_view(r@) == trim(mul_coeffs(field@, elems_view(a@), elems_view(b@))),
{
    if a.len() == 0 || b.len() == 0 {
        return Vec::new();
    }
    let ghost ea = elems_view(a@);
    let ghost eb = elems_view(b@);
    let n = a.len() + b.len() - 1;
    let mut out = poly_zeros(field, n);
    let mut i: usize = 0;
    proof {
        field.lemma_wf_facts();
        assert forall|k: int| 0 <= k < n implies (#[trigger] out@[k])@ == conv_acc(field@, ea, eb, k, 0) by {}
    }
    while i < a.len()
        invariant
            field.wf(),
            poly_ok(field@, a@),
            poly_ok(field@, b@),
            ea == elems_view(a@),
            eb == elems_view(b@),
            n == a@.len() + b@.len() - 1,
            out@.len() == n,
            poly_ok(field@, out@),
            i <= a@.len(),
            forall|k: int| 0 <= k < n ==> (#[trigger] out@[k])@ == conv_acc(field@, ea, eb, k, i as nat),
        decreases a@.len() - i,
    {
        let mut j: usize = 0;
        while j < b.len()
            invariant
                field.wf(),
                poly_ok(field@, a@),
                poly_ok(field@, b@),
                ea == elems_view(a@),
                eb == elems_view(b@),
                n == a@.len() + b@.len() - 1,
                out@.len() == n,
                poly_ok(field@, out@),
                i < a@.len(),
                j <= b@.len(),
                forall|k: int|
                    0 <= k < n ==> (#[trigger] out@[k])@ == if i <= k < i + j {
                        conv_acc(field@, ea, eb, k, (i + 1) as nat)
                    } else {
                        conv_acc(field@, ea, eb, k, i as nat)
                    },
            decreases b@.len() - j,
        {
            let product = match field.mul(&a[i], &b[j]) {
                Ok(v) => v,
                Err(_) => {
                    proof {
                        assert(false);
                    }
                    return Vec::new();
                },
            };
            let sum = match field.add(&out[i + j], &product) {
                Ok(v) => v,
                Err(_) => {
                    proof {
                        assert(false);
                    }
                    return Vec::new();
                },
            };
            let ghost out0 = out@;
            out.set(i + j, sum);
            proof {
                assert(ea[i as int] == a@[i as int]@);
                assert(eb[j as int] == b@[j as int]@);
                assert forall|k: int| 0 <= k < n implies (#[trigger] out@[k])@ == if i <= k < i + j + 1 {
                    conv_acc(field@, ea, eb, k, (i + 1) as nat)
                } else {
                    conv_acc(field@, ea, eb, k, i as nat)
                } by {
                    if k != i + j {
                        assert(out@[k] == out0[k]);
                        if i <= k < i + j + 1 {
                        } else if k >= i && k - i < b@.len() {
                        }
                    }
                }
            }
            j = j + 1;
        }
        proof {
            assert forall|k: int| 0 <= k < n implies (#[trigger] out@[k])@ == conv_acc(field@, ea, eb, k, (i + 1) as nat) by {
                if !(i <= k < i + j) {
                    assert(conv_acc(field@, ea, eb, k, (i + 1) as nat) == conv_acc(field@, ea, eb, k, i as nat));
                }
            }
        }
        i = i + 1;
    }
    let ghost raw = out@;
    let r = poly_trim(out);
    proof {
        assert(elems_view(raw) =~= mul_coeffs(field@, ea, eb));
        assert(elems_view(r@) =~= trim(elems_view(raw)));
    }
    r
}

fn poly_sub(field: &ExplicitField, a: &Vec<FieldElement>, b: &Vec<FieldElement>) -> (r: Vec<
    FieldElement,
>)
    requires
        field.wf(),
        poly_ok(field@, a@),
        poly_ok(field@, b@),
    ensures
        poly_ok(field@, r@),
        trimmed(r@),
        r@.len() <= a@.len() || r@.len() <= b@.len(),
        elems_view(r@) == trim(
            sub_coeffs(
                field@,
                elems_view(a@),
                elems_view(b@),
                if a@.len() >= b@.len() {
                    a@.len()
                } else {
                    b@.len()
                },
            ),
        ),
{
    let n = if a.len() >= b.len() {
        a.len()
    } else {
        b.len()
    };
    let ghost raw = sub_coeffs(field@, elems_view(a@), elems_view(b@), n as nat);
    let mut out: Vec<FieldElement> = Vec::new();
    let mut i: usize = 0;
    proof {
        field.lemma_wf_facts();
    }
    while i < n
        invariant
            field.wf(),
            field@.p >= 2,
            poly_ok(field@, a@),
            poly_ok(field@, b@),
            out@.len() == i,
            poly_ok(field@, out@),
            i <= n,
            raw == sub_coeffs(field@, elems_view(a@), elems_view(b@), n as nat),
            forall|k: int| 0 <= k < i ==> (#[trigger] out@[k])@ == raw[k],
        decreases n - i,
    {
        proof {
            lemma_zero_ok(field@);
            if i < a@.len() {
                assert(elems_view(a@)[i as int] == a@[i as int]@);
            }
            if i < b@.len() {
                assert(elems_view(b@)[i as int] == b@[i as int]@);
            }
        }
        let av = if i < a.len() {
            a[i].duplicate()
        } else {
            field.zero()
        };
        let bv = if i < b.len() {
            b[i].duplicate()
        } else {
            field.zero()
        };
        let d = match field.sub(&av, &bv) {
            Ok(v) => v,
            Err(_) => {
                proof {
                    assert(false);
                }
                return Vec::new();
            },
        };
        out.push(d);
        i = i + 1;
    }
    let ghost full = out@;
    let r = poly_trim(out);
    proof {
        assert(elems_view(full) =~= raw);
        assert(elems_view(r@) =~= trim(elems_view(full)));
    }
    r
}

/// Remainder of `dividend` modulo `modulus`. Each elimination step multiplies
/// the modulus by the leading coefficient of the dividend over the leading
/// coefficient of the modulus, which cancels the dividend's leading term; that
/// term is then dropped.
fn poly_mod(field: &ExplicitField, dividend: Vec<FieldElement>, modulus: &Vec<FieldElement>) -> (r:
    Result<Vec<FieldElement>, StandardFfError>)
    requires
        field.wf(),
        poly_ok(field@, dividend@),
        poly_ok(field@, modulus@),
    ensures
        r is Err <==> trim_len(elems_view(modulus@)) == 0,
        r matches Ok(v) ==> poly_ok(field@, v@) && trimmed(v@) && v@.len() < trim_len(
            elems_view(modulus@),
        ),
{
    let mut dividend = poly_trim(dividend);
    let modulus = poly_trim(poly_copy(modulus));
    if modulus.len() == 0 {
        return Err(StandardFfError::InternalConstruction("zero polynomial modulus"));
    }
    let md = modulus.len() - 1;
    let lead_inv = match field.inverse(&modulus[md]) {
        Ok(v) => v,
        Err(e) => {
            proof {
                assert(false);
            }
            return Err(StandardFfError::Arithmetic(e));
        },
    };
    while dividend.len() > md
        invariant
            field.wf(),
            md + 1 == modulus@.len(),
            poly_ok(field@, modulus@),
            poly_ok(field@, dividend@),
            trimmed(dividend@),
            elem_ok(field@, lead_inv@),
        decreases dividend@.len(),
    {
        let dd = dividend.len() - 1;
        let factor = match field.mul(&dividend[dd], &lead_inv) {
            Ok(v) => v,
            Err(e) => {
                proof {
                    assert(false);
                }
                return Err(StandardFfError::Arithmetic(e));
            },
        };
        let shift = dd - md;
        let mut i: usize = 0;
        while i < md
            invariant
                field.wf(),
                md + 1 == modulus@.len(),
                poly_ok(field@, modulus@),
                poly_ok(field@, dividend@),
                dividend@.len() == dd + 1,
                shift + md == dd,
                elem_ok(field@, factor@),
                i <= md,
            decreases md - i,
        {
            let product = match field.mul(&factor, &modulus[i]) {
                Ok(v) => v,
                Err(e) => {
                    proof {
                        assert(false);
                    }
                    return Err(StandardFfError::Arithmetic(e));
                },
            };
            let d = match field.sub(&dividend[shift + i], &product) {
                Ok(v) => v,
                Err(e) => {
                    proof {
                        assert(false);
                    }
                    return Err(StandardFfError::Arithmetic(e));
                },
            };
            dividend.set(shift + i, d);
            i = i + 1;
        }
        dividend.pop();
        dividend = poly_trim(dividend);
    }
    Ok(dividend)
}

fn poly_gcd(field: &ExplicitField, a: Vec<FieldElement>, b: Vec<FieldElement>) -> (r: Result<
    Vec<FieldElement>,
    StandardFfError,
>)
    requires
        field.wf(),
        poly_ok(field@, a@),
        poly_ok(field@, b@),
    ensures
        r is Ok,
        r matches Ok(v) ==> poly_ok(field@, v@) && trimmed(v@) && v@.len() <= a@.len() + b@.len(),
{
    let ghost bound = a@.len() + b@.len();
    let mut a = poly_trim(a);
    let mut b = poly_trim(b);
    while b.len() != 0
        invariant
            field.wf(),
            poly_ok(field@, a@),
            poly_ok(field@, b@),
            trimmed(a@),
            trimmed(b@),
            a@.len() <= bound,
            b@.len() <= bound,
        decreases b@.len(),
    {
        proof {
            assert(elems_view(b@).last() == b@.last()@);
            assert(trim_len(elems_view(b@)) == b@.len());
        }
        let r = match poly_mod(field, a, &b) {
            Ok(v) => v,
            Err(e) => {
                return Err(e);
            },
        };
        a = b;
        b = r;
    }
    if a.len() == 0 {
        return Ok(a);
    }
    let inv = match field.inverse(&a[a.len() - 1]) {
        Ok(v) => v,
        Err(e) => {
            proof {
                assert(false);
            }
            return Err(StandardFfError::Arithmetic(e));
        },
    };
    let mut i: usize = 0;
    while i < a.len()
        invariant
            field.wf(),
            poly_ok(field@, a@),
            elem_ok(field@, inv@),
            i <= a@.len(),
            a@.len() <= bound,
        decreases a@.len() - i,
    {
        let c = match field.mul(&a[i], &inv) {
            Ok(v) => v,
            Err(e) => {
                proof {
                    assert(false);
                }
                return Err(StandardFfError::Arithmetic(e));
            },
        };
        a.set(i, c);
        i = i + 1;
    }
    Ok(poly_trim(a))
}

fn poly_pow_mod(
    field: &ExplicitField,
    base: &Vec<FieldElement>,
    exponent: u128,
    modulus: &Vec<FieldElement>,
) -> (r: Result<Vec<FieldElement>, StandardFfError>)
    requires
        field.wf(),
        poly_ok(field@, base@),
        poly_ok(field@, modulus@),
        modulus@.len() < 0x1_0000,
    ensures
        r matches Ok(v) ==> poly_ok(field@, v@) && trimmed(v@) && v@.len() < 0x1_0000,
        r is Err <==> trim_len(elems_view(modulus@)) == 0,
{
    proof {
        field.lemma_wf_facts();
        lemma_trim_len(elems_view(modulus@));
    }
    let mut out: Vec<FieldElement> = Vec::new();
    out.push(field.one());
    proof {
        lemma_mod_bound(1, field@.p as int);
    }
    let mut cur = match poly_mod(field, poly_copy(base), modulus) {
        Ok(v) => v,
        Err(e) => {
            return Err(e);
        },
    };
    let mut exponent = exponent;
    while exponent != 0
        invariant
            field.wf(),
            poly_ok(field@, modulus@),
            modulus@.len() < 0x1_0000,
            trim_len(elems_view(modulus@)) <= modulus@.len(),
            trim_len(elems_view(modulus@)) > 0,
            poly_ok(field@, out@),
            poly_ok(field@, cur@),
            out@.len() < 0x1_0000,
            cur@.len() < 0x1_0000,
        decreases exponent,
    {
        if exponent & 1 != 0 {
            out = match poly_mod(field, poly_mul(field, &out, &cur), modulus) {
                Ok(v) => v,
                Err(e) => {
                    return Err(e);
                },
            };
        }
        let ghost e0 = exponent;
        exponent = exponent >> 1;
        proof {
            assert(e0 >> 1 < e0) by (bit_vector)
                requires
                    e0 != 0,
            ;
        }
        if exponent != 0 {
            cur = match poly_mod(field, poly_mul(field, &cur, &cur), modulus) {
                Ok(v) => v,
                Err(e) => {
                    return Err(e);
                },
            };
        }
    }
    Ok(poly_trim(out))
}

fn poly_degree(polynomial: &Vec<FieldElement>) -> (r: isize)
    requires
        polynomial@.len() < 0x1000_0000,
    ensures
        r == polynomial@.len() - 1,
{
    polynomial.len() as isize - 1
}

/// Coefficient-wise equality of two polynomials.
fn poly_eq(a: &Vec<FieldElement>, b: &Vec<FieldElement>) -> (r: bool)
    ensures
        r == (elems_view(a@) == elems_view(b@)),
{
    if a.len() != b.len() {
        proof {
            assert(elems_view(a@).len() != elems_view(b@).len());
        }
        return false;
    }
    let mut i: usize = 0;
    while i < a.len()
        invariant
            i <= a@.len(),
            a@.len() == b@.len(),
            forall|k: int| 0 <= k < i ==> (#[trigger] a@[k])@ == b@[k]@,
        decreases a@.len() - i,
    {
        if !a[i].same_as(&b[i]) {
            proof {
                assert(elems_view(a@)[i as int] != elems_view(b@)[i as int]);
            }
            return false;
        }
        i = i + 1;
    }
    proof {
        assert(elems_view(a@) =~= elems_view(b@));
    }
    true
}

/// Prime-degree irreducibility criterion: `gcd(f, X^q - X) = 1` and
/// `X^(q^r) == X mod f`.
fn is_irreducible_prime_degree(field: &ExplicitField, polynomial: &Vec<FieldElement>) -> (r: Result<
    bool,
    StandardFfError,
>)
    requires
        field.wf(),
        poly_ok(field@, polynomial@),
        2 <= polynomial@.len() < 0x1_0000,
    ensures
        trim_len(elems_view(polynomial@)) == 0 ==> r is Err,
        trim_len(elems_view(polynomial@)) > 0 && checked_pow_spec(field@.card, (polynomial@.len() - 1) as nat) is Some
            ==> r is Ok,
{
    let degree = polynomial.len() - 1;
    proof {
        field.lemma_wf_facts();
        lemma_mod_bound(1, field@.p as int);
    }
    let mut x: Vec<FieldElement> = Vec::new();
    x.push(field.zero());
    x.push(field.one());
    let xq = match poly_pow_mod(field, &x, field.cardinality(), polynomial) {
        Ok(v) => v,
        Err(e) => {
            return Err(e);
        },
    };
    let xq_minus_x = poly_sub(field, &xq, &x);
    let gcd = match poly_gcd(field, poly_copy(polynomial), xq_minus_x) {
        Ok(v) => v,
        Err(e) => {
            return Err(e);
        },
    };
    if poly_degree(&gcd) != 0 {
        return Ok(false);
    }
    let exponent = match checked_pow(field.cardinality(), degree as u32) {
        Some(v) => v,
        None => {
            return Err(StandardFfError::IntegerOverflow);
        },
    };
    let high = match poly_pow_mod(field, &x, exponent, polynomial) {
        Ok(v) => v,
        Err(e) => {
            return Err(e);
        },
    };
    Ok(poly_eq(&poly_trim(high), &poly_trim(x)))
}

// ---------------------------------------------------------------------------
// The standard construction
// ---------------------------------------------------------------------------

/// An exponent whose power of a base `>= 2` fits in u128 is below 128.
proof fn lemma_exponent_small(p: nat, n: nat)
    requires
        p >= 2,
        pow(p as int, n) < 0x1_0000_0000_0000_0000_0000_0000_0000_0000,
    ensures
        n < 128,
{
    if n >= 128 {
        lemma_pow_increases_base_nat(2, p, n);
        lemma_pow_increases(2, 128, n);
        vstd::arithmetic::power2::lemma_pow2(128);
        vstd::arithmetic::power2::lemma_pow2_adds(64, 64);
        vstd::arithmetic::power2::lemma_pow2(64);
        vstd::arithmetic::power2::lemma2_to64();
    }
}

/// Low coefficients (as Steinitz numbers of `base`) of the standard monic
/// irreducible polynomial of prime degree `degree` over `base`, found by
/// Lübeck's sparse deterministic search from `X^degree + X + constant`.
fn standard_irreducible_coefficients(base: &ExplicitField, degree: usize, constant: FieldElement) -> (r:
    Result<Vec<u128>, StandardFfError>)
    requires
        base.wf(),
        elem_ok(base@, constant@),
        degree < 0x1000,
    ensures
        r matches Ok(v) ==> v@.len() == degree,
{
    if degree < 2 {
        return Err(StandardFfError::InternalConstruction("prime extension degree < 2"));
    }
    proof {
        base.lemma_wf_facts();
        lemma_mod_bound(1, base@.p as int);
    }
    let mut coefficients = poly_zeros(base, degree + 1);
    coefficients.set(0, constant);
    coefficients.set(1, base.one());
    coefficients.set(degree, base.one());
    let q = base.cardinality();
    let mut inc: usize = 1;
    loop
        invariant
            base.wf(),
            q == base@.card,
            q >= 2,
            2 <= degree < 0x1000,
            1 <= inc <= 2 * degree,
        decreases 2 * degree - inc,
    {
        let qi = match checked_pow(q, inc as u32) {
            Some(v) => v,
            None => {
                return Err(StandardFfError::IntegerOverflow);
            },
        };
        if qi >= 2 * degree as u128 {
            break ;
        }
        proof {
            assert(((q as u128) as nat) == q as nat);
            assert((inc as u32) as nat == inc as nat);
            lemma_pow_at_least_two(q as nat, inc as nat);
            lemma_pow2_exceeds(inc as nat);
            lemma_pow_nonneg_int(q as nat, inc as nat);
        }
        inc = inc + 1;
    }
    let mut d: usize = 0;
    let mut count: u128 = 0;
    loop
        invariant
            base.wf(),
            q == base@.card,
            q >= 2,
            2 <= degree < 0x1000,
            1 <= inc <= 2 * degree,
            d <= degree - 1,
            coefficients@.len() == degree + 1,
            poly_ok(base@, coefficients@),
        decreases u128::MAX - count,
    {
        let irreducible = match is_irreducible_prime_degree(base, &coefficients) {
            Ok(b) => b,
            Err(e) => {
                return Err(e);
            },
        };
        if irreducible {
            break ;
        }
        if count % (degree as u128) == 0 && d < degree - 1 {
            d = if d + inc < degree - 1 {
                d + inc
            } else {
                degree - 1
            };
        }
        if d < 1 {
            return Err(
                StandardFfError::InternalConstruction(
                    "StandardFF sparse-search degree did not advance",
                ),
            );
        }
        let coefficient_digits = d - 1;
        let qq = match checked_pow(q, coefficient_digits as u32) {
            Some(v) => v,
            None => {
                return Err(StandardFfError::IntegerOverflow);
            },
        };
        let shifted = standard_affine_shift(qq, count);
        let digits = qadic_digits(shifted, q, coefficient_digits);
        let mut index: usize = 1;
        while index < d
            invariant
                base.wf(),
                d <= degree - 1,
                digits@.len() == d - 1,
                coefficients@.len() == degree + 1,
                poly_ok(base@, coefficients@),
                1 <= index <= d,
            decreases d - index,
        {
            let e = match base.from_rank(digits[index - 1]) {
                Ok(e) => e,
                Err(err) => {
                    return Err(StandardFfError::Arithmetic(err));
                },
            };
            coefficients.set(index, e);
            index = index + 1;
        }
        count = match count.checked_add(1) {
            Some(c) => c,
            None => {
                return Err(StandardFfError::IntegerOverflow);
            },
        };
    }
    let mut out: Vec<u128> = Vec::new();
    let mut i: usize = 0;
    while i < degree
        invariant
            base.wf(),
            coefficients@.len() == degree + 1,
            poly_ok(base@, coefficients@),
            i <= degree,
            out@.len() == i,
        decreases degree - i,
    {
        let v = match base.rank(&coefficients[i]) {
            Ok(v) => v,
            Err(e) => {
                return Err(StandardFfError::Arithmetic(e));
            },
        };
        out.push(v);
        i = i + 1;
    }
    Ok(out)
}

fn zero_ranks(n: usize) -> (r: Vec<u128>)
    ensures
        r@ == Seq::new(n as nat, |i: int| 0u128),
{
    let mut v: Vec<u128> = Vec::new();
    let mut i: usize = 0;
    while i < n
        invariant
            i <= n,
            v@ == Seq::new(i as nat, |k: int| 0u128),
        decreases n - i,
    {
        v.push(0);
        i = i + 1;
        proof {
            assert(v@ =~= Seq::new(i as nat, |k: int| 0u128));
        }
    }
    v
}

/// `p^(r^e)`, the Steinitz number of the generator adjoined at tower step
/// `e + 1` of the r-extensions.
fn previous_generator_rank(p: u32, r: u32, e: u32) -> (out: Result<u128, StandardFfError>)
    ensures
        out == (match checked_pow_spec(r as nat, e as nat) {
            None => Err(StandardFfError::IntegerOverflow),
            Some(d) => if d > 0xffff_ffff {
                Err(StandardFfError::IntegerOverflow)
            } else {
                match checked_pow_spec(p as nat, d as nat) {
                    Some(v) => Ok(v),
                    None => Err(StandardFfError::IntegerOverflow),
                }
            },
        }),
{
    let degree = match checked_pow(r as u128, e) {
        Some(v) => v,
        None => {
            return Err(StandardFfError::IntegerOverflow);
        },
    };
    if degree > 0xffff_ffff {
        return Err(StandardFfError::IntegerOverflow);
    }
    match checked_pow(p as u128, degree as u32) {
        Some(v) => Ok(v),
        None => Err(StandardFfError::IntegerOverflow),
    }
}

/// Steinitz number of `-x` for `x` of Steinitz number `rank` in `field`.
fn neg_rank(field: &ExplicitField, rank: u128) -> (r: Result<u128, StandardFfError>)
    requires
        field.wf(),
    ensures
        rank >= field@.card ==> r == Err::<u128, StandardFfError>(
            StandardFfError::Arithmetic(FieldError::RankOutOfRange { rank, cardinality: field@.card as u128 }),
        ),
        rank < field@.card ==> r == Ok::<u128, StandardFfError>(
            rank_spec(neg_spec(field@, from_rank_spec(field@, rank as nat)), field@.p) as u128,
        ),
{
    let x = match field.from_rank(rank) {
        Ok(x) => x,
        Err(e) => {
            return Err(StandardFfError::Arithmetic(e));
        },
    };
    let nx = match field.neg(&x) {
        Ok(v) => v,
        Err(e) => {
            return Err(StandardFfError::Arithmetic(e));
        },
    };
    match field.rank(&nx) {
        Ok(v) => Ok(v),
        Err(e) => Err(StandardFfError::Arithmetic(e)),
    }
}

/// Low coefficients of Lübeck's standard monic polynomial of prime degree `r`
/// for the `k`-th r-extension, over `base` = FF(p, r^(k-1)), as Steinitz
/// numbers of `base`; the leading coefficient 1 is implicit.
fn prime_degree_coefficients_over(p: u32, r: u32, k: u32, base: &ExplicitField) -> (out: Result<
    Vec<u128>,
    StandardFfError,
>)
    requires
        base.wf(),
        base@.p == p,
        spec_prime(p as int),
        2 <= r < 0x1000,
        k >= 1,
    ensures
        out matches Ok(v) ==> v@.len() == r,
{
    proof {
        base.lemma_wf_facts();
    }
    let q = base.cardinality();
    let mut coefficients = zero_ranks(r as usize);
    if p == r {
        // Artin-Schreier: X^p - X - prod_{i<k} x_i^(p-1).
        let constant_rank = match (p as u128 - 1).checked_mul(q / p as u128) {
            Some(v) => v,
            None => {
                return Err(StandardFfError::IntegerOverflow);
            },
        };
        coefficients.set(0, constant_rank);
        coefficients.set(1, p as u128 - 1);
        return Ok(coefficients);
    }
    if r == 2 && p % 4 == 3 {
        if k == 1 {
            // X^2 + 1
            coefficients.set(0, 1);
            return Ok(coefficients);
        }
        if k == 2 {
            // -x for the first non-square x in affine-shift order
            let one = base.one();
            let exponent = (q - 1) / 2;
            let mut i: u128 = 1;
            loop
                invariant
                    base.wf(),
                    q == base@.card,
                    q >= 2,
                    r >= 2,
                    coefficients@.len() == r,
                decreases u128::MAX - i,
            {
                let rank = standard_affine_shift(q, i);
                if rank != 0 {
                    let x = match base.from_rank(rank) {
                        Ok(x) => x,
                        Err(e) => {
                            return Err(StandardFfError::Arithmetic(e));
                        },
                    };
                    let power = match base.pow(&x, exponent) {
                        Ok(v) => v,
                        Err(e) => {
                            return Err(StandardFfError::Arithmetic(e));
                        },
                    };
                    if !power.same_as(&one) {
                        let nx = match base.neg(&x) {
                            Ok(v) => v,
                            Err(e) => {
                                return Err(StandardFfError::Arithmetic(e));
                            },
                        };
                        let c = match base.rank(&nx) {
                            Ok(v) => v,
                            Err(e) => {
                                return Err(StandardFfError::Arithmetic(e));
                            },
                        };
                        coefficients.set(0, c);
                        return Ok(coefficients);
                    }
                }
                i = match i.checked_add(1) {
                    Some(v) => v,
                    None => {
                        return Err(StandardFfError::IntegerOverflow);
                    },
                };
            }
        }
        let rank = match previous_generator_rank(p, r, k - 2) {
            Ok(v) => v,
            Err(e) => {
                return Err(e);
            },
        };
        let c = match neg_rank(base, rank) {
            Ok(v) => v,
            Err(e) => {
                return Err(e);
            },
        };
        coefficients.set(0, c);
        return Ok(coefficients);
    }
    if (p - 1) % r == 0 {
        if k == 1 {
            // -nr for the first r-th power non-residue nr in affine-shift order
            let mut i: u128 = 1;
            loop
                invariant
                    spec_prime(p as int),
                    2 <= r,
                    coefficients@.len() == r,
                decreases u128::MAX - i,
            {
                let nr = standard_affine_shift(p as u128, i) as u32;
                if nr != 0 && pow_mod_u32(nr, (p - 1) / r, p) != 1 {
                    coefficients.set(0, (p - nr) as u128);
                    return Ok(coefficients);
                }
                i = match i.checked_add(1) {
                    Some(v) => v,
                    None => {
                        return Err(StandardFfError::IntegerOverflow);
                    },
                };
            }
        }
        let rank = match previous_generator_rank(p, r, k - 2) {
            Ok(v) => v,
            Err(e) => {
                return Err(e);
            },
        };
        let c = match neg_rank(base, rank) {
            Ok(v) => v,
            Err(e) => {
                return Err(e);
            },
        };
        coefficients.set(0, c);
        return Ok(coefficients);
    }
    // General case (Lübeck's algorithm 5.5): constant term -1 at the first
    // r-extension and -x_{r,k-1} thereafter.
    let constant = if k == 1 {
        match base.neg(&base.one()) {
            Ok(v) => v,
            Err(e) => {
                return Err(StandardFfError::Arithmetic(e));
            },
        }
    } else {
        let rank = match previous_generator_rank(p, r, k - 2) {
            Ok(v) => v,
            Err(e) => {
                return Err(e);
            },
        };
        let x = match base.from_rank(rank) {
            Ok(x) => x,
            Err(e) => {
                return Err(StandardFfError::Arithmetic(e));
            },
        };
        match base.neg(&x) {
            Ok(v) => v,
            Err(e) => {
                return Err(StandardFfError::Arithmetic(e));
            },
        }
    };
    standard_irreducible_coefficients(base, r as usize, constant)
}

/// Low coefficients of Lübeck's standard monic polynomial of prime degree `r`
/// for the `k`-th r-extension over FF(p, r^(k-1)), as Steinitz numbers of that
/// field. The leading coefficient 1 is implicit.
pub fn standard_prime_degree_coefficients(p: u32, r: u32, k: u32) -> (out: Result<
    Vec<u128>,
    StandardFfError,
>)
    requires
        spec_prime(p as int),
        2 <= r < 0x1000,
        k >= 1,
    ensures
        out matches Ok(v) ==> v@.len() == r,
{
    let base_degree = match checked_pow(r as u128, k - 1) {
        Some(v) => v,
        None => {
            return Err(StandardFfError::IntegerOverflow);
        },
    };
    if base_degree > 0xffff_ffff {
        return Err(StandardFfError::IntegerOverflow);
    }
    let base_degree = base_degree as u32;
    proof {
        assert(((r as u128) as nat) as int == r as int);
        lemma_pow_positive(r as int, (k - 1) as nat);
    }
    match checked_pow(p as u128, base_degree) {
        Some(_) => {},
        None => {
            return Err(StandardFfError::IntegerOverflow);
        },
    }
    proof {
        assert(((p as u128) as nat) as int == p as int);
        lemma_pow_nonneg_int(p as nat, base_degree as nat);
    }
    let base = match standard_field(p, base_degree) {
        Ok(f) => f,
        Err(e) => {
            return Err(e);
        },
    };
    prime_degree_coefficients_over(p, r, k, &base)
}

/// The standard field FF(p, n).
fn standard_field(p: u32, n: u32) -> (r: Result<ExplicitField, StandardFfError>)
    requires
        spec_prime(p as int),
        n >= 1,
        pow(p as int, n as nat) < 0x1_0000_0000_0000_0000_0000_0000_0000_0000,
    ensures
        r matches Ok(f) ==> f.wf() && f@.p == p && f@.degree == n && f@.card == pow(
            p as int,
            n as nat,
        ),
        n == 1 ==> (r matches Ok(f) && f@.model == (ModelSpec::Poly { modulus: seq![0u32, 1u32] })),
    decreases n,
{
    if n == 1 {
        proof {
            lemma_pow1(p as int);
        }
        return match ExplicitField::prime(p) {
            Ok(f) => Ok(f),
            Err(e) => Err(StandardFfError::Arithmetic(e)),
        };
    }
    proof {
        lemma_exponent_small(p as nat, n as nat);
    }
    let factors = factorization(n);
    proof {
        lemma_last_factor(n as nat);
    }
    let (r, k) = factors[factors.len() - 1];
    let n1: u32 = match checked_pow(r as u128, k - 1) {
        Some(v) => {
            if v > 0xffff_ffff {
                return Err(StandardFfError::IntegerOverflow);
            }
            v as u32
        },
        None => {
            return Err(StandardFfError::IntegerOverflow);
        },
    };
    let base_degree = n / r;
    proof {
        assert(((r as u128) as nat) as int == r as int);
        lemma_pow_positive(r as int, (k - 1) as nat);
        reveal(pow);
        assert(pow(r as int, k as nat) == r * pow(r as int, (k - 1) as nat));
        assert(n1 < pow(r as int, k as nat)) by (nonlinear_arith)
            requires
                n1 == pow(r as int, (k - 1) as nat),
                pow(r as int, k as nat) == r * pow(r as int, (k - 1) as nat),
                r >= 2,
                n1 >= 1,
        ;
        lemma_pow_increases(p as nat, n1 as nat, n as nat);
        lemma_div_decreases(n as int, r as int);
        lemma_fundamental_div_mod(n as int, r as int);
        assert(base_degree >= 1) by {
            if n / r == 0 {
                lemma_mul_basics(r as int);
            }
        }
        lemma_pow_increases(p as nat, base_degree as nat, n as nat);
    }
    let base_k = match standard_field(p, n1) {
        Ok(f) => f,
        Err(e) => {
            return Err(e);
        },
    };
    let coefficient_ranks = match prime_degree_coefficients_over(p, r, k, &base_k) {
        Ok(v) => v,
        Err(e) => {
            return Err(e);
        },
    };
    let mut embedded: Vec<u128> = Vec::new();
    let mut embed_error: Option<StandardFfError> = None;
    let mut i: usize = 0;
    while i < coefficient_ranks.len()
        invariant
            i <= coefficient_ranks@.len(),
            embedded@.len() <= i,
        decreases coefficient_ranks@.len() - i,
    {
        match embed_steinitz(p, n1, base_degree, coefficient_ranks[i]) {
            Ok(v) => {
                embedded.push(v);
            },
            Err(e) => {
                embed_error = Some(e);
                break ;
            },
        }
        i = i + 1;
    }
    let base = match standard_field(p, base_degree) {
        Ok(f) => f,
        Err(e) => {
            return Err(e);
        },
    };
    match embed_error {
        Some(e) => {
            return Err(e);
        },
        None => {},
    }
    let tower = ExplicitField::tower(base, r as usize, embedded.as_slice());
    match tower {
        Ok(f) => {
            proof {
                lemma_mul_is_commutative(r as int, base_degree as int);
                assert(base_degree * r == n);
                lemma_pow_multiplies(p as int, base_degree as nat, r as nat);
            }
            Ok(f)
        },
        Err(e) => Err(StandardFfError::Arithmetic(e)),
    }
}

impl StandardFieldDescriptor {
    /// Construct the standardized field described by `self`.
    pub fn instantiate(self) -> (r: Result<ExplicitField, StandardFfError>)
        ensures
            self.validate_spec() matches Err(e) ==> r == Err::<ExplicitField, StandardFfError>(e),
            r matches Ok(f) ==> f.wf() && f@.p == self.characteristic && f@.degree == self.degree
                && f@.card == self.order_spec(),
            self.validate_spec() is Ok && self.degree == 1 ==> (r matches Ok(f) && f@.model == (
            ModelSpec::Poly { modulus: seq![0u32, 1u32] })),
    {
        match self.validate() {
            Ok(()) => {},
            Err(e) => {
                return Err(e);
            },
        }
        proof {
            lemma_pow_nonneg_int(self.characteristic as nat, self.degree as nat);
        }
        standard_field(self.characteristic, self.degree)
    }
}

} // verus!
