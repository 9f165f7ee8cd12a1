//! Binomial coefficients modulo a prime, by Lucas' theorem, so that Hasse
//! orders at or above the characteristic stay correct.
use vstd::arithmetic::div_mod::*;
use vstd::arithmetic::mul::*;
use vstd::arithmetic::power::*;
use vstd::prelude::*;

verus! {

/// Falling factorial `n (n-1) ... (n-k+1)`.
pub open spec fn falling(n: nat, k: nat) -> nat
    decreases k,
{
    if k == 0 {
        1
    } else {
        falling(n, (k - 1) as nat) * ((n - (k - 1)) as nat)
    }
}

pub open spec fn factorial(k: nat) -> nat
    decreases k,
{
    if k == 0 {
        1
    } else {
        factorial((k - 1) as nat) * k
    }
}

/// `C(n, k) mod p` for digits `k <= n < p`: the falling factorial of the
/// smaller of `k` and `n - k`, times the Fermat inverse `(j! mod p)^(p-2)`.
pub open spec fn small_binom_spec(n: nat, k: nat, p: nat) -> nat {
    let j: nat = if k <= n - k {
        k
    } else {
        (n - k) as nat
    };
    ((falling(n, j) % p) * ((pow((factorial(j) % p) as int, (p - 2) as nat) % (p as int)) as nat))
        % p
}

/// Lucas' theorem: the product over base-`p` digits of the digit binomials,
/// zero as soon as a digit of `k` exceeds the digit of `n`.
pub open spec fn lucas(n: nat, k: nat, p: nat) -> nat
    decreases n + k,
{
    if p < 2 {
        0
    } else if n == 0 && k == 0 {
        1
    } else if k % p > n % p {
        0
    } else {
        proof {
            lemma_lucas_decreases(n, k, p);
        }
        (small_binom_spec(n % p, k % p, p) * lucas(n / p, k / p, p)) % p
    }
}

pub proof fn lemma_lucas_decreases(n: nat, k: nat, p: nat)
    requires
        p >= 2,
        !(n == 0 && k == 0),
        k % p <= n % p,
    ensures
        n / p + k / p < n + k,
{
    lemma_div_is_ordered_by_denominator(n as int, 1, p as int);
    lemma_div_is_ordered_by_denominator(k as int, 1, p as int);
    lemma_div_basics(n as int);
    lemma_div_basics(k as int);
    if n > 0 {
        lemma_div_decreases(n as int, p as int);
    } else {
        lemma_div_decreases(k as int, p as int);
    }
}

/// `C(n, k) mod p` (zero when `k > n`).
pub open spec fn binom_mod_spec(n: nat, k: nat, p: nat) -> nat {
    if k > n {
        0
    } else {
        lucas(n, k, p)
    }
}

proof fn lemma_lucas_bound(n: nat, k: nat, p: nat)
    requires
        p >= 2,
    ensures
        lucas(n, k, p) < p,
    decreases n + k,
{
    if !(n == 0 && k == 0) && k % p <= n % p {
        lemma_lucas_decreases(n, k, p);
        lemma_mod_bound((small_binom_spec(n % p, k % p, p) * lucas(n / p, k / p, p)) as int, p as int);
    }
}

/// Binomial coefficient `n choose k` reduced modulo `p`, by Lucas' theorem.
pub fn binomial_mod_prime(n: usize, k: usize, p: u32) -> (r: u32)
    requires
        p >= 2,
    ensures
        r == binom_mod_spec(n as nat, k as nat, p as nat),
        r < p,
{
    if k > n {
        return 0;
    }
    let ghost n0 = n as nat;
    let ghost k0 = k as nat;
    let ghost pp = p as nat;
    let mut nn = n;
    let mut kk = k;
    let mut out: u64 = 1;
    let p_usize = p as usize;
    proof {
        lemma_lucas_bound(n0, k0, pp);
        lemma_small_mod(lucas(n0, k0, pp), pp);
        lemma_mul_basics(lucas(n0, k0, pp) as int);
    }
    while nn != 0 || kk != 0
        invariant
            pp == p as nat,
            p >= 2,
            k0 <= n0,
            n0 == n as nat,
            k0 == k as nat,
            p_usize == p as usize,
            out < p,
            (out * lucas(nn as nat, kk as nat, pp)) % (pp as int) == lucas(n0, k0, pp),
        decreases nn + kk,
    {
        let ni = nn % p_usize;
        let ki = kk % p_usize;
        proof {
            lemma_lucas_decreases_if(nn as nat, kk as nat, pp);
        }
        if ki > ni {
            proof {
                assert((kk as nat) % pp > (nn as nat) % pp);
                assert(lucas(nn as nat, kk as nat, pp) == 0);
                lemma_mul_basics(out as int);
                assert(out * lucas(nn as nat, kk as nat, pp) == 0);
                lemma_small_mod(0, pp);
                assert((out * lucas(nn as nat, kk as nat, pp)) % (pp as int) == 0);
                assert(lucas(n0, k0, pp) == 0);
                assert(binom_mod_spec(n0, k0, pp) == 0);
            }
            return 0;
        }
        let s = small_binomial_mod_prime(ni, ki, p);
        let ghost rest = lucas((nn / p_usize) as nat, (kk / p_usize) as nat, pp);
        proof {
            assert(lucas(nn as nat, kk as nat, pp) == (s * rest) % (pp as int));
            lemma_lucas_bound((nn / p_usize) as nat, (kk / p_usize) as nat, pp);
            lemma_modmul_step(out as int, s as int, rest as int, pp as int);
            lemma_mul_below(out as nat, s as nat, p as nat);
        }
        out = out * s as u64 % p as u64;
        nn = nn / p_usize;
        kk = kk / p_usize;
    }
    proof {
        assert(lucas(0, 0, pp) == 1);
        assert(out * 1 == out);
        lemma_small_mod(out as nat, pp);
        assert(out == lucas(n0, k0, pp));
    }
    out as u32
}

proof fn lemma_lucas_decreases_if(n: nat, k: nat, p: nat)
    requires
        p >= 2,
        !(n == 0 && k == 0),
    ensures
        k % p <= n % p ==> n / p + k / p < n + k,
{
    if k % p <= n % p {
        lemma_lucas_decreases(n, k, p);
    }
}

/// Products of two residues below a 32-bit modulus fit in 64 bits.
proof fn lemma_mul_below(a: nat, b: nat, p: nat)
    requires
        a < p,
        b < p,
        p <= 0x1_0000_0000,
    ensures
        a * b < 0x1_0000_0000_0000_0000,
{
    lemma_mul_le(a, (p - 1) as nat, b, (p - 1) as nat);
    assert((p - 1) * (p - 1) < 0x1_0000_0000_0000_0000) by (nonlinear_arith)
        requires
            p <= 0x1_0000_0000,
            p >= 1,
    ;
}

proof fn lemma_mul_le(a: nat, b: nat, c: nat, d: nat)
    requires
        a <= b,
        c <= d,
    ensures
        a * c <= b * d,
{
    assert(a * c <= b * d) by (nonlinear_arith)
        requires
            a <= b,
            c <= d,
    ;
}

/// `(o * ((s * t) % m)) % m == (((o * s) % m) * t) % m`.
proof fn lemma_modmul_step(o: int, s: int, t: int, m: int)
    requires
        m > 0,
    ensures
        (o * ((s * t) % m)) % m == (((o * s) % m) * t) % m,
{
    lemma_mul_mod_noop_general(o, s * t, m);
    lemma_mul_mod_noop_general(o * s, t, m);
    lemma_mul_is_associative(o, s, t);
}

/// `C(n, k) mod p` for `k <= n < p`.
fn small_binomial_mod_prime(n: usize, k: usize, p: u32) -> (r: u32)
    requires
        p >= 2,
        k <= n,
        n < p,
    ensures
        r == small_binom_spec(n as nat, k as nat, p as nat),
        r < p,
{
    let k = if k <= n - k {
        k
    } else {
        n - k
    };
    let ghost pm = p as int;
    let mut numerator: u64 = 1;
    let mut denominator: u64 = 1;
    let mut i: usize = 0;
    proof {
        lemma_small_mod(1, p as nat);
    }
    while i < k
        invariant
            pm == p as int,
            p >= 2,
            k <= n,
            n < p,
            i <= k,
            numerator < p,
            denominator < p,
            numerator == falling(n as nat, i as nat) % (p as nat),
            denominator == factorial(i as nat) % (p as nat),
        decreases k - i,
    {
        proof {
            lemma_mul_mod_noop_left(falling(n as nat, i as nat) as int, (n - i) as int, pm);
            lemma_mul_mod_noop_left(factorial(i as nat) as int, (i + 1) as int, pm);
            lemma_mul_below(numerator as nat, (n - i) as nat, p as nat);
            lemma_mul_below(denominator as nat, (i + 1) as nat, p as nat);
        }
        numerator = numerator * (n - i) as u64 % p as u64;
        denominator = denominator * (i + 1) as u64 % p as u64;
        i = i + 1;
    }
    let inv = mod_pow(denominator, p as u64 - 2, p as u64);
    proof {
        lemma_mul_below(numerator as nat, inv as nat, p as nat);
    }
    (numerator * inv % p as u64) as u32
}

/// `(out * cur^e) mod m` after one square-and-multiply step.
pub proof fn lemma_modpow_step(out: int, cur: int, e: nat, m: int)
    requires
        m > 0,
    ensures
        (out * pow(cur, e)) % m == (((out * pow(cur, e % 2)) % m) * pow((cur * cur) % m, e / 2)) % m,
{
    lemma_pow_adds(cur, e % 2, 2 * (e / 2));
    lemma_pow_multiplies(cur, 2, e / 2);
    lemma_square_is_pow2(cur);
    assert(e % 2 + 2 * (e / 2) == e);
    assert(pow(cur, 2) == cur * cur) by {
        reveal(pow);
    }
    let a = out * pow(cur, e % 2);
    let b = pow(cur * cur, e / 2);
    assert(pow(cur, e) == pow(cur, e % 2) * b);
    lemma_mul_is_associative(out, pow(cur, e % 2), b);
    lemma_mul_mod_noop_general(a, b, m);
    lemma_pow_mod_noop(cur * cur, e / 2, m);
    lemma_mul_mod_noop_general(a % m, pow((cur * cur) % m, e / 2), m);
    lemma_mul_mod_noop_general(a % m, b, m);
}

/// `base^exp mod modulus` by repeated squaring.
fn mod_pow(base: u64, exp: u64, modulus: u64) -> (r: u64)
    requires
        2 <= modulus <= 0x1_0000_0000,
        base < modulus,
    ensures
        r == pow(base as int, exp as nat) % (modulus as int),
        r < modulus,
{
    let ghost m = modulus as int;
    let ghost b0 = base as int;
    let ghost e0 = exp as nat;
    let mut out: u64 = 1;
    let mut base = base;
    let mut exp = exp;
    proof {
        lemma_mul_basics(pow(b0, e0));
        lemma_small_mod(1, modulus as nat);
    }
    while exp != 0
        invariant
            m == modulus as int,
            2 <= modulus <= 0x1_0000_0000,
            out < modulus,
            base < modulus,
            (out * pow(base as int, exp as nat)) % m == pow(b0, e0) % m,
        decreases exp,
    {
        proof {
            lemma_modpow_step(out as int, base as int, exp as nat, m);
            assert(exp & 1 == exp % 2) by (bit_vector);
            assert(exp >> 1 == exp / 2) by (bit_vector);
            assert(out * base < 0x1_0000_0000_0000_0000) by (nonlinear_arith)
                requires
                    out < modulus,
                    base < modulus,
                    modulus <= 0x1_0000_0000,
            ;
            assert(base * base < 0x1_0000_0000_0000_0000) by (nonlinear_arith)
                requires
                    base < modulus,
                    modulus <= 0x1_0000_0000,
            ;
            reveal(pow);
            lemma_pow1(base as int);
            lemma_small_mod(out as nat, modulus as nat);
        }
        if exp & 1 != 0 {
            out = out * base % modulus;
        } else {
            proof {
                assert((out * pow(base as int, 0)) % m == out);
            }
        }
        base = base * base % modulus;
        exp = exp >> 1;
    }
    proof {
        reveal(pow);
        lemma_small_mod(out as nat, modulus as nat);
    }
    out
}

} // verus!
