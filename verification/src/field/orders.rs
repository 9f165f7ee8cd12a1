//! Primality and the prime-power field orders.
use vstd::arithmetic::power::*;
use vstd::prelude::*;

verus! {

/// `n` is a prime number.
pub open spec fn spec_prime(n: int) -> bool {
    n >= 2 && forall|d: int| 2 <= d < n ==> #[trigger] (n % d) != 0
}

/// Prime-power finite-field orders `q = p^k`.
#[derive(Clone, Copy, Debug, PartialEq, Eq, Structural, Hash, PartialOrd, Ord)]
pub struct PrimePower {
    pub characteristic: u32,
    pub degree: u32,
    pub order: u32,
}

/// `x` describes a field order `p^k <= max`.
pub open spec fn is_prime_power_upto(x: PrimePower, max: u32) -> bool {
    &&& spec_prime(x.characteristic as int)
    &&& x.degree >= 1
    &&& x.order as int == pow(x.characteristic as int, x.degree as nat)
    &&& x.order <= max
}

/// Strict order by (order, characteristic, degree).
pub open spec fn pp_lt(a: PrimePower, b: PrimePower) -> bool {
    ||| a.order < b.order
    ||| (a.order == b.order && a.characteristic < b.characteristic)
    ||| (a.order == b.order && a.characteristic == b.characteristic && a.degree < b.degree)
}

pub open spec fn pp_sorted(s: Seq<PrimePower>) -> bool {
    forall|i: int, j: int| 0 <= i < j < s.len() ==> pp_lt(s[i], s[j])
}

/// If `n` has a divisor in `2..n`, it has one whose square is at most `n`.
proof fn lemma_small_divisor(n: int, d: int)
    requires
        2 <= d < n,
        n % d == 0,
    ensures
        exists|e: int| 2 <= e && e * e <= n && #[trigger] (n % e) == 0,
{
    if d * d <= n {
        assert(n % d == 0);
    } else {
        let e = n / d;
        vstd::arithmetic::div_mod::lemma_fundamental_div_mod(n, d);
        assert(n == d * e);
        assert(e >= 2) by (nonlinear_arith)
            requires
                n == d * e,
                d < n,
                d >= 2,
        ;
        assert(e * e <= n) by (nonlinear_arith)
            requires
                n == d * e,
                d * d > n,
                e >= 2,
                d >= 2,
        ;
        assert(n % e == 0) by {
            vstd::arithmetic::div_mod::lemma_mod_multiples_basic(d, e);
            assert(d * e == e * d) by (nonlinear_arith);
        }
    }
}

pub fn is_prime(n: u32) -> (r: bool)
    ensures
        r == spec_prime(n as int),
{
    if n < 2 {
        return false;
    }
    if n % 2 == 0 {
        if n == 2 {
            assert(spec_prime(2));
            return true;
        }
        assert(n % 2 == 0);
        return false;
    }
    let mut d: u32 = 3;
    while (d as u64) * (d as u64) <= n as u64
        invariant
            n >= 3,
            n % 2 == 1,
            3 <= d,
            d % 2 == 1,
            d <= 0x10001,
            (d as int) * (d as int) <= 0x1_0002_0001,
            forall|e: int| 2 <= e < d ==> #[trigger] (n as int % e) != 0,
        decreases 0x10001 - d,
    {
        if n % d == 0 {
            proof {
                assert((d as int) < (n as int)) by (nonlinear_arith)
                    requires
                        (d as int) * (d as int) <= n,
                        d >= 3,
                ;
                assert(n as int % d as int == 0);
            }
            return false;
        }
        proof {
            assert((d + 1) % 2 == 0);
            assert(n as int % (d + 1) as int != 0) by {
                if n as int % (d + 1) as int == 0 {
                    let q = n as int / (d + 1) as int;
                    vstd::arithmetic::div_mod::lemma_fundamental_div_mod(n as int, (d + 1) as int);
                    let h = ((d + 1) / 2) as int;
                    assert(n as int == 2 * (h * q)) by (nonlinear_arith)
                        requires
                            n as int == (d + 1) * q,
                            d + 1 == 2 * h,
                    ;
                    vstd::arithmetic::div_mod::lemma_mod_multiples_basic(h * q, 2);
                    assert((h * q) * 2 == 2 * (h * q)) by (nonlinear_arith);
                }
            }
            assert(d <= 0xffff) by (nonlinear_arith)
                requires
                    (d as int) * (d as int) <= 0xffff_ffff,
                    d >= 0,
            ;
        }
        d = d + 2;
        proof {
            assert((d as int) * (d as int) <= 0x1_0002_0001) by (nonlinear_arith)
                requires
                    d <= 0x10001,
                    d >= 0,
            ;
        }
    }
    proof {
        assert forall|e: int| 2 <= e < n implies #[trigger] (n as int % e) != 0 by {
            if n as int % e == 0 {
                lemma_small_divisor(n as int, e);
                let f = choose|f: int| 2 <= f && f * f <= n && #[trigger] (n as int % f) == 0;
                assert(f < d) by (nonlinear_arith)
                    requires
                        f * f <= n,
                        (d as int) * (d as int) > n,
                        f >= 2,
                        d >= 3,
                ;
            }
        }
    }
    true
}

/// Insert `x` into the strictly sorted `out`, keeping it strictly sorted.
fn insert_sorted(out: &mut Vec<PrimePower>, x: PrimePower)
    requires
        pp_sorted(old(out)@),
        forall|i: int| 0 <= i < old(out)@.len() ==> old(out)@[i] != x,
    ensures
        pp_sorted(final(out)@),
        final(out)@.to_set() == old(out)@.to_set().insert(x),
        final(out)@.len() == old(out)@.len() + 1,
{
    let ghost s0 = out@;
    let mut pos: usize = 0;
    while pos < out.len() && !((x.order < out[pos].order) || (x.order == out[pos].order
        && x.characteristic < out[pos].characteristic) || (x.order == out[pos].order
        && x.characteristic == out[pos].characteristic && x.degree < out[pos].degree))
        invariant
            out@ == s0,
            pos <= out@.len(),
            forall|i: int| 0 <= i < pos ==> pp_lt(out@[i], x),
            forall|i: int| 0 <= i < s0.len() ==> s0[i] != x,
        decreases out@.len() - pos,
    {
        proof {
            let y = out@[pos as int];
            assert(y != x);
            assert(pp_lt(y, x));
        }
        pos = pos + 1;
    }
    out.insert(pos, x);
    proof {
        let s1 = out@;
        assert(s1 =~= s0.insert(pos as int, x));
        assert forall|i: int, j: int| 0 <= i < j < s1.len() implies pp_lt(s1[i], s1[j]) by {
            if pos < s0.len() {
                assert(pp_lt(x, s0[pos as int]));
            }
            if j < pos {
            } else if j == pos {
            } else if i < pos {
                assert(pp_lt(s0[i], x));
                if pos < s0.len() {
                    assert(pp_lt(s0[pos as int], s0[j - 1]) || pos == j - 1);
                }
            } else if i == pos {
                if pos < j - 1 {
                    assert(pp_lt(s0[pos as int], s0[j - 1]));
                }
            } else {
                assert(pp_lt(s0[i - 1], s0[j - 1]));
            }
        }
        assert(s1.to_set() =~= s0.to_set().insert(x)) by {
            assert forall|y: PrimePower| s1.to_set().contains(y) implies s0.to_set().insert(x).contains(y) by {
                let k = choose|k: int| 0 <= k < s1.len() && s1[k] == y;
                if k < pos {
                    assert(s0[k] == y);
                } else if k > pos {
                    assert(s0[k - 1] == y);
                }
            }
            assert forall|y: PrimePower| s0.to_set().insert(x).contains(y) implies s1.to_set().contains(y) by {
                if y == x {
                    assert(s1[pos as int] == x);
                } else {
                    let k = choose|k: int| 0 <= k < s0.len() && s0[k] == y;
                    if k < pos {
                        assert(s1[k] == y);
                    } else {
                        assert(s1[k + 1] == y);
                    }
                }
            }
        }
    }
}

/// Prime-power finite-field orders `q = p^k <= max`, sorted by (q, p, k).
pub fn prime_powers_up_to(max: u32) -> (out: Vec<PrimePower>)
    ensures
        pp_sorted(out@),
        forall|x: PrimePower| out@.contains(x) <==> is_prime_power_upto(x, max),
{
    let mut out: Vec<PrimePower> = Vec::new();
    if max < 2 {
        proof {
            assert forall|x: PrimePower| out@.contains(x) <==> is_prime_power_upto(x, max) by {
                if is_prime_power_upto(x, max) {
                    lemma_pow_at_least_base(x.characteristic as nat, x.degree as nat);
                }
            }
        }
        return out;
    }
    let mut p: u64 = 2;
    while p <= max as u64
        invariant
            2 <= p <= max as u64 + 1,
            pp_sorted(out@),
            forall|x: PrimePower|
                out@.contains(x) <==> (is_prime_power_upto(x, max) && x.characteristic < p),
        decreases max as u64 + 1 - p,
    {
        let pc = p as u32;
        if is_prime(pc) {
            let mut q: u64 = p;
            let mut degree: u32 = 1;
            proof {
                lemma_pow1(p as int);
            }
            while q <= max as u64
                invariant
                    2 <= p <= max,
                    pc == p,
                    spec_prime(p as int),
                    1 <= degree,
                    q == pow(p as int, degree as nat),
                    q <= 0xffff_ffff * 0xffff_ffffu64,
                    degree < q,
                    pp_sorted(out@),
                    forall|x: PrimePower|
                        out@.contains(x) <==> (is_prime_power_upto(x, max) && (x.characteristic
                            < p || (x.characteristic == p && x.degree < degree))),
                decreases (if q <= max as u64 {
                    max as u64 + 1 - q
                } else {
                    0
                }),
            {
                let entry = PrimePower { characteristic: pc, degree, order: q as u32 };
                proof {
                    assert forall|i: int| 0 <= i < out@.len() implies out@[i] != entry by {
                        if out@[i] == entry {
                            assert(out@.contains(entry));
                            assert(out@.contains(entry) ==> (is_prime_power_upto(entry, max) && (
                            entry.characteristic < p || (entry.characteristic == p && entry.degree
                                < degree))));
                            assert(entry.characteristic as u64 == p);
                            assert(!(entry.characteristic < p || (entry.characteristic == p
                                && entry.degree < degree)));
                        }
                    }
                }
                let ghost before = out@;
                insert_sorted(&mut out, entry);
                proof {
                    assert forall|x: PrimePower|
                        out@.contains(x) <==> (is_prime_power_upto(x, max) && (x.characteristic
                            < p || (x.characteristic == p && x.degree < degree + 1))) by {
                        assert(out@.contains(x) <==> out@.to_set().contains(x));
                        assert(before.contains(x) <==> before.to_set().contains(x));
                        assert(out@.to_set().contains(x) <==> (before.to_set().contains(x) || x
                            == entry));
                        if x.characteristic == p && x.degree == degree && is_prime_power_upto(x, max) {
                            assert(x.order == entry.order);
                            assert(x == entry);
                        }
                        if x == entry {
                            assert(is_prime_power_upto(x, max));
                        }
                    }
                    assert(q * p <= 0xffff_ffff * 0xffff_ffffu64) by (nonlinear_arith)
                        requires
                            q <= 0xffff_ffff,
                            p <= 0xffff_ffff,
                    ;
                    assert(pow(p as int, (degree + 1) as nat) == p * pow(p as int, degree as nat)) by {
                        reveal(pow);
                    }
                    assert(q * p >= 2 * q) by (nonlinear_arith)
                        requires
                            p >= 2,
                            q >= 0,
                    ;
                }
                q = q * p;
                degree = degree + 1;
                proof {
                    assert(q == p * pow(p as int, (degree - 1) as nat)) by (nonlinear_arith)
                        requires
                            q == pow(p as int, (degree - 1) as nat) * p,
                    ;
                }
            }
            proof {
                assert forall|x: PrimePower|
                    out@.contains(x) <==> (is_prime_power_upto(x, max) && x.characteristic < p + 1) by {
                    if is_prime_power_upto(x, max) && x.characteristic == p && x.degree >= degree {
                        lemma_pow_increases(p as nat, degree as nat, x.degree as nat);
                    }
                }
            }
        } else {
            proof {
                assert forall|x: PrimePower|
                    out@.contains(x) <==> (is_prime_power_upto(x, max) && x.characteristic < p + 1) by {
                }
            }
        }
        p = p + 1;
    }
    proof {
        assert forall|x: PrimePower| out@.contains(x) <==> is_prime_power_upto(x, max) by {
            if is_prime_power_upto(x, max) {
                lemma_pow_at_least_base(x.characteristic as nat, x.degree as nat);
            }
        }
    }
    out
}

pub(crate) proof fn lemma_pow_at_least_base(b: nat, k: nat)
    requires
        b >= 1,
        k >= 1,
    ensures
        pow(b as int, k) >= b,
{
    lemma_pow1(b as int);
    lemma_pow_increases(b, 1, k);
}

} // verus!
