//! Explicit finite-field arithmetic: a simple polynomial basis over F_p, and
//! StandardFF tower steps `K[X]/f` over an already standardized field `K`.
use crate::field::orders::{is_prime, spec_prime};
use vstd::arithmetic::div_mod::*;
use vstd::arithmetic::mul::*;
use vstd::arithmetic::power::*;
use vstd::prelude::*;

verus! {

/// Mathematical description of a field model.
pub enum ModelSpec {
    /// `F_p[X] / modulus`, modulus monic, low coefficient first.
    Poly { modulus: Seq<u32> },
    /// `base[X] / (X^rd + sum modulus[i] X^i)`; elements are flattened blocks.
    Tower { base: Box<FieldSpec>, rd: nat, modulus: Seq<Seq<u32>> },
}

/// Mathematical description of an explicit field.
pub struct FieldSpec {
    pub p: nat,
    pub degree: nat,
    pub card: nat,
    pub model: ModelSpec,
}

#[derive(Debug, PartialEq, Eq)]
pub struct ExplicitField {
    p: u32,
    degree: usize,
    cardinality: u128,
    model: FieldModel,
}

#[derive(Debug, PartialEq, Eq)]
enum FieldModel {
    /// Simple polynomial basis over the prime field.
    Polynomial { modulus: Vec<u32> },
    /// StandardFF tower basis: blocks of `base.degree` coefficients are the
    /// coefficients of successive powers of the adjoined generator.
    Tower { base: Box<ExplicitField>, relative_degree: usize, modulus: Vec<FieldElement> },
}

#[derive(Clone, Debug, PartialEq, Eq)]
pub struct FieldElement {
    coeffs: Vec<u32>,
}

#[derive(Clone, Debug, PartialEq, Eq, Structural)]
pub enum FieldError {
    InvalidCharacteristic(u32),
    InvalidModulus,
    CardinalityOverflow,
    RankOutOfRange { rank: u128, cardinality: u128 },
    WrongDegree { expected: usize, actual: usize },
    CoefficientOutOfRange { coefficient: u32, characteristic: u32 },
    NonInvertible,
}

impl View for FieldElement {
    type V = Seq<u32>;

    closed spec fn view(&self) -> Seq<u32> {
        self.coeffs@
    }
}

pub open spec fn elems_view(v: Seq<FieldElement>) -> Seq<Seq<u32>> {
    v.map_values(|e: FieldElement| e@)
}

impl ExplicitField {
    pub closed spec fn spec_view(&self) -> FieldSpec
        decreases self,
    {
        FieldSpec {
            p: self.p as nat,
            degree: self.degree as nat,
            card: self.cardinality as nat,
            model: match &self.model {
                FieldModel::Polynomial { modulus } => ModelSpec::Poly { modulus: modulus@ },
                FieldModel::Tower { base, relative_degree, modulus } => ModelSpec::Tower {
                    base: Box::new((**base).spec_view()),
                    rd: *relative_degree as nat,
                    modulus: elems_view(modulus@),
                },
            },
        }
    }
}

impl View for ExplicitField {
    type V = FieldSpec;

    open spec fn view(&self) -> FieldSpec {
        self.spec_view()
    }
}

/// `e` is an element of `f`: the right number of coefficients, each below p.
pub open spec fn elem_ok(f: FieldSpec, e: Seq<u32>) -> bool {
    &&& e.len() == f.degree
    &&& forall|i: int| 0 <= i < e.len() ==> #[trigger] e[i] < f.p
}

/// Well-formed field description.
pub open spec fn fs_wf(f: FieldSpec) -> bool
    decreases f,
{
    &&& spec_prime(f.p as int)
    &&& f.p < 0x1_0000_0000
    &&& f.degree >= 1
    &&& f.card == pow(f.p as int, f.degree)
    &&& f.card < 0x1_0000_0000_0000_0000_0000_0000_0000_0000
    &&& match f.model {
        ModelSpec::Poly { modulus } => {
            &&& modulus.len() == f.degree + 1
            &&& modulus[f.degree as int] == 1
            &&& forall|i: int| 0 <= i < f.degree ==> #[trigger] modulus[i] < f.p
        },
        ModelSpec::Tower { base, rd, modulus } => {
            &&& fs_wf(*base)
            &&& base.p == f.p
            &&& rd >= 2
            &&& f.degree == base.degree * rd
            &&& f.card == pow(base.card as int, rd)
            &&& modulus.len() == rd
            &&& forall|i: int| 0 <= i < rd ==> elem_ok(*base, #[trigger] modulus[i])
        },
    }
}

pub open spec fn zero_spec(f: FieldSpec) -> Seq<u32> {
    Seq::new(f.degree, |i: int| 0u32)
}

pub open spec fn one_spec(f: FieldSpec) -> Seq<u32> {
    zero_spec(f).update(0, (1nat % f.p) as u32)
}

pub open spec fn from_prime_spec(f: FieldSpec, value: u32) -> Seq<u32> {
    zero_spec(f).update(0, ((value as nat) % f.p) as u32)
}

/// Steinitz digits: base-p digits of `rank`, least significant first.
pub open spec fn from_rank_spec(f: FieldSpec, rank: nat) -> Seq<u32> {
    Seq::new(f.degree, |i: int| ((rank / (pow(f.p as int, i as nat) as nat)) % f.p) as u32)
}

/// Steinitz number of a coefficient vector: `sum c[i] p^i`.
pub open spec fn rank_spec(c: Seq<u32>, p: nat) -> nat
    decreases c.len(),
{
    if c.len() == 0 {
        0
    } else {
        rank_spec(c.drop_last(), p) + (c.last() as nat) * (pow(p as int, (c.len() - 1) as nat) as nat)
    }
}

pub open spec fn add_spec(f: FieldSpec, a: Seq<u32>, b: Seq<u32>) -> Seq<u32> {
    Seq::new(f.degree, |i: int| ((a[i] + b[i]) % (f.p as int)) as u32)
}

pub open spec fn sub_spec(f: FieldSpec, a: Seq<u32>, b: Seq<u32>) -> Seq<u32> {
    Seq::new(f.degree, |i: int| ((a[i] + f.p - b[i]) % (f.p as int)) as u32)
}

pub open spec fn neg_spec(f: FieldSpec, a: Seq<u32>) -> Seq<u32> {
    Seq::new(f.degree, |i: int| if a[i] == 0 { 0u32 } else { (f.p - a[i]) as u32 })
}

pub open spec fn is_zero_spec(a: Seq<u32>) -> bool {
    forall|i: int| 0 <= i < a.len() ==> #[trigger] a[i] == 0
}

/// Index of the first coefficient at or above `p`, if any.
pub open spec fn first_bad_coefficient(e: Seq<u32>, p: nat, i: int) -> bool {
    &&& 0 <= i < e.len()
    &&& e[i] >= p
    &&& forall|j: int| 0 <= j < i ==> e[j] < p
}

/// The membership check performed before every operation.
pub open spec fn check_spec(f: FieldSpec, e: Seq<u32>) -> Result<(), FieldError> {
    if e.len() != f.degree {
        Err(FieldError::WrongDegree { expected: f.degree as usize, actual: e.len() as usize })
    } else if exists|i: int| first_bad_coefficient(e, f.p, i) {
        let i = choose|i: int| first_bad_coefficient(e, f.p, i);
        Err(
            FieldError::CoefficientOutOfRange {
                coefficient: e[i],
                characteristic: f.p as u32,
            },
        )
    } else {
        Ok(())
    }
}

/// The error reported for a non-member (meaningful when `check_spec` fails).
pub open spec fn check_err(f: FieldSpec, e: Seq<u32>) -> FieldError {
    match check_spec(f, e) {
        Err(x) => x,
        Ok(_) => FieldError::NonInvertible,
    }
}

proof fn lemma_first_bad_unique(e: Seq<u32>, p: nat, i: int, j: int)
    requires
        first_bad_coefficient(e, p, i),
        first_bad_coefficient(e, p, j),
    ensures
        i == j,
{
    if i < j {
        assert(e[i] < p);
    } else if j < i {
        assert(e[j] < p);
    }
}

proof fn lemma_check_ok(f: FieldSpec, e: Seq<u32>)
    ensures
        check_spec(f, e) is Ok <==> elem_ok(f, e),
{
    if e.len() == f.degree {
        if !elem_ok(f, e) {
            let k = choose|k: int| 0 <= k < e.len() && !(e[k] < f.p);
            lemma_exists_first_bad(e, f.p, k);
        } else {
            assert forall|i: int| !first_bad_coefficient(e, f.p, i) by {
                if 0 <= i < e.len() {
                    assert(e[i] < f.p);
                }
            }
        }
    }
}

proof fn lemma_exists_first_bad(e: Seq<u32>, p: nat, k: int)
    requires
        0 <= k < e.len(),
        e[k] >= p,
    ensures
        exists|i: int| first_bad_coefficient(e, p, i),
    decreases k,
{
    if forall|j: int| 0 <= j < k ==> e[j] < p {
        assert(first_bad_coefficient(e, p, k));
    } else {
        let j = choose|j: int| 0 <= j < k && !(e[j] < p);
        lemma_exists_first_bad(e, p, j);
    }
}

/// A well-formed field has degree at most 127 (p >= 2 and p^degree < 2^128).
proof fn lemma_degree_small(f: FieldSpec)
    requires
        fs_wf(f),
    ensures
        f.degree < 128,
{
    if f.degree >= 128 {
        lemma_pow_increases(f.p, 128, f.degree);
        lemma_pow_increases_base(2, f.p, 128);
        vstd::arithmetic::power2::lemma2_to64();
        assert(pow(2, 128) == 0x1_0000_0000_0000_0000_0000_0000_0000_0000) by {
            vstd::arithmetic::power2::lemma_pow2(128);
            vstd::arithmetic::power2::lemma_pow2_adds(64, 64);
            vstd::arithmetic::power2::lemma_pow2(64);
        }
    }
}

proof fn lemma_pow_increases_base(a: nat, b: nat, e: nat)
    requires
        1 <= a <= b,
    ensures
        pow(a as int, e) <= pow(b as int, e),
    decreases e,
{
    if e > 0 {
        lemma_pow_increases_base(a, b, (e - 1) as nat);
        reveal(pow);
        lemma_pow_positive(a as int, (e - 1) as nat);
        lemma_pow_positive(b as int, (e - 1) as nat);
        lemma_mul_le(a, b, pow(a as int, (e - 1) as nat) as nat, pow(b as int, (e - 1) as nat) as nat);
    } else {
        reveal(pow);
    }
}

proof fn lemma_mul_le(a: nat, b: nat, c: nat, d: nat)
    requires
        a <= b,
        c <= d,
    ensures
        a * c <= b * d,
{
    assert(a * c <= b * d) by (nonlinear_arith)
        requires
            a <= b,
            c <= d,
    ;
}


/// Coefficient `k` of the product of `a` and `b` over F_p, accumulated over
/// the first `n` coefficients of `a` (reduced mod p after every term).
pub open spec fn pconv(a: Seq<u32>, b: Seq<u32>, k: int, n: nat, p: nat) -> int
    decreases n,
{
    if n == 0 {
        0
    } else {
        let prev = pconv(a, b, k, (n - 1) as nat, p);
        let i = n - 1;
        if 0 <= k - i < b.len() {
            (prev + a[i] * b[k - i]) % (p as int)
        } else {
            prev
        }
    }
}

/// Full product coefficient vector (length `2d - 1` for degree-`d` inputs).
pub open spec fn pconv_seq(a: Seq<u32>, b: Seq<u32>, p: nat) -> Seq<int> {
    Seq::new((a.len() + b.len() - 1) as nat, |k: int| pconv(a, b, k, a.len(), p))
}

/// One elimination step of the top coefficient with the monic modulus:
/// `X^d = -sum m[i] X^i`.
pub open spec fn pstep(t: Seq<int>, top: int, d: nat, m: Seq<u32>, p: nat) -> Seq<int> {
    let f = t[top] % (p as int);
    if f == 0 {
        t
    } else {
        Seq::new(
            t.len(),
            |k: int|
                if k == top {
                    0
                } else if top - d <= k < top {
                    (t[k] + p - (f * m[k - (top - d)]) % (p as int)) % (p as int)
                } else {
                    t[k]
                },
        )
    }
}

/// Remainder modulo the monic modulus, eliminating coefficients `top` down to `d`.
pub open spec fn preduce(t: Seq<int>, top: nat, d: nat, m: Seq<u32>, p: nat) -> Seq<int>
    decreases top,
{
    if top < d || top == 0 {
        t
    } else {
        preduce(pstep(t, top as int, d, m, p), (top - 1) as nat, d, m, p)
    }
}

/// Product in the polynomial model `F_p[X] / m`.
pub open spec fn mul_poly_spec(f: FieldSpec, m: Seq<u32>, a: Seq<u32>, b: Seq<u32>) -> Seq<u32> {
    let d = f.degree;
    let t = preduce(pconv_seq(a, b, f.p), (2 * d - 2) as nat, d, m, f.p);
    Seq::new(d, |i: int| t[i] as u32)
}

pub open spec fn ints(v: Seq<u128>) -> Seq<int> {
    v.map_values(|x: u128| x as int)
}

proof fn lemma_pconv_bound(a: Seq<u32>, b: Seq<u32>, k: int, n: nat, p: nat)
    requires
        p >= 1,
    ensures
        0 <= pconv(a, b, k, n, p) < p,
    decreases n,
{
    if n > 0 {
        lemma_pconv_bound(a, b, k, (n - 1) as nat, p);
        let i = n - 1;
        if 0 <= k - i < b.len() {
            lemma_mod_bound(pconv(a, b, k, (n - 1) as nat, p) + a[i] * b[k - i], p as int);
        }
    }
}

/// Entries stay below p through every elimination step.
proof fn lemma_preduce_bound(t: Seq<int>, top: nat, d: nat, m: Seq<u32>, p: nat)
    requires
        p >= 1,
        forall|k: int| 0 <= k < t.len() ==> 0 <= #[trigger] t[k] < p,
    ensures
        preduce(t, top, d, m, p).len() == t.len(),
        forall|k: int|
            0 <= k < t.len() ==> 0 <= #[trigger] preduce(t, top, d, m, p)[k] < p,
    decreases top,
{
    if !(top < d || top == 0) {
        let s = pstep(t, top as int, d, m, p);
        assert forall|k: int| 0 <= k < s.len() implies 0 <= #[trigger] s[k] < p by {
            let f = t[top as int] % (p as int);
            if f != 0 && k != top && top - d <= k < top {
                lemma_mod_bound(t[k] + p - (f * m[k - (top - d)]) % (p as int), p as int);
            }
        }
        lemma_preduce_bound(s, (top - 1) as nat, d, m, p);
    }
}


/// Block `i` (of width `bd`) of a flattened tower element.
pub open spec fn block(a: Seq<u32>, bd: nat, i: int) -> Seq<u32> {
    a.subrange(i * bd, (i + 1) * bd)
}

/// Concatenation of coefficient blocks.
pub open spec fn concat_blocks(t: Seq<Seq<u32>>) -> Seq<u32>
    decreases t.len(),
{
    if t.len() == 0 {
        Seq::empty()
    } else {
        concat_blocks(t.drop_last()) + t.last()
    }
}

/// Product of two elements of `f`.
pub open spec fn mul_spec(f: FieldSpec, a: Seq<u32>, b: Seq<u32>) -> Seq<u32>
    decreases f, 2nat, 0nat,
{
    match f.model {
        ModelSpec::Poly { modulus } => mul_poly_spec(f, modulus, a, b),
        ModelSpec::Tower { base, rd, modulus } => {
            let t = treduce(f, tconv_seq(f, a, b, rd), (2 * rd - 2) as nat);
            concat_blocks(t.take(rd as int))
        },
    }
}

/// All tower convolution coefficients.
pub open spec fn tconv_seq(f: FieldSpec, a: Seq<u32>, b: Seq<u32>, rd: nat) -> Seq<Seq<u32>>
    decreases f, 1nat, rd + 1,
{
    Seq::new((2 * rd - 1) as nat, |k: int| tconv(f, a, b, k, rd))
}

/// Tower convolution coefficient `k` over the base field, accumulated over the
/// first `n` blocks of `a`.
pub open spec fn tconv(f: FieldSpec, a: Seq<u32>, b: Seq<u32>, k: int, n: nat) -> Seq<u32>
    decreases f, 1nat, n,
{
    match f.model {
        ModelSpec::Tower { base, rd, modulus } => {
            if n == 0 {
                zero_spec(*base)
            } else {
                let prev = tconv(f, a, b, k, (n - 1) as nat);
                let i = n - 1;
                if 0 <= k - i < rd {
                    add_spec(
                        *base,
                        prev,
                        mul_spec(*base, block(a, base.degree, i), block(b, base.degree, k - i)),
                    )
                } else {
                    prev
                }
            }
        },
        ModelSpec::Poly { .. } => Seq::empty(),
    }
}

/// One elimination step of block `top` with the tower modulus.
pub open spec fn tstep(f: FieldSpec, t: Seq<Seq<u32>>, top: int) -> Seq<Seq<u32>>
    decreases f, 0nat, 0nat,
{
    match f.model {
        ModelSpec::Tower { base, rd, modulus } => {
            let factor = t[top];
            if is_zero_spec(factor) {
                t
            } else {
                Seq::new(
                    t.len(),
                    |k: int|
                        if k == top {
                            zero_spec(*base)
                        } else if top - rd <= k < top {
                            sub_spec(*base, t[k], mul_spec(*base, factor, modulus[k - (top - rd)]))
                        } else {
                            t[k]
                        },
                )
            }
        },
        ModelSpec::Poly { .. } => t,
    }
}

/// Remainder modulo the tower modulus, eliminating blocks `top` down to `rd`.
pub open spec fn treduce(f: FieldSpec, t: Seq<Seq<u32>>, top: nat) -> Seq<Seq<u32>>
    decreases f, 1nat, top,
{
    match f.model {
        ModelSpec::Tower { base, rd, modulus } => {
            if top < rd || top == 0 {
                t
            } else {
                treduce(f, tstep(f, t, top as int), (top - 1) as nat)
            }
        },
        ModelSpec::Poly { .. } => t,
    }
}


proof fn lemma_block_ok(f: FieldSpec, base: FieldSpec, rd: nat, a: Seq<u32>, i: int)
    requires
        elem_ok(f, a),
        base.p == f.p,
        f.degree == base.degree * rd,
        0 <= i < rd,
    ensures
        elem_ok(base, block(a, base.degree, i)),
{
    let bd = base.degree;
    assert((i + 1) * bd <= rd * bd) by (nonlinear_arith)
        requires
            i + 1 <= rd,
    ;
    assert(i * bd >= 0) by (nonlinear_arith)
        requires
            i >= 0,
    ;
    assert((i + 1) * bd == i * bd + bd) by (nonlinear_arith);
    lemma_mul_is_commutative(bd as int, rd as int);
}

proof fn lemma_concat_blocks_ok(base: FieldSpec, t: Seq<Seq<u32>>)
    requires
        forall|k: int| 0 <= k < t.len() ==> elem_ok(base, #[trigger] t[k]),
    ensures
        concat_blocks(t).len() == t.len() * base.degree,
        forall|i: int|
            0 <= i < concat_blocks(t).len() ==> #[trigger] concat_blocks(t)[i] < base.p,
    decreases t.len(),
{
    if t.len() > 0 {
        lemma_concat_blocks_ok(base, t.drop_last());
        assert(elem_ok(base, t.last()));
        assert((t.len() - 1) * base.degree + base.degree == t.len() * base.degree) by (nonlinear_arith);
        let c = concat_blocks(t);
        let c0 = concat_blocks(t.drop_last());
        assert forall|i: int| 0 <= i < c.len() implies #[trigger] c[i] < base.p by {
            if i < c0.len() {
                assert(c[i] == c0[i]);
            } else {
                assert(c[i] == t.last()[i - c0.len()]);
            }
        }
    }
}

pub proof fn lemma_zero_ok(f: FieldSpec)
    requires
        f.p >= 1,
    ensures
        elem_ok(f, zero_spec(f)),
{
}

proof fn lemma_tconv_ok(f: FieldSpec, base: FieldSpec, rd: nat, m: Seq<Seq<u32>>, a: Seq<u32>, b: Seq<u32>, k: int, n: nat)
    requires
        f.model == (ModelSpec::Tower { base: Box::new(base), rd, modulus: m }),
        fs_wf(base),
        forall|x: Seq<u32>, y: Seq<u32>|
            elem_ok(base, x) && elem_ok(base, y) ==> elem_ok(base, #[trigger] mul_spec(base, x, y)),
        elem_ok(f, a),
        elem_ok(f, b),
        base.p == f.p,
        f.degree == base.degree * rd,
        n <= rd,
    ensures
        elem_ok(base, tconv(f, a, b, k, n)),
    decreases n,
{
    if n > 0 {
        lemma_tconv_ok(f, base, rd, m, a, b, k, (n - 1) as nat);
        let i = n - 1;
        if 0 <= k - i < rd {
            lemma_block_ok(f, base, rd, a, i);
            lemma_block_ok(f, base, rd, b, k - i);
            let prev = tconv(f, a, b, k, (n - 1) as nat);
            let pr = mul_spec(base, block(a, base.degree, i), block(b, base.degree, k - i));
            assert(elem_ok(base, pr));
            let s = add_spec(base, prev, pr);
            assert forall|j: int| 0 <= j < s.len() implies #[trigger] s[j] < base.p by {
                lemma_mod_bound(prev[j] + pr[j], base.p as int);
            }
        }
    }
}


/// Products of members are members.
proof fn lemma_mul_spec_ok(f: FieldSpec, a: Seq<u32>, b: Seq<u32>)
    requires
        fs_wf(f),
        elem_ok(f, a),
        elem_ok(f, b),
    ensures
        elem_ok(f, mul_spec(f, a, b)),
    decreases f,
{
    match f.model {
        ModelSpec::Poly { modulus } => {
            let d = f.degree;
            let t0 = pconv_seq(a, b, f.p);
            assert forall|k: int| 0 <= k < t0.len() implies 0 <= #[trigger] t0[k] < f.p by {
                lemma_pconv_bound(a, b, k, a.len(), f.p);
            }
            lemma_preduce_bound(t0, (2 * d - 2) as nat, d, modulus, f.p);
            let t = preduce(t0, (2 * d - 2) as nat, d, modulus, f.p);
            let r = mul_poly_spec(f, modulus, a, b);
            assert forall|i: int| 0 <= i < r.len() implies #[trigger] r[i] < f.p by {
                assert(0 <= t[i] < f.p);
            }
        },
        ModelSpec::Tower { base, rd, modulus } => {
            let bs = *base;
            assert forall|x: Seq<u32>, y: Seq<u32>|
                elem_ok(bs, x) && elem_ok(bs, y) implies elem_ok(bs, #[trigger] mul_spec(bs, x, y)) by {
                lemma_mul_spec_ok(bs, x, y);
            }
            let t0 = tconv_seq(f, a, b, rd);
            assert forall|k: int| 0 <= k < t0.len() implies elem_ok(bs, #[trigger] t0[k]) by {
                lemma_tconv_ok(f, bs, rd, modulus, a, b, k, rd);
            }
            lemma_treduce_ok(f, bs, rd, modulus, t0, (2 * rd - 2) as nat);
            let t = treduce(f, t0, (2 * rd - 2) as nat);
            lemma_concat_blocks_ok(bs, t.take(rd as int));
            assert(rd * bs.degree == f.degree) by (nonlinear_arith)
                requires
                    f.degree == bs.degree * rd,
            ;
        },
    }
}

proof fn lemma_treduce_ok(f: FieldSpec, bs: FieldSpec, rd: nat, m: Seq<Seq<u32>>, t: Seq<Seq<u32>>, top: nat)
    requires
        f.model == (ModelSpec::Tower { base: Box::new(bs), rd, modulus: m }),
        fs_wf(bs),
        forall|q: int| 0 <= q < rd ==> elem_ok(bs, #[trigger] m[q]),
        forall|x: Seq<u32>, y: Seq<u32>|
            elem_ok(bs, x) && elem_ok(bs, y) ==> elem_ok(bs, #[trigger] mul_spec(bs, x, y)),
        forall|k: int| 0 <= k < t.len() ==> elem_ok(bs, #[trigger] t[k]),
        top < t.len(),
    ensures
        treduce(f, t, top).len() == t.len(),
        forall|k: int| 0 <= k < t.len() ==> elem_ok(bs, #[trigger] treduce(f, t, top)[k]),
    decreases top,
{
    if !(top < rd || top == 0) {
        let s = tstep(f, t, top as int);
        assert forall|k: int| 0 <= k < s.len() implies elem_ok(bs, #[trigger] s[k]) by {
            let factor = t[top as int];
            if !is_zero_spec(factor) && k != top && top - rd <= k < top {
                let pr = mul_spec(bs, factor, m[k - (top - rd)]);
                let sv = sub_spec(bs, t[k], pr);
                assert forall|j: int| 0 <= j < sv.len() implies #[trigger] sv[j] < bs.p by {
                    lemma_mod_bound(t[k][j] + bs.p - pr[j], bs.p as int);
                }
            }
        }
        lemma_treduce_ok(f, bs, rd, m, s, (top - 1) as nat);
    }
}


/// `x^e` by the binary method: `sqm(f, out, cur, e) = out * cur^e`.
pub open spec fn sqm(f: FieldSpec, out: Seq<u32>, cur: Seq<u32>, e: nat) -> Seq<u32>
    decreases e,
{
    if e == 0 {
        out
    } else {
        let out2 = if e % 2 == 1 {
            mul_spec(f, out, cur)
        } else {
            out
        };
        if e / 2 == 0 {
            out2
        } else {
            sqm(f, out2, mul_spec(f, cur, cur), e / 2)
        }
    }
}

pub open spec fn pow_spec(f: FieldSpec, x: Seq<u32>, e: nat) -> Seq<u32> {
    sqm(f, one_spec(f), x, e)
}

/// `b^e` when it fits in u128.
pub open spec fn checked_pow_spec(b: nat, e: nat) -> Option<u128> {
    if pow(b as int, e) < 0x1_0000_0000_0000_0000_0000_0000_0000_0000 {
        Some(pow(b as int, e) as u128)
    } else {
        None
    }
}

proof fn lemma_pow_split(c: int, e: nat)
    ensures
        pow(c, e) == pow(c, e % 2) * pow(c * c, e / 2),
{
    lemma_pow_adds(c, e % 2, 2 * (e / 2));
    lemma_pow_multiplies(c, 2, e / 2);
    lemma_square_is_pow2(c);
    assert(e % 2 + 2 * (e / 2) == e);
    assert(pow(c, 2) == c * c) by {
        reveal(pow);
    }
}

/// `base^exponent` if it fits in u128, with the binary method.
pub fn checked_pow(base: u128, exponent: u32) -> (r: Option<u128>)
    ensures
        r == checked_pow_spec(base as nat, exponent as nat),
{
    let ghost b0 = base as int;
    let ghost e0 = exponent as nat;
    let mut out: u128 = 1;
    let mut cur: u128 = base;
    let mut e: u32 = exponent;
    proof {
        reveal(pow);
        lemma_pow_nonneg(base as nat, e0);
    }
    while e != 0
        invariant
            b0 == base as int,
            e0 == exponent as nat,
            out as int * pow(cur as int, e as nat) == pow(b0, e0),
            b0 == 0 ==> cur == 0,
            b0 >= 1 ==> cur >= 1 && out >= 1,
            pow(b0, e0) >= 0,
        decreases e,
    {
        let ghost cc = (cur as int) * (cur as int);
        let ghost half = (e / 2) as nat;
        let ghost big_p = pow(cc, half);
        proof {
            lemma_pow_split(cur as int, e as nat);
            lemma_pow_nonneg(cc as nat, half);
            assert(e & 1 == e % 2) by (bit_vector);
            reveal(pow);
            if b0 >= 1 {
                assert(cc >= 1) by (nonlinear_arith)
                    requires
                        cc == (cur as int) * (cur as int),
                        cur >= 1,
                ;
                lemma_pow_positive(cc, half);
            }
            assert(b0 >= 1 ==> big_p >= 1);
            assert(b0 >= 1 ==> cc >= 1);
        }
        if e & 1 != 0 {
            proof {
                lemma_pow1(cur as int);
                lemma_pow0(cur as int);
                assert(pow(cur as int, e as nat) == cur * big_p);
                assert(pow(b0, e0) == (out * cur) * big_p) by (nonlinear_arith)
                    requires
                        pow(b0, e0) == out * pow(cur as int, e as nat),
                        pow(cur as int, e as nat) == cur * big_p,
                ;
                if b0 >= 1 {
                    assert(out * cur <= (out * cur) * big_p) by (nonlinear_arith)
                        requires
                            out * cur >= 0,
                            big_p >= 1,
                    ;
                }
            }
            match out.checked_mul(cur) {
                Some(v) => {
                    proof {
                        if b0 >= 1 {
                            assert(v >= 1) by (nonlinear_arith)
                                requires
                                    v as int == (out as int) * (cur as int),
                                    out >= 1,
                                    cur >= 1,
                            ;
                        }
                    }
                    out = v;
                },
                None => {
                    proof {
                        assert((out as int) * (cur as int) > 0xffff_ffff_ffff_ffff_ffff_ffff_ffff_ffff);
                        if b0 == 0 {
                            assert((out as int) * (cur as int) == 0);
                        } else {
                            assert(pow(b0, e0) >= (out as int) * (cur as int)) by (nonlinear_arith)
                                requires
                                    pow(b0, e0) == ((out as int) * (cur as int)) * big_p,
                                    big_p >= 1,
                                    (out as int) * (cur as int) >= 0,
                            ;
                        }
                        assert(pow(b0, e0) >= 0x1_0000_0000_0000_0000_0000_0000_0000_0000);
                        assert((base as nat) as int == b0);
                    }
                    return None;
                },
            }
        } else {
            proof {
                lemma_pow0(cur as int);
                assert(pow(b0, e0) == out * big_p);
            }
        }
        proof {
            assert(pow(b0, e0) == out * big_p);
        }
        let ghost old_e = e;
        e = e >> 1;
        proof {
            assert(e == old_e / 2) by (bit_vector)
                requires
                    e == old_e >> 1,
            ;
        }
        if e != 0 {
            proof {
                if b0 >= 1 {
                    lemma_pow_increases(cc as nat, 1, e as nat);
                    lemma_pow1(cc);
                    assert(cc <= out * big_p) by (nonlinear_arith)
                        requires
                            out >= 1,
                            big_p >= cc,
                            cc >= 0,
                    ;
                }
                assert(b0 >= 1 ==> cc <= out * big_p);
            }
            match cur.checked_mul(cur) {
                Some(v) => {
                    cur = v;
                },
                None => {
                    proof {
                        assert((cur as int) * (cur as int) > 0xffff_ffff_ffff_ffff_ffff_ffff_ffff_ffff);
                        if b0 == 0 {
                            assert((cur as int) * (cur as int) == 0);
                        } else {
                            assert(cc <= out * big_p);
                        }
                        assert(pow(b0, e0) >= 0x1_0000_0000_0000_0000_0000_0000_0000_0000);
                        assert((base as nat) as int == b0);
                    }
                    return None;
                },
            }
            proof {
                if b0 >= 1 {
                    assert(cur >= 1) by (nonlinear_arith)
                        requires
                            cur as int == cc,
                            cc >= 1,
                    ;
                }
            }
        } else {
            proof {
                assert(big_p == 1);
                reveal(pow);
            }
        }
    }
    proof {
        reveal(pow);
    }
    Some(out)
}

/// A well-formed field has at least 2 elements.
proof fn lemma_pow_at_least(f: FieldSpec)
    requires
        fs_wf(f),
    ensures
        f.card >= 2,
{
    lemma_pow_increases(f.p, 1, f.degree);
    lemma_pow1(f.p as int);
}

/// A coefficient vector below p has Steinitz number below p^len.
proof fn lemma_rank_bound(c: Seq<u32>, p: nat)
    requires
        p >= 1,
        forall|i: int| 0 <= i < c.len() ==> #[trigger] c[i] < p,
    ensures
        rank_spec(c, p) < pow(p as int, c.len()),
    decreases c.len(),
{
    reveal(pow);
    if c.len() > 0 {
        let n1 = (c.len() - 1) as nat;
        lemma_rank_bound(c.drop_last(), p);
        lemma_pow_positive(p as int, n1);
        let q = pow(p as int, n1);
        assert(c.last() < p);
        assert(rank_spec(c.drop_last(), p) + (c.last() as nat) * q < p * q) by (nonlinear_arith)
            requires
                rank_spec(c.drop_last(), p) < q,
                c.last() < p,
                c.last() >= 0,
        ;
    }
}

/// The Steinitz number of any prefix is at most that of the whole vector.
proof fn lemma_rank_prefix_bound(c: Seq<u32>, p: nat, k: nat)
    requires
        k <= c.len(),
    ensures
        rank_spec(c.take(k as int), p) <= rank_spec(c, p),
    decreases c.len() - k,
{
    if k < c.len() {
        let t = c.take((k + 1) as int);
        assert(t.drop_last() =~= c.take(k as int));
        lemma_pow_nonneg(p, k);
        assert(rank_spec(c.take(k as int), p) <= rank_spec(t, p));
        lemma_rank_prefix_bound(c, p, k + 1);
    } else {
        assert(c.take(k as int) =~= c);
    }
}

proof fn lemma_pow_nonneg(p: nat, k: nat)
    ensures
        pow(p as int, k) >= 0,
    decreases k,
{
    reveal(pow);
    if k > 0 {
        lemma_pow_nonneg(p, (k - 1) as nat);
        assert(p * pow(p as int, (k - 1) as nat) >= 0) by (nonlinear_arith)
            requires
                pow(p as int, (k - 1) as nat) >= 0,
        ;
    }
}

impl ExplicitField {
    pub closed spec fn wf(&self) -> bool {
        &&& fs_wf(self@)
        &&& self.model_wf()
    }

    /// What well-formedness gives about the description.
    pub proof fn lemma_wf_facts(&self)
        requires
            self.wf(),
        ensures
            fs_wf(self@),
            self@.p >= 2,
            self@.degree >= 1,
            self@.card >= 2,
            self@.degree < 128,
    {
        lemma_pow_at_least(self@);
        lemma_degree_small(self@);
    }

    /// Exec-level shape facts that the view does not carry.
    closed spec fn model_wf(&self) -> bool
        decreases self,
    {
        match &self.model {
            FieldModel::Polynomial { .. } => true,
            FieldModel::Tower { base, .. } => (**base).model_wf(),
        }
    }

    pub fn characteristic(&self) -> (r: u32)
        ensures
            r == self@.p,
    {
        proof {
            reveal_with_fuel(ExplicitField::spec_view, 1);
        }
        self.p
    }

    pub fn degree(&self) -> (r: usize)
        ensures
            r == self@.degree,
    {
        self.degree
    }

    pub fn cardinality(&self) -> (r: u128)
        ensures
            r == self@.card,
    {
        self.cardinality
    }

    pub fn zero(&self) -> (r: FieldElement)
        ensures
            r@ == zero_spec(self@),
    {
        let mut coeffs: Vec<u32> = Vec::new();
        let mut i: usize = 0;
        while i < self.degree
            invariant
                i <= self.degree,
                coeffs@ == Seq::new(i as nat, |k: int| 0u32),
            decreases self.degree - i,
        {
            coeffs.push(0);
            i = i + 1;
            proof {
                assert(coeffs@ =~= Seq::new(i as nat, |k: int| 0u32));
            }
        }
        FieldElement { coeffs }
    }

    pub fn one(&self) -> (r: FieldElement)
        requires
            self.wf(),
        ensures
            r@ == one_spec(self@),
    {
        let mut out = self.zero();
        out.coeffs.set(0, 1 % self.p);
        proof {
            assert(out@ =~= one_spec(self@));
        }
        out
    }

    pub fn from_prime(&self, value: u32) -> (r: FieldElement)
        requires
            self.wf(),
        ensures
            r@ == from_prime_spec(self@, value),
    {
        let mut out = self.zero();
        out.coeffs.set(0, value % self.p);
        proof {
            assert(out@ =~= from_prime_spec(self@, value));
        }
        out
    }


    /// The prime field F_p.
    pub fn prime(p: u32) -> (r: Result<ExplicitField, FieldError>)
        ensures
            !spec_prime(p as int) ==> r == Err::<ExplicitField, FieldError>(
                FieldError::InvalidCharacteristic(p),
            ),
            spec_prime(p as int) ==> (r matches Ok(f) && f.wf() && f@.p == p && f@.degree == 1
                && f@.card == p && f@.model == (ModelSpec::Poly { modulus: seq![0u32, 1u32] })),
    {
        let mut m: Vec<u32> = Vec::new();
        m.push(0);
        m.push(1);
        proof {
            assert(m@ =~= seq![0u32, 1u32]);
            lemma_pow1(p as int);
        }
        Self::new(p, m)
    }

    /// Simple polynomial-basis field `F_p[X] / modulus` (modulus monic, low
    /// coefficient first).
    pub(crate) fn new(p: u32, modulus: Vec<u32>) -> (r: Result<ExplicitField, FieldError>)
        ensures
            !spec_prime(p as int) ==> r == Err::<ExplicitField, FieldError>(
                FieldError::InvalidCharacteristic(p),
            ),
            spec_prime(p as int) && !(modulus@.len() >= 2 && modulus@.last() == 1 && forall|i: int|
                0 <= i < modulus@.len() - 1 ==> #[trigger] modulus@[i] < p) ==> r == Err::<
                ExplicitField,
                FieldError,
            >(FieldError::InvalidModulus),
            spec_prime(p as int) && modulus@.len() >= 2 && modulus@.last() == 1 && (forall|i: int|
                0 <= i < modulus@.len() - 1 ==> #[trigger] modulus@[i] < p) ==> ({
                let d = (modulus@.len() - 1) as nat;
                &&& checked_pow_spec(p as nat, d) is None ==> r == Err::<ExplicitField, FieldError>(
                    FieldError::CardinalityOverflow,
                )
                &&& checked_pow_spec(p as nat, d) is Some ==> (r matches Ok(f) && f.wf() && f@.p
                    == p && f@.degree == d && f@.card == pow(p as int, d) && f@.model == (
                ModelSpec::Poly { modulus: modulus@ }))
            }),
    {
        if !is_prime(p) {
            return Err(FieldError::InvalidCharacteristic(p));
        }
        if modulus.len() < 2 || modulus[modulus.len() - 1] != 1 {
            return Err(FieldError::InvalidModulus);
        }
        let degree = modulus.len() - 1;
        let mut i: usize = 0;
        while i < degree
            invariant
                spec_prime(p as int),
                modulus@.len() >= 2,
                modulus@.last() == 1,
                degree == modulus@.len() - 1,
                i <= degree,
                forall|k: int| 0 <= k < i ==> #[trigger] modulus@[k] < p,
            decreases degree - i,
        {
            if modulus[i] >= p {
                return Err(FieldError::InvalidModulus);
            }
            i = i + 1;
        }
        if degree > 0xffff_ffff {
            proof {
                // p >= 2, so p^degree >= 2^degree >= 2^128
                lemma_pow_increases_base(2, p as nat, degree as nat);
                lemma_pow_increases(2, 128, degree as nat);
                vstd::arithmetic::power2::lemma_pow2(128);
                vstd::arithmetic::power2::lemma_pow2_adds(64, 64);
                vstd::arithmetic::power2::lemma_pow2(64);
                vstd::arithmetic::power2::lemma2_to64();
            }
            return Err(FieldError::CardinalityOverflow);
        }
        let cardinality = match checked_pow(p as u128, degree as u32) {
            Some(c) => {
                proof {
                    assert((degree as u32) as nat == degree as nat);
                    assert(((p as u128) as nat) as int == p as int);
                    lemma_pow_nonneg(p as nat, degree as nat);
                    assert(c as int == pow(p as int, degree as nat));
                }
                c
            },
            None => {
                proof {
                    assert((degree as u32) as nat == degree as nat);
                    assert(((p as u128) as nat) as int == p as int);
                }
                return Err(FieldError::CardinalityOverflow);
            },
        };
        let f = ExplicitField {
            p,
            degree,
            cardinality,
            model: FieldModel::Polynomial { modulus },
        };
        proof {
            assert(f@.model == (ModelSpec::Poly { modulus: modulus@ }));
            assert(f.model_wf());
            assert((degree as u32) as nat == degree as nat);
            assert(((p as u128) as nat) as int == p as int);
            assert(f@.card == pow(p as int, degree as nat));
            assert(modulus@[degree as int] == 1);
            assert(fs_wf(f@));
        }
        Ok(f)
    }

    /// One StandardFF tower step `K[X]/f` where `K` is a standardized field
    /// and `f` is monic of `relative_degree`, its low coefficients given by
    /// their Steinitz numbers in `K` (missing ones are zero).
    pub fn tower(base: ExplicitField, relative_degree: usize, coefficient_ranks: &[u128]) -> (r:
        Result<ExplicitField, FieldError>)
        requires
            base.wf(),
            relative_degree <= 0xffff_ffff,
        ensures
            relative_degree < 2 || coefficient_ranks@.len() > relative_degree ==> r == Err::<
                ExplicitField,
                FieldError,
            >(FieldError::InvalidModulus),
            r matches Ok(f) ==> f.wf() && f@.p == base@.p && f@.degree == base@.degree
                * relative_degree && f@.card == pow(base@.card as int, relative_degree as nat)
                && (f@.model matches ModelSpec::Tower { base: b, rd, modulus } && *b == base@ && rd
                == relative_degree && modulus == Seq::new(
                relative_degree as nat,
                |i: int|
                    from_rank_spec(
                        base@,
                        (if i < coefficient_ranks@.len() {
                            coefficient_ranks@[i]
                        } else {
                            0u128
                        }) as nat,
                    ),
            )),
            relative_degree >= 2 && coefficient_ranks@.len() <= relative_degree && base@.degree
                * relative_degree <= usize::MAX && pow(base@.card as int, relative_degree as nat)
                < 0x1_0000_0000_0000_0000_0000_0000_0000_0000 && (forall|i: int|
                0 <= i < coefficient_ranks@.len() ==> #[trigger] coefficient_ranks@[i] < base@.card)
                ==> r is Ok,
    {
        if relative_degree < 2 || coefficient_ranks.len() > relative_degree {
            return Err(FieldError::InvalidModulus);
        }
        let degree = match base.degree.checked_mul(relative_degree) {
            Some(d) => d,
            None => {
                return Err(FieldError::CardinalityOverflow);
            },
        };
        let base_card = base.cardinality;
        let cardinality = match checked_pow(base_card, relative_degree as u32) {
            Some(c) => {
                proof {
                    assert((relative_degree as u32) as nat == relative_degree as nat);
                    assert((base_card as nat) as int == base@.card as int);
                    lemma_pow_nonneg(base@.card, relative_degree as nat);
                    assert(c as int == pow(base@.card as int, relative_degree as nat));
                }
                c
            },
            None => {
                return Err(FieldError::CardinalityOverflow);
            },
        };
        let ghost bs = base@;
        proof {
            lemma_pow_at_least(bs);
        }
        let ghost want = Seq::new(
            relative_degree as nat,
            |i: int|
                from_rank_spec(
                    bs,
                    (if i < coefficient_ranks@.len() {
                        coefficient_ranks@[i]
                    } else {
                        0u128
                    }) as nat,
                ),
        );
        let mut modulus: Vec<FieldElement> = Vec::new();
        let mut i: usize = 0;
        while i < relative_degree
            invariant
                base.wf(),
                bs == base@,
                bs.card >= 2,
                relative_degree >= 2,
                coefficient_ranks@.len() <= relative_degree,
                i <= relative_degree,
                modulus@.len() == i,
                forall|k: int|
                    0 <= k < i ==> #[trigger] modulus@[k]@ == from_rank_spec(
                        bs,
                        (if k < coefficient_ranks@.len() {
                            coefficient_ranks@[k]
                        } else {
                            0u128
                        }) as nat,
                    ),
                forall|k: int| 0 <= k < i ==> elem_ok(bs, #[trigger] modulus@[k]@),
            decreases relative_degree - i,
        {
            let rank = if i < coefficient_ranks.len() {
                coefficient_ranks[i]
            } else {
                0
            };
            let e = match base.from_rank(rank) {
                Ok(e) => e,
                Err(err) => {
                    return Err(err);
                },
            };
            modulus.push(e);
            i = i + 1;
        }
        let p = base.p;
        let f = ExplicitField {
            p,
            degree,
            cardinality,
            model: FieldModel::Tower { base: Box::new(base), relative_degree, modulus },
        };
        proof {
            assert(elems_view(modulus@) =~= want);
            assert(f@.model == (ModelSpec::Tower {
                base: Box::new(bs),
                rd: relative_degree as nat,
                modulus: want,
            }));
            lemma_pow_multiplies(bs.p as int, bs.degree, relative_degree as nat);
            assert(f.model_wf());
            assert((relative_degree as u32) as nat == relative_degree as nat);
            assert((base_card as nat) as int == bs.card as int);
            assert(f@.card == pow(bs.card as int, relative_degree as nat));
            assert(f@.degree == bs.degree * relative_degree);
            assert(f@.degree >= 1) by (nonlinear_arith)
                requires
                    f@.degree == bs.degree * relative_degree,
                    bs.degree >= 1,
                    relative_degree >= 2,
            ;
            assert(fs_wf(f@));
        }
        Ok(f)
    }

    /// Field copy with the same description.
    pub fn duplicate(&self) -> (r: ExplicitField)
        requires
            self.wf(),
        ensures
            r@ == self@,
            r.wf(),
        decreases self,
    {
        let model = match &self.model {
            FieldModel::Polynomial { modulus } => FieldModel::Polynomial { modulus: modulus.clone() },
            FieldModel::Tower { base, relative_degree, modulus } => {
                let b = (**base).duplicate();
                let mut m: Vec<FieldElement> = Vec::new();
                let mut i: usize = 0;
                while i < modulus.len()
                    invariant
                        i <= modulus@.len(),
                        m@.len() == i,
                        forall|k: int| 0 <= k < i ==> #[trigger] m@[k]@ == modulus@[k]@,
                    decreases modulus@.len() - i,
                {
                    m.push(modulus[i].duplicate());
                    i = i + 1;
                }
                proof {
                    assert(elems_view(m@) =~= elems_view(modulus@));
                }
                FieldModel::Tower { base: Box::new(b), relative_degree: *relative_degree, modulus: m }
            },
        };
        ExplicitField { p: self.p, degree: self.degree, cardinality: self.cardinality, model }
    }

    /// `value^exponent` by repeated squaring.
    pub fn pow(&self, value: &FieldElement, exponent: u128) -> (r: Result<FieldElement, FieldError>)
        requires
            self.wf(),
        ensures
            !elem_ok(self@, value@) ==> r == Err::<FieldElement, FieldError>(
                check_err(self@, value@),
            ),
            elem_ok(self@, value@) ==> (r matches Ok(e) && e@ == pow_spec(self@, value@, exponent as nat)
                && elem_ok(self@, e@)),
    {
        match self.check(value) {
            Ok(()) => {},
            Err(e) => {
                return Err(e);
            },
        }
        let ghost f = self@;
        let mut out = self.one();
        let mut cur = value.duplicate();
        let mut e = exponent;
        proof {
            assert(elem_ok(f, out@)) by {
                lemma_mod_bound(1, f.p as int);
            }
        }
        while e != 0
            invariant
                f == self@,
                self.wf(),
                elem_ok(f, out@),
                elem_ok(f, cur@),
                sqm(f, out@, cur@, e as nat) == pow_spec(f, value@, exponent as nat),
            decreases e,
        {
            let ghost old_out = out@;
            let ghost old_cur = cur@;
            let ghost old_e = e;
            if e & 1 != 0 {
                out = match self.mul(&out, &cur) {
                    Ok(v) => v,
                    Err(_) => {
                        proof {
                            assert(false);
                        }
                        return Err(FieldError::NonInvertible);
                    },
                };
            }
            e = e >> 1;
            proof {
                assert(e == old_e / 2) by (bit_vector)
                    requires
                        e == old_e >> 1,
                ;
                assert((old_e & 1 != 0) == (old_e % 2 == 1)) by (bit_vector);
            }
            if e != 0 {
                cur = match self.mul(&cur, &cur) {
                    Ok(v) => v,
                    Err(_) => {
                        proof {
                            assert(false);
                        }
                        return Err(FieldError::NonInvertible);
                    },
                };
            }
        }
        Ok(out)
    }

    /// Multiplicative inverse as `value^(q-2)`.
    pub fn inverse(&self, value: &FieldElement) -> (r: Result<FieldElement, FieldError>)
        requires
            self.wf(),
        ensures
            !elem_ok(self@, value@) ==> r == Err::<FieldElement, FieldError>(
                check_err(self@, value@),
            ),
            elem_ok(self@, value@) && is_zero_spec(value@) ==> r == Err::<FieldElement, FieldError>(
                FieldError::NonInvertible,
            ),
            elem_ok(self@, value@) && !is_zero_spec(value@) ==> (r matches Ok(e) && e@ == pow_spec(
                self@,
                value@,
                (self@.card - 2) as nat,
            ) && elem_ok(self@, e@)),
    {
        match self.check(value) {
            Ok(()) => {},
            Err(e) => {
                return Err(e);
            },
        }
        if value.is_zero() {
            return Err(FieldError::NonInvertible);
        }
        proof {
            lemma_pow_at_least(self@);
        }
        self.pow(value, self.cardinality - 2)
    }

    fn check(&self, value: &FieldElement) -> (r: Result<(), FieldError>)
        ensures
            r == check_spec(self@, value@),
            r is Ok <==> elem_ok(self@, value@),
    {
        proof {
            lemma_check_ok(self@, value@);
        }
        if value.coeffs.len() != self.degree {
            return Err(FieldError::WrongDegree { expected: self.degree, actual: value.coeffs.len() });
        }
        let mut i: usize = 0;
        while i < value.coeffs.len()
            invariant
                i <= value@.len(),
                value@ == value.coeffs@,
                value@.len() == self@.degree,
                forall|j: int| 0 <= j < i ==> value@[j] < self@.p,
            decreases value@.len() - i,
        {
            if value.coeffs[i] >= self.p {
                proof {
                    assert(first_bad_coefficient(value@, self@.p, i as int));
                    let k = choose|k: int| first_bad_coefficient(value@, self@.p, k);
                    lemma_first_bad_unique(value@, self@.p, i as int, k);
                    assert(self@.p == self.p as nat);
                    assert(value@[k] == value.coeffs@[i as int]);
                    assert(value@.len() == self@.degree);
                    assert(exists|j: int| first_bad_coefficient(value@, self@.p, j));
                    assert((self@.p as u32) == self.p);
                    assert(check_spec(self@, value@) == Err::<(), FieldError>(
                        FieldError::CoefficientOutOfRange {
                            coefficient: value.coeffs@[i as int],
                            characteristic: self.p,
                        },
                    ));
                }
                return Err(
                    FieldError::CoefficientOutOfRange {
                        coefficient: value.coeffs[i],
                        characteristic: self.p,
                    },
                );
            }
            i = i + 1;
        }
        proof {
            assert forall|k: int| !first_bad_coefficient(value@, self@.p, k) by {
                if 0 <= k < value@.len() {
                    assert(value@[k] < self@.p);
                }
            }
        }
        Ok(())
    }

    /// Outcome of a binary operation: the membership checks of `a` then `b`.
    pub open spec fn binary_ok(&self, a: Seq<u32>, b: Seq<u32>) -> bool {
        elem_ok(self@, a) && elem_ok(self@, b)
    }

    pub fn add(&self, a: &FieldElement, b: &FieldElement) -> (r: Result<FieldElement, FieldError>)
        requires
            self.wf(),
        ensures
            !elem_ok(self@, a@) ==> r == Err::<FieldElement, FieldError>(check_err(self@, a@)),
            elem_ok(self@, a@) && !elem_ok(self@, b@) ==> r == Err::<FieldElement, FieldError>(
                check_err(self@, b@),
            ),
            self.binary_ok(a@, b@) ==> (r matches Ok(e) && e@ == add_spec(self@, a@, b@) && elem_ok(
                self@,
                e@,
            )),
    {
        match self.check(a) {
            Ok(()) => {},
            Err(e) => {
                return Err(e);
            },
        }
        match self.check(b) {
            Ok(()) => {},
            Err(e) => {
                return Err(e);
            },
        }
        let ghost f = self@;
        let p = self.p;
        let n = a.coeffs.len();
        let mut coeffs: Vec<u32> = Vec::new();
        let mut i: usize = 0;
        while i < n
            invariant
                f == self@,
                p == f.p,
                elem_ok(f, a@),
                elem_ok(f, b@),
                a@ == a.coeffs@,
                b@ == b.coeffs@,
                n == f.degree,
                i <= n,
                coeffs@.len() == i,
                forall|k: int| 0 <= k < i ==> #[trigger] coeffs@[k] == add_spec(f, a@, b@)[k],
            decreases n - i,
        {
            let x = a.coeffs[i];
            let y = b.coeffs[i];
            coeffs.push(((x as u64 + y as u64) % p as u64) as u32);
            i = i + 1;
        }
        let e = FieldElement { coeffs };
        proof {
            assert(e@ =~= add_spec(f, a@, b@));
        }
        Ok(e)
    }

    pub fn neg(&self, a: &FieldElement) -> (r: Result<FieldElement, FieldError>)
        requires
            self.wf(),
        ensures
            !elem_ok(self@, a@) ==> r == Err::<FieldElement, FieldError>(check_err(self@, a@)),
            elem_ok(self@, a@) ==> (r matches Ok(e) && e@ == neg_spec(self@, a@) && elem_ok(self@, e@)),
    {
        match self.check(a) {
            Ok(()) => {},
            Err(e) => {
                return Err(e);
            },
        }
        let ghost f = self@;
        let p = self.p;
        let n = a.coeffs.len();
        let mut coeffs: Vec<u32> = Vec::new();
        let mut i: usize = 0;
        while i < n
            invariant
                f == self@,
                p == f.p,
                elem_ok(f, a@),
                a@ == a.coeffs@,
                n == f.degree,
                i <= n,
                coeffs@.len() == i,
                forall|k: int| 0 <= k < i ==> #[trigger] coeffs@[k] == neg_spec(f, a@)[k],
            decreases n - i,
        {
            let x = a.coeffs[i];
            coeffs.push(if x == 0 { 0 } else { p - x });
            i = i + 1;
        }
        let e = FieldElement { coeffs };
        proof {
            assert(e@ =~= neg_spec(f, a@));
        }
        Ok(e)
    }

    pub fn sub(&self, a: &FieldElement, b: &FieldElement) -> (r: Result<FieldElement, FieldError>)
        requires
            self.wf(),
        ensures
            !elem_ok(self@, a@) ==> r == Err::<FieldElement, FieldError>(check_err(self@, a@)),
            elem_ok(self@, a@) && !elem_ok(self@, b@) ==> r == Err::<FieldElement, FieldError>(
                check_err(self@, b@),
            ),
            self.binary_ok(a@, b@) ==> (r matches Ok(e) && e@ == sub_spec(self@, a@, b@) && elem_ok(
                self@,
                e@,
            )),
    {
        match self.check(a) {
            Ok(()) => {},
            Err(e) => {
                return Err(e);
            },
        }
        match self.check(b) {
            Ok(()) => {},
            Err(e) => {
                return Err(e);
            },
        }
        let ghost f = self@;
        let p = self.p;
        let n = a.coeffs.len();
        let mut coeffs: Vec<u32> = Vec::new();
        let mut i: usize = 0;
        while i < n
            invariant
                f == self@,
                p == f.p,
                elem_ok(f, a@),
                elem_ok(f, b@),
                a@ == a.coeffs@,
                b@ == b.coeffs@,
                n == f.degree,
                i <= n,
                coeffs@.len() == i,
                forall|k: int| 0 <= k < i ==> #[trigger] coeffs@[k] == sub_spec(f, a@, b@)[k],
            decreases n - i,
        {
            let x = a.coeffs[i];
            let y = b.coeffs[i];
            coeffs.push(((x as u64 + p as u64 - y as u64) % p as u64) as u32);
            i = i + 1;
        }
        let e = FieldElement { coeffs };
        proof {
            assert(e@ =~= sub_spec(f, a@, b@));
        }
        Ok(e)
    }


    /// Product of two members of this field.
    pub fn mul(&self, a: &FieldElement, b: &FieldElement) -> (r: Result<FieldElement, FieldError>)
        requires
            self.wf(),
        ensures
            !elem_ok(self@, a@) ==> r == Err::<FieldElement, FieldError>(check_err(self@, a@)),
            elem_ok(self@, a@) && !elem_ok(self@, b@) ==> r == Err::<FieldElement, FieldError>(
                check_err(self@, b@),
            ),
            self.binary_ok(a@, b@) ==> (r matches Ok(e) && e@ == mul_spec(self@, a@, b@) && elem_ok(
                self@,
                e@,
            )),
        decreases self, 1nat,
    {
        match self.check(a) {
            Ok(()) => {},
            Err(e) => {
                return Err(e);
            },
        }
        match self.check(b) {
            Ok(()) => {},
            Err(e) => {
                return Err(e);
            },
        }
        match &self.model {
            FieldModel::Polynomial { modulus } => Ok(self.mul_polynomial(a, b, modulus)),
            FieldModel::Tower { .. } => Ok(self.mul_tower(a, b)),
        }
    }

    fn mul_tower(&self, a: &FieldElement, b: &FieldElement) -> (r: FieldElement)
        requires
            self.wf(),
            self.model is Tower,
            elem_ok(self@, a@),
            elem_ok(self@, b@),
        ensures
            r@ == mul_spec(self@, a@, b@),
            elem_ok(self@, r@),
        decreases self, 0nat,
    {
        let (base, relative_degree, modulus) = match &self.model {
            FieldModel::Tower { base, relative_degree, modulus } => (base, *relative_degree, modulus),
            FieldModel::Polynomial { .. } => {
                proof {
                    assert(false);
                }
                return FieldElement { coeffs: Vec::new() };
            },
        };
        let ghost f = self@;
        let ghost bs = base@;
        let ghost mv = elems_view(modulus@);
        let rd = relative_degree;
        let bd = base.degree;
        proof {
            assert(f.model == (ModelSpec::Tower { base: Box::new(bs), rd: rd as nat, modulus: mv }));
            assert(base.wf());
            lemma_degree_small(f);
            lemma_degree_small(bs);
            assert(bs.degree >= 1);
            assert(f.degree == bs.degree * rd);
            assert(rd <= f.degree) by (nonlinear_arith)
                requires
                    f.degree == bs.degree * rd,
                    bs.degree >= 1,
            ;
            assert forall|x: Seq<u32>, y: Seq<u32>|
                elem_ok(bs, x) && elem_ok(bs, y) implies elem_ok(bs, #[trigger] mul_spec(bs, x, y)) by {
                lemma_mul_spec_ok(bs, x, y);
            }
        }
        // Split both operands into base-field blocks.
        let mut aa: Vec<FieldElement> = Vec::new();
        let mut bb: Vec<FieldElement> = Vec::new();
        let mut i: usize = 0;
        while i < rd
            invariant
                f == self@,
                bs == base@,
                bd == bs.degree,
                f.degree == bs.degree * rd,
                rd <= f.degree < 128,
                a@ == a.coeffs@,
                b@ == b.coeffs@,
                elem_ok(f, a@),
                elem_ok(f, b@),
                i <= rd,
                aa@.len() == i,
                bb@.len() == i,
                forall|k: int| 0 <= k < i ==> #[trigger] aa@[k]@ == block(a@, bd as nat, k),
                forall|k: int| 0 <= k < i ==> #[trigger] bb@[k]@ == block(b@, bd as nat, k),
            decreases rd - i,
        {
            proof {
                assert((i + 1) * bd <= rd * bd) by (nonlinear_arith)
                    requires
                        i + 1 <= rd,
                ;
                assert((i + 1) * bd == i * bd + bd) by (nonlinear_arith);
                lemma_mul_is_commutative(bd as int, rd as int);
            }
            let start = i * bd;
            let mut ca: Vec<u32> = Vec::new();
            let mut cb: Vec<u32> = Vec::new();
            let mut j: usize = 0;
            while j < bd
                invariant
                    j <= bd,
                    start + bd <= a@.len(),
                    start + bd <= 128,
                    a@.len() == b@.len(),
                    a@ == a.coeffs@,
                    b@ == b.coeffs@,
                    a.coeffs@.len() == a@.len(),
                    b.coeffs@.len() == b@.len(),
                    ca@ == a@.subrange(start as int, start + j),
                    cb@ == b@.subrange(start as int, start + j),
                decreases bd - j,
            {
                ca.push(a.coeffs[start + j]);
                cb.push(b.coeffs[start + j]);
                j = j + 1;
                proof {
                    assert(ca@ =~= a@.subrange(start as int, start + j));
                    assert(cb@ =~= b@.subrange(start as int, start + j));
                }
            }
            aa.push(FieldElement { coeffs: ca });
            bb.push(FieldElement { coeffs: cb });
            i = i + 1;
        }
        let len = rd * 2 - 1;
        let mut tmp: Vec<FieldElement> = Vec::new();
        let mut z: usize = 0;
        while z < len
            invariant
                z <= len,
                tmp@.len() == z,
                forall|k: int| 0 <= k < z ==> #[trigger] tmp@[k]@ == zero_spec(bs),
                bs == base@,
            decreases len - z,
        {
            tmp.push(base.zero());
            z = z + 1;
        }
        // Convolution over the base field.
        let mut i: usize = 0;
        while i < rd
            invariant
                f == self@,
                bs == base@,
                base.wf(),
                self.model == (FieldModel::Tower { base: *base, relative_degree: rd, modulus: *modulus }),
                f.model == (ModelSpec::Tower { base: Box::new(bs), rd: rd as nat, modulus: mv }),
                bd == bs.degree,
                bs.p == f.p,
                f.degree == bs.degree * rd,
                2 <= rd <= f.degree < 128,
                len == 2 * rd - 1,
                elem_ok(f, a@),
                elem_ok(f, b@),
                aa@.len() == rd,
                bb@.len() == rd,
                forall|k: int| 0 <= k < rd ==> #[trigger] aa@[k]@ == block(a@, bd as nat, k),
                forall|k: int| 0 <= k < rd ==> #[trigger] bb@[k]@ == block(b@, bd as nat, k),
                forall|x: Seq<u32>, y: Seq<u32>|
                    elem_ok(bs, x) && elem_ok(bs, y) ==> elem_ok(bs, #[trigger] mul_spec(bs, x, y)),
                i <= rd,
                tmp@.len() == len,
                forall|k: int| 0 <= k < len ==> #[trigger] tmp@[k]@ == tconv(f, a@, b@, k, i as nat),
            decreases rd - i,
        {
            let mut j: usize = 0;
            while j < rd
                invariant
                    f == self@,
                    bs == base@,
                    base.wf(),
                    self.model == (FieldModel::Tower { base: *base, relative_degree: rd, modulus: *modulus }),
                    f.model == (ModelSpec::Tower { base: Box::new(bs), rd: rd as nat, modulus: mv }),
                    bd == bs.degree,
                    bs.p == f.p,
                    f.degree == bs.degree * rd,
                    2 <= rd <= f.degree < 128,
                    len == 2 * rd - 1,
                    elem_ok(f, a@),
                    elem_ok(f, b@),
                    aa@.len() == rd,
                    bb@.len() == rd,
                    forall|k: int| 0 <= k < rd ==> #[trigger] aa@[k]@ == block(a@, bd as nat, k),
                    forall|k: int| 0 <= k < rd ==> #[trigger] bb@[k]@ == block(b@, bd as nat, k),
                    forall|x: Seq<u32>, y: Seq<u32>|
                        elem_ok(bs, x) && elem_ok(bs, y) ==> elem_ok(
                            bs,
                            #[trigger] mul_spec(bs, x, y),
                        ),
                    i < rd,
                    j <= rd,
                    tmp@.len() == len,
                    forall|k: int|
                        0 <= k < len ==> #[trigger] tmp@[k]@ == (if i <= k < i + j {
                            tconv(f, a@, b@, k, (i + 1) as nat)
                        } else {
                            tconv(f, a@, b@, k, i as nat)
                        }),
                decreases rd - j,
            {
                let k = i + j;
                proof {
                    lemma_block_ok(f, bs, rd as nat, a@, i as int);
                    lemma_block_ok(f, bs, rd as nat, b@, j as int);
                    lemma_tconv_ok(f, bs, rd as nat, mv, a@, b@, k as int, i as nat);
                }
                let product = match base.mul(&aa[i], &bb[j]) {
                    Ok(v) => v,
                    Err(_) => {
                        proof {
                            assert(false);
                        }
                        return FieldElement { coeffs: Vec::new() };
                    },
                };
                let sum = match base.add(&tmp[k], &product) {
                    Ok(v) => v,
                    Err(_) => {
                        proof {
                            assert(false);
                        }
                        return FieldElement { coeffs: Vec::new() };
                    },
                };
                tmp.set(k, sum);
                j = j + 1;
            }
            proof {
                assert forall|k: int| 0 <= k < len implies #[trigger] tmp@[k]@ == tconv(
                    f,
                    a@,
                    b@,
                    k,
                    (i + 1) as nat,
                ) by {
                    if !(i <= k < i + rd) {
                        assert(!(0 <= k - i < rd));
                    }
                }
            }
            i = i + 1;
        }
        let ghost t0 = tconv_seq(f, a@, b@, rd as nat);
        proof {
            assert(elems_view(tmp@) =~= t0);
            assert forall|k: int| 0 <= k < len implies elem_ok(bs, #[trigger] tmp@[k]@) by {
                lemma_tconv_ok(f, bs, rd as nat, mv, a@, b@, k, rd as nat);
            }
        }
        // Eliminate blocks 2rd-2 down to rd.
        let mut top: usize = len - 1;
        while top >= rd
            invariant
                f == self@,
                bs == base@,
                base.wf(),
                self.model == (FieldModel::Tower { base: *base, relative_degree: rd, modulus: *modulus }),
                fs_wf(f),
                f.model == (ModelSpec::Tower { base: Box::new(bs), rd: rd as nat, modulus: mv }),
                mv == elems_view(modulus@),
                modulus@.len() == rd,
                forall|q: int| 0 <= q < rd ==> elem_ok(bs, #[trigger] mv[q]),
                bs.p == f.p,
                2 <= rd < 128,
                len == 2 * rd - 1,
                top < len,
                top + 1 >= rd,
                tmp@.len() == len,
                forall|x: Seq<u32>, y: Seq<u32>|
                    elem_ok(bs, x) && elem_ok(bs, y) ==> elem_ok(bs, #[trigger] mul_spec(bs, x, y)),
                forall|k: int| 0 <= k < len ==> elem_ok(bs, #[trigger] tmp@[k]@),
                treduce(f, elems_view(tmp@), top as nat) == treduce(f, t0, (2 * rd - 2) as nat),
            decreases top,
        {
            let ghost tb = elems_view(tmp@);
            let factor = tmp[top].duplicate();
            if !factor.is_zero() {
                tmp.set(top, base.zero());
                let shift = top - rd;
                let mut ii: usize = 0;
                while ii < rd
                    invariant
                        f == self@,
                        f.model == (ModelSpec::Tower { base: Box::new(bs), rd: rd as nat, modulus: mv }),
                        bs == base@,
                        base.wf(),
                        self.model == (FieldModel::Tower { base: *base, relative_degree: rd, modulus: *modulus }),
                        mv == elems_view(modulus@),
                        modulus@.len() == rd,
                        forall|q: int| 0 <= q < rd ==> elem_ok(bs, #[trigger] mv[q]),
                        2 <= rd < 128,
                        len == 2 * rd - 1,
                        rd <= top < len,
                        shift == top - rd,
                        tmp@.len() == len,
                        tb.len() == len,
                        factor@ == tb[top as int],
                        elem_ok(bs, factor@),
                        forall|x: Seq<u32>, y: Seq<u32>|
                            elem_ok(bs, x) && elem_ok(bs, y) ==> elem_ok(
                                bs,
                                #[trigger] mul_spec(bs, x, y),
                            ),
                        forall|k: int| 0 <= k < len ==> elem_ok(bs, #[trigger] tb[k]),
                        ii <= rd,
                        forall|k: int|
                            0 <= k < len ==> #[trigger] tmp@[k]@ == (if k == top {
                                zero_spec(bs)
                            } else if shift <= k < shift + ii {
                                sub_spec(bs, tb[k], mul_spec(bs, factor@, mv[k - shift]))
                            } else {
                                tb[k]
                            }),
                    decreases rd - ii,
                {
                    proof {
                        assert(mv[ii as int] == modulus@[ii as int]@);
                    }
                    let product = match base.mul(&factor, &modulus[ii]) {
                        Ok(v) => v,
                        Err(_) => {
                            proof {
                                assert(false);
                            }
                            return FieldElement { coeffs: Vec::new() };
                        },
                    };
                    let diff = match base.sub(&tmp[shift + ii], &product) {
                        Ok(v) => v,
                        Err(_) => {
                            proof {
                                assert(false);
                            }
                            return FieldElement { coeffs: Vec::new() };
                        },
                    };
                    tmp.set(shift + ii, diff);
                    ii = ii + 1;
                }
                proof {
                    assert(elems_view(tmp@) =~= tstep(f, tb, top as int));
                    assert forall|k: int| 0 <= k < len implies elem_ok(bs, #[trigger] tmp@[k]@) by {
                        if k != top && shift <= k < top {
                            let pr = mul_spec(bs, factor@, mv[k - shift]);
                            let sv = sub_spec(bs, tb[k], pr);
                            assert forall|j: int| 0 <= j < sv.len() implies #[trigger] sv[j] < bs.p by {
                                lemma_mod_bound(tb[k][j] + bs.p - pr[j], bs.p as int);
                            }
                        }
                    }
                }
            } else {
                proof {
                    assert(tstep(f, tb, top as int) == tb);
                    assert(elems_view(tmp@) == tb);
                }
            }
            top = top - 1;
        }
        let mut coeffs: Vec<u32> = Vec::new();
        let mut k: usize = 0;
        while k < rd
            invariant
                k <= rd,
                rd <= len,
                tmp@.len() == len,
                coeffs@ == concat_blocks(elems_view(tmp@).take(k as int)),
            decreases rd - k,
        {
            let ghost before = coeffs@;
            let piece = tmp[k].coefficients();
            let mut q: usize = 0;
            while q < piece.len()
                invariant
                    q <= piece@.len(),
                    coeffs@ == before + piece@.take(q as int),
                decreases piece@.len() - q,
            {
                coeffs.push(piece[q]);
                q = q + 1;
                proof {
                    assert(coeffs@ =~= before + piece@.take(q as int));
                }
            }
            proof {
                let t = elems_view(tmp@).take((k + 1) as int);
                assert(t.drop_last() =~= elems_view(tmp@).take(k as int));
                assert(piece@.take(q as int) =~= piece@);
                assert(t.last() == tmp@[k as int]@);
            }
            k = k + 1;
        }
        let e = FieldElement { coeffs };
        proof {
            assert(treduce(f, elems_view(tmp@), top as nat) == elems_view(tmp@));
            assert(e@ == mul_spec(f, a@, b@));
            assert forall|q: int| 0 <= q < rd implies elem_ok(bs, #[trigger] elems_view(tmp@).take(rd as int)[q]) by {
            }
            lemma_concat_blocks_ok(bs, elems_view(tmp@).take(rd as int));
            assert(rd * bs.degree == f.degree) by (nonlinear_arith)
                requires
                    f.degree == bs.degree * rd,
            ;
        }
        e
    }

    fn mul_polynomial(&self, a: &FieldElement, b: &FieldElement, modulus: &Vec<u32>) -> (r: FieldElement)
        requires
            self.wf(),
            self@.model == (ModelSpec::Poly { modulus: modulus@ }),
            elem_ok(self@, a@),
            elem_ok(self@, b@),
        ensures
            r@ == mul_poly_spec(self@, modulus@, a@, b@),
            elem_ok(self@, r@),
    {
        let ghost f = self@;
        let d = self.degree;
        let p = self.p;
        let pw = p as u128;
        proof {
            lemma_degree_small(f);
        }
        let len = d * 2 - 1;
        let mut tmp: Vec<u128> = Vec::new();
        let mut z: usize = 0;
        while z < len
            invariant
                z <= len,
                tmp@.len() == z,
                forall|k: int| 0 <= k < z ==> tmp@[k] == 0,
            decreases len - z,
        {
            tmp.push(0);
            z = z + 1;
        }
        let ghost av = a@;
        let ghost bv = b@;
        let mut i: usize = 0;
        while i < d
            invariant
                f == self@,
                fs_wf(f),
                p == f.p,
                pw == p,
                d == f.degree,
                1 <= d < 128,
                len == 2 * d - 1,
                av == a@,
                bv == b@,
                a@ == a.coeffs@,
                b@ == b.coeffs@,
                elem_ok(f, av),
                elem_ok(f, bv),
                i <= d,
                tmp@.len() == len,
                forall|k: int| 0 <= k < len ==> #[trigger] tmp@[k] == pconv(av, bv, k, i as nat, p as nat),
            decreases d - i,
        {
            let x = a.coeffs[i];
            let mut j: usize = 0;
            while j < d
                invariant
                    f == self@,
                    p == f.p,
                    pw == p,
                    p >= 2,
                    d == f.degree,
                    1 <= d < 128,
                    len == 2 * d - 1,
                    av == a@,
                    bv == b@,
                    a@ == a.coeffs@,
                    b@ == b.coeffs@,
                    elem_ok(f, av),
                    elem_ok(f, bv),
                    i < d,
                    x == av[i as int],
                    j <= d,
                    tmp@.len() == len,
                    forall|k: int|
                        0 <= k < len ==> #[trigger] tmp@[k] == (if i <= k < i + j {
                            pconv(av, bv, k, (i + 1) as nat, p as nat)
                        } else {
                            pconv(av, bv, k, i as nat, p as nat)
                        }),
                decreases d - j,
            {
                let y = b.coeffs[j];
                let k = i + j;
                proof {
                    lemma_pconv_bound(av, bv, k as int, i as nat, p as nat);
                    assert(x < p && y < p);
                    assert((x as int) * (y as int) <= 0xffff_ffff * 0xffff_ffff) by (nonlinear_arith)
                        requires
                            x <= 0xffff_ffff,
                            y <= 0xffff_ffff,
                    ;
                }
                let cur = tmp[k];
                tmp.set(k, (cur + x as u128 * y as u128) % pw);
                j = j + 1;
            }
            proof {
                assert forall|k: int| 0 <= k < len implies #[trigger] tmp@[k] == pconv(
                    av,
                    bv,
                    k,
                    (i + 1) as nat,
                    p as nat,
                ) by {
                    if !(i <= k < i + d) {
                        assert(!(0 <= k - i < bv.len()));
                    }
                }
            }
            i = i + 1;
        }
        let ghost t0 = ints(tmp@);
        proof {
            assert(t0 =~= pconv_seq(av, bv, p as nat));
            assert forall|k: int| 0 <= k < len implies #[trigger] tmp@[k] < p by {
                lemma_pconv_bound(av, bv, k, d as nat, p as nat);
            }
        }
        // Eliminate X^top for top = 2d-2 down to d using X^d = -sum m[i] X^i.
        let mut top: usize = len - 1;
        while top >= d
            invariant
                f == self@,
                fs_wf(f),
                f.model == (ModelSpec::Poly { modulus: modulus@ }),
                p == f.p,
                pw == p,
                p >= 2,
                d == f.degree,
                1 <= d < 128,
                len == 2 * d - 1,
                top < len,
                top + 1 >= d,
                tmp@.len() == len,
                modulus@.len() == d + 1,
                forall|k: int| 0 <= k < d ==> #[trigger] modulus@[k] < p,
                forall|k: int| 0 <= k < len ==> #[trigger] tmp@[k] < p,
                preduce(ints(tmp@), top as nat, d as nat, modulus@, p as nat) == preduce(
                    t0,
                    (2 * d - 2) as nat,
                    d as nat,
                    modulus@,
                    p as nat,
                ),
            decreases top,
        {
            let ghost tb = ints(tmp@);
            let factor = tmp[top] % pw;
            if factor != 0 {
                tmp.set(top, 0);
                let shift = top - d;
                let mut ii: usize = 0;
                while ii < d
                    invariant
                        p == f.p,
                        pw == p,
                        p >= 2,
                        d == f.degree,
                        1 <= d < 128,
                        len == 2 * d - 1,
                        d <= top < len,
                        shift == top - d,
                        tmp@.len() == len,
                        tb.len() == len,
                        factor == tb[top as int] % (p as int),
                        factor < p,
                        modulus@.len() == d + 1,
                        forall|k: int| 0 <= k < d ==> #[trigger] modulus@[k] < p,
                        forall|k: int| 0 <= k < len ==> 0 <= #[trigger] tb[k] < p,
                        ii <= d,
                        forall|k: int|
                            0 <= k < len ==> #[trigger] tmp@[k] as int == (if k == top {
                                0
                            } else if shift <= k < shift + ii {
                                (tb[k] + p - (factor * modulus@[k - shift]) % (p as int)) % (
                                p as int)
                            } else {
                                tb[k]
                            }),
                    decreases d - ii,
                {
                    let mi = modulus[ii];
                    proof {
                        assert((factor as int) * (mi as int) <= 0xffff_ffff * 0xffff_ffff) by (
                        nonlinear_arith)
                            requires
                                factor <= 0xffff_ffff,
                                mi <= 0xffff_ffff,
                        ;
                    }
                    let subtract = factor * mi as u128 % pw;
                    let cur = tmp[shift + ii];
                    tmp.set(shift + ii, (cur + pw - subtract) % pw);
                    ii = ii + 1;
                }
                proof {
                    assert(ints(tmp@) =~= pstep(tb, top as int, d as nat, modulus@, p as nat));
                    assert forall|k: int| 0 <= k < len implies #[trigger] tmp@[k] < p by {
                        if k != top && shift <= k < top {
                            lemma_mod_bound(
                                tb[k] + p - (factor * modulus@[k - shift]) % (p as int),
                                p as int,
                            );
                        }
                    }
                }
            } else {
                proof {
                    assert(pstep(tb, top as int, d as nat, modulus@, p as nat) == tb);
                    assert(ints(tmp@) == tb);
                }
            }
            proof {
                assert(top >= 1);
            }
            top = top - 1;
        }
        let mut coeffs: Vec<u32> = Vec::new();
        let mut k: usize = 0;
        while k < d
            invariant
                k <= d,
                d < len + 1,
                tmp@.len() == len,
                coeffs@.len() == k,
                forall|q: int| 0 <= q < k ==> #[trigger] coeffs@[q] == tmp@[q] as u32,
            decreases d - k,
        {
            coeffs.push(tmp[k] as u32);
            k = k + 1;
        }
        let e = FieldElement { coeffs };
        proof {
            assert(preduce(ints(tmp@), top as nat, d as nat, modulus@, p as nat) == ints(tmp@));
            assert(e@ =~= mul_poly_spec(f, modulus@, av, bv));
        }
        e
    }

    /// Steinitz number -> element (base-p digits, least significant first).
    pub fn from_rank(&self, rank: u128) -> (r: Result<FieldElement, FieldError>)
        requires
            self.wf(),
        ensures
            rank >= self@.card ==> r == Err::<FieldElement, FieldError>(
                FieldError::RankOutOfRange { rank, cardinality: self@.card as u128 },
            ),
            rank < self@.card ==> (r matches Ok(e) && e@ == from_rank_spec(self@, rank as nat)
                && elem_ok(self@, e@)),
    {
        if rank >= self.cardinality {
            return Err(FieldError::RankOutOfRange { rank, cardinality: self.cardinality });
        }
        let ghost f = self@;
        let p = self.p;
        let mut coeffs: Vec<u32> = Vec::new();
        let mut cur: u128 = rank;
        let mut i: usize = 0;
        proof {
            lemma_pow0(p as int);
            assert((rank as nat) / 1nat == rank as nat);
        }
        while i < self.degree
            invariant
                f == self@,
                fs_wf(f),
                p == f.p,
                i <= f.degree,
                f.degree == self.degree,
                cur as nat == (rank as nat) / (pow(p as int, i as nat) as nat),
                coeffs@.len() == i,
                forall|k: int| 0 <= k < i ==> #[trigger] coeffs@[k] == from_rank_spec(f, rank as nat)[k],
            decreases self.degree - i,
        {
            proof {
                lemma_pow_positive(p as int, i as nat);
                assert(pow(p as int, (i + 1) as nat) == p * pow(p as int, i as nat)) by {
                    reveal(pow);
                }
                lemma_div_denominator(rank as int, pow(p as int, i as nat), p as int);
                assert(pow(p as int, i as nat) * p == p * pow(p as int, i as nat)) by (nonlinear_arith);
            }
            coeffs.push((cur % p as u128) as u32);
            cur = cur / p as u128;
            i = i + 1;
        }
        let e = FieldElement { coeffs };
        proof {
            assert(e@ =~= from_rank_spec(f, rank as nat));
            assert forall|k: int| 0 <= k < e@.len() implies #[trigger] e@[k] < f.p by {
                lemma_mod_bound(((rank as nat) / (pow(p as int, k as nat) as nat)) as int, p as int);
            }
        }
        Ok(e)
    }

    pub fn rank(&self, element: &FieldElement) -> (r: Result<u128, FieldError>)
        requires
            self.wf(),
        ensures
            !elem_ok(self@, element@) ==> r == Err::<u128, FieldError>(check_err(self@, element@)),
            elem_ok(self@, element@) ==> r == Ok::<u128, FieldError>(
                rank_spec(element@, self@.p) as u128,
            ) && rank_spec(element@, self@.p) < self@.card,
    {
        match self.check(element) {
            Ok(()) => {},
            Err(e) => {
                return Err(e);
            },
        }
        let ghost f = self@;
        let ghost c = element@;
        let p = self.p;
        let n = element.coeffs.len();
        let mut rank: u128 = 0;
        let mut place: u128 = 1;
        let mut index: usize = 0;
        proof {
            lemma_pow0(p as int);
            lemma_rank_bound(c, p as nat);
        }
        while index < n
            invariant
                f == self@,
                fs_wf(f),
                p == f.p,
                c == element@,
                c == element.coeffs@,
                elem_ok(f, c),
                n == c.len(),
                index <= n,
                rank as nat == rank_spec(c.take(index as int), p as nat),
                index < n ==> place == pow(p as int, index as nat),
                rank_spec(c, p as nat) < f.card,
            decreases n - index,
        {
            let coeff = element.coeffs[index];
            proof {
                let t = c.take((index + 1) as int);
                assert(t.drop_last() =~= c.take(index as int));
                assert(t.last() == coeff);
                lemma_rank_prefix_bound(c, p as nat, (index + 1) as nat);
                assert(rank_spec(t, p as nat) == rank as nat + (coeff as nat) * (place as nat));
            }
            rank = rank + coeff as u128 * place;
            if index + 1 != n {
                proof {
                    assert(pow(p as int, (index + 1) as nat) == p * pow(p as int, index as nat)) by {
                        reveal(pow);
                    }
                    lemma_pow_increases(p as nat, (index + 1) as nat, (n - 1) as nat);
                    lemma_pow_strictly_increases(p as nat, (n - 1) as nat, n as nat);
                    assert(place * p == p * place) by (nonlinear_arith);
                }
                place = place * p as u128;
            }
            index = index + 1;
        }
        proof {
            assert(c.take(n as int) =~= c);
        }
        Ok(rank)
    }
}

impl FieldElement {
    pub fn coefficients(&self) -> (r: &[u32])
        ensures
            r@ == self@,
    {
        self.coeffs.as_slice()
    }

    pub fn is_zero(&self) -> (r: bool)
        ensures
            r == is_zero_spec(self@),
    {
        let mut i: usize = 0;
        while i < self.coeffs.len()
            invariant
                i <= self@.len(),
                self@ == self.coeffs@,
                forall|k: int| 0 <= k < i ==> self@[k] == 0,
            decreases self@.len() - i,
        {
            if self.coeffs[i] != 0 {
                return false;
            }
            i = i + 1;
        }
        true
    }

    /// Element-wise copy.
    pub fn duplicate(&self) -> (r: FieldElement)
        ensures
            r@ == self@,
    {
        FieldElement { coeffs: self.coeffs.clone() }
    }

    /// Coefficient-wise equality.
    pub fn same_as(&self, other: &FieldElement) -> (r: bool)
        ensures
            r == (self@ == other@),
    {
        if self.coeffs.len() != other.coeffs.len() {
            return false;
        }
        let mut i: usize = 0;
        while i < self.coeffs.len()
            invariant
                i <= self@.len(),
                self@.len() == other@.len(),
                self@ == self.coeffs@,
                other@ == other.coeffs@,
                forall|k: int| 0 <= k < i ==> self@[k] == other@[k],
            decreases self@.len() - i,
        {
            if self.coeffs[i] != other.coeffs[i] {
                return false;
            }
            i = i + 1;
        }
        proof {
            assert(self@ =~= other@);
        }
        true
    }
}

} // verus!
