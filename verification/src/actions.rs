//! Deterministic finite generation of candidate actions over a pair prior:
//! scalar probes deduplicated by behavior, and capacity-bounded bundles.
use crate::bundle::ProbeBundle;
use crate::codec::{all_in_range, min_width, monic_symbol_coefficients, symbol_coefficients_spec};
use crate::cook::{
    behavior_key, behavior_refines, behavior_spec, bundle_key, collided, refines, scalar_key, ActionError,
    CandidateTest, GeneratedActions, MatrixError, PairOutcome, RESOLVED,
};
use crate::bundle::{all_degree_one, bundle_rank, prime_fields, symbols_fit};
use crate::prior::{ScenarioView, WeightExpr};
use crate::field::element::{
    check_err, elem_ok, lemma_zero_ok, rank_spec, zero_spec, ExplicitField, FieldElement, FieldSpec,
};
use crate::field::orders::{is_prime_power_upto, lemma_pow_at_least_base, prime_powers_up_to};
use crate::field::polynomial::{evaluate_hasse, hasse_spec};
use crate::field::standardff::StandardFieldDescriptor;
use crate::prior::PriorArtifact;
use crate::prior_bytes::symbols_equal;
use crate::probe::{FieldDescriptor, ProbeError, ScalarProbe};
use vstd::prelude::*;

verus! {

// ---------------------------------------------------------------------------
// Keys and their order
// ---------------------------------------------------------------------------

/// Ordering key of a scalar probe: characteristic, degree, point, Hasse
/// order.
pub open spec fn key_of(p: ScalarProbe) -> (u32, u32, u128, u32) {
    (p.descriptor().characteristic, p.descriptor().degree, p.point_rank, p.hasse_order)
}

/// Lexicographic order on probe keys.
pub open spec fn key_lt(a: (u32, u32, u128, u32), b: (u32, u32, u128, u32)) -> bool {
    a.0 < b.0 || (a.0 == b.0 && (a.1 < b.1 || (a.1 == b.1 && (a.2 < b.2 || (a.2 == b.2 && a.3 < b.3)))))
}

fn key_less(a: (u32, u32, u128, u32), b: (u32, u32, u128, u32)) -> (r: bool)
    ensures
        r == key_lt(a, b),
{
    a.0 < b.0 || (a.0 == b.0 && (a.1 < b.1 || (a.1 == b.1 && (a.2 < b.2 || (a.2 == b.2 && a.3 < b.3)))))
}

/// Lexicographic order on sequences of probe keys, a proper prefix first.
pub open spec fn keys_lt(a: Seq<(u32, u32, u128, u32)>, b: Seq<(u32, u32, u128, u32)>) -> bool
    decreases a.len(),
{
    if a.len() == 0 {
        b.len() > 0
    } else if b.len() == 0 {
        false
    } else if a[0] != b[0] {
        key_lt(a[0], b[0])
    } else {
        keys_lt(a.drop_first(), b.drop_first())
    }
}

proof fn lemma_keys_skip(a: Seq<(u32, u32, u128, u32)>, b: Seq<(u32, u32, u128, u32)>, i: int)
    requires
        0 <= i < a.len(),
        i < b.len(),
        a[i] == b[i],
    ensures
        keys_lt(a.skip(i), b.skip(i)) == keys_lt(a.skip(i + 1), b.skip(i + 1)),
{
    assert(a.skip(i).drop_first() =~= a.skip(i + 1));
    assert(b.skip(i).drop_first() =~= b.skip(i + 1));
}

fn keys_less(a: &[(u32, u32, u128, u32)], b: &[(u32, u32, u128, u32)]) -> (r: bool)
    ensures
        r == keys_lt(a@, b@),
{
    let mut i: usize = 0;
    proof {
        assert(a@.skip(0) =~= a@);
        assert(b@.skip(0) =~= b@);
    }
    while i < a.len() && i < b.len()
        invariant
            i <= a@.len(),
            i <= b@.len(),
            keys_lt(a@, b@) == keys_lt(a@.skip(i as int), b@.skip(i as int)),
        decreases a@.len() - i,
    {
        let x = a[i];
        let y = b[i];
        if x.0 != y.0 || x.1 != y.1 || x.2 != y.2 || x.3 != y.3 {
            proof {
                assert(a@.skip(i as int)[0] == a@[i as int]);
                assert(b@.skip(i as int)[0] == b@[i as int]);
            }
            return key_less(x, y);
        }
        proof {
            lemma_keys_skip(a@, b@, i as int);
        }
        i = i + 1;
    }
    i == a.len() && i < b.len()
}

// ---------------------------------------------------------------------------
// Scalar candidates
// ---------------------------------------------------------------------------

/// A scalar probe that separates some scenario, with its outcomes.
struct ScalarCandidate {
    probe: ScalarProbe,
    cardinality: u32,
    outcomes: Vec<PairOutcome>,
}

/// A candidate over `n` scenarios: a field order within the capacity, the
/// probe's own field, outcomes below the order, and some scenario separated.
spec fn cand_ok(c: ScalarCandidate, n: nat, capacity: u32) -> bool {
    &&& 2 <= c.cardinality <= capacity
    &&& c.probe.descriptor().order_spec() == c.cardinality as nat
    &&& c.outcomes@.len() == n
    &&& forall|i: int|
        0 <= i < n ==> (#[trigger] c.outcomes@[i]).left < c.cardinality && c.outcomes@[i].right < c.cardinality
    &&& exists|i: int| 0 <= i < n && !collided(#[trigger] c.outcomes@[i])
}

/// The Hasse derivative of order `k` of the polynomial with coefficients `c`
/// at `x` (zero when `k` is beyond its degree).
pub open spec fn hasse_value(f: FieldSpec, c: Seq<u32>, k: nat, x: Seq<u32>) -> Seq<u32> {
    if k >= c.len() {
        zero_spec(f)
    } else {
        hasse_spec(f, c, k, x)
    }
}

/// The value, as a Steinitz rank, of the Hasse derivative of the polynomial
/// with `coefficients` at `point`.
#[verifier::spinoff_prover]
fn evaluate_compiled(
    field: &ExplicitField,
    coefficients: &[u32],
    hasse_order: usize,
    point: &FieldElement,
) -> (r: Result<u32, ActionError>)
    requires
        field.wf(),
        field@.card <= u32::MAX,
    ensures
        r matches Ok(v) ==> v < field@.card,
        hasse_order < coefficients@.len() && !elem_ok(field@, point@) ==> r == Err::<u32, ActionError>(
            ActionError::Probe(ProbeError::Field(check_err(field@, point@))),
        ),
        hasse_order >= coefficients@.len() || elem_ok(field@, point@) ==> r == Ok::<u32, ActionError>(
            rank_spec(hasse_value(field@, coefficients@, hasse_order as nat, point@), field@.p) as u32,
        ),
{
    proof {
        field.lemma_wf_facts();
        lemma_zero_ok(field@);
    }
    let value = match evaluate_hasse(field, coefficients, hasse_order, point) {
        Ok(v) => v,
        Err(e) => {
            return Err(ActionError::Probe(ProbeError::Field(e)));
        },
    };
    match field.rank(&value) {
        Ok(r) => Ok(r as u32),
        Err(e) => Err(ActionError::Probe(ProbeError::Field(e))),
    }
}

/// The content codec turns `s` into coefficients over F_p: a prime of at
/// least two, an alphabet of at least two, symbols in the alphabet, and a
/// length that fits.
pub open spec fn codes_ok(s: Seq<u32>, m: u32, p: u32) -> bool {
    &&& p >= 2
    &&& m >= 2
    &&& s.len() * min_width(m as nat, p as nat) + 1 <= usize::MAX
    &&& all_in_range(s, m)
}

/// Coefficient vectors of both sides of every scenario, in scenario order.
#[verifier::spinoff_prover]
fn compile_projection(prior: &PriorArtifact, symbol_cardinality: u32, characteristic: u32) -> (r: Result<
    (Vec<Vec<u32>>, Vec<Vec<u32>>),
    ActionError,
>)
    ensures
        r is Ok <==> forall|i: int|
            0 <= i < prior@.scenarios.len() ==> codes_ok((#[trigger] prior@.scenarios[i]).left, symbol_cardinality, characteristic)
                && codes_ok(prior@.scenarios[i].right, symbol_cardinality, characteristic),
        r matches Ok((ls, rs)) ==> ls@.len() == prior.scenarios@.len() && rs@.len() == prior.scenarios@.len() && (
        forall|i: int|
            0 <= i < ls@.len() ==> (#[trigger] ls@[i])@ == symbol_coefficients_spec(
                prior@.scenarios[i].left,
                symbol_cardinality as nat,
                characteristic as nat,
            ) && rs@[i]@ == symbol_coefficients_spec(
                prior@.scenarios[i].right,
                symbol_cardinality as nat,
                characteristic as nat,
            )),
{
    let mut ls: Vec<Vec<u32>> = Vec::new();
    let mut rs: Vec<Vec<u32>> = Vec::new();
    let mut i: usize = 0;
    while i < prior.scenarios.len()
        invariant
            i <= prior.scenarios@.len(),
            ls@.len() == i,
            rs@.len() == i,
            forall|k: int|
                0 <= k < i ==> codes_ok((#[trigger] prior@.scenarios[k]).left, symbol_cardinality, characteristic)
                    && codes_ok(prior@.scenarios[k].right, symbol_cardinality, characteristic),
            forall|k: int|
                0 <= k < i ==> (#[trigger] ls@[k])@ == symbol_coefficients_spec(
                    prior@.scenarios[k].left,
                    symbol_cardinality as nat,
                    characteristic as nat,
                ) && rs@[k]@ == symbol_coefficients_spec(
                    prior@.scenarios[k].right,
                    symbol_cardinality as nat,
                    characteristic as nat,
                ),
        decreases prior.scenarios@.len() - i,
    {
        let s = &prior.scenarios[i];
        assert(prior@.scenarios[i as int] == s@);
        let l = match monic_symbol_coefficients(s.left.as_slice(), symbol_cardinality, characteristic) {
            Ok(c) => c,
            Err(e) => {
                return Err(ActionError::Probe(ProbeError::Codec(e)));
            },
        };
        let r = match monic_symbol_coefficients(s.right.as_slice(), symbol_cardinality, characteristic) {
            Ok(c) => c,
            Err(e) => {
                return Err(ActionError::Probe(ProbeError::Codec(e)));
            },
        };
        ls.push(l);
        rs.push(r);
        i = i + 1;
    }
    Ok((ls, rs))
}

/// Degree of a coefficient vector (0 for the empty one).
pub open spec fn coeff_degree(v: Seq<u32>) -> int {
    if v.len() > 0 {
        v.len() - 1
    } else {
        0
    }
}

/// The largest degree among the coefficient vectors.
fn max_degree(ls: &Vec<Vec<u32>>, rs: &Vec<Vec<u32>>) -> (r: usize)
    ensures
        forall|i: int| 0 <= i < ls@.len() ==> coeff_degree((#[trigger] ls@[i])@) <= r,
        forall|j: int| 0 <= j < rs@.len() ==> coeff_degree((#[trigger] rs@[j])@) <= r,
        r == 0 || (exists|i: int| 0 <= i < ls@.len() && coeff_degree((#[trigger] ls@[i])@) == r) || (exists|j: int|
            0 <= j < rs@.len() && coeff_degree((#[trigger] rs@[j])@) == r),
{
    let mut m: usize = 0;
    let mut i: usize = 0;
    while i < ls.len()
        invariant
            i <= ls@.len(),
            forall|k: int| 0 <= k < i ==> coeff_degree((#[trigger] ls@[k])@) <= m,
            m == 0 || exists|k: int| 0 <= k < i && coeff_degree((#[trigger] ls@[k])@) == m,
        decreases ls@.len() - i,
    {
        let d = if ls[i].len() > 0 {
            ls[i].len() - 1
        } else {
            0
        };
        if d > m {
            m = d;
        }
        i = i + 1;
    }
    let mut j: usize = 0;
    while j < rs.len()
        invariant
            j <= rs@.len(),
            forall|k: int| 0 <= k < ls@.len() ==> coeff_degree((#[trigger] ls@[k])@) <= m,
            forall|k: int| 0 <= k < j ==> coeff_degree((#[trigger] rs@[k])@) <= m,
            m == 0 || (exists|k: int| 0 <= k < ls@.len() && coeff_degree((#[trigger] ls@[k])@) == m) || (exists|k: int|
                0 <= k < j && coeff_degree((#[trigger] rs@[k])@) == m),
        decreases rs@.len() - j,
    {
        let d = if rs[j].len() > 0 {
            rs[j].len() - 1
        } else {
            0
        };
        if d > m {
            m = d;
        }
        j = j + 1;
    }
    m
}

/// Outcomes of one probe on every scenario, and whether any is separated.
#[verifier::spinoff_prover]
fn probe_outcomes(
    field: &ExplicitField,
    ls: &Vec<Vec<u32>>,
    rs: &Vec<Vec<u32>>,
    hasse_order: usize,
    point: &FieldElement,
) -> (r: Result<(Vec<PairOutcome>, bool), ActionError>)
    requires
        field.wf(),
        field@.card <= u32::MAX,
        ls@.len() == rs@.len(),
    ensures
        r matches Ok((outs, d)) ==> outs@.len() == ls@.len() && (forall|i: int|
            0 <= i < outs@.len() ==> (#[trigger] outs@[i]).left < field@.card && outs@[i].right < field@.card) && d
            == exists|i: int| 0 <= i < outs@.len() && !collided(#[trigger] outs@[i]),
        r matches Ok((outs, d)) ==> forall|i: int|
            0 <= i < outs@.len() ==> (#[trigger] outs@[i]).left == rank_spec(
                hasse_value(field@, ls@[i]@, hasse_order as nat, point@),
                field@.p,
            ) as u32 && outs@[i].right == rank_spec(
                hasse_value(field@, rs@[i]@, hasse_order as nat, point@),
                field@.p,
            ) as u32,
        elem_ok(field@, point@) ==> r is Ok,
{
    let mut outs: Vec<PairOutcome> = Vec::new();
    let mut distinguishes = false;
    let mut i: usize = 0;
    while i < ls.len()
        invariant
            field.wf(),
            field@.card <= u32::MAX,
            ls@.len() == rs@.len(),
            i <= ls@.len(),
            outs@.len() == i,
            forall|k: int| 0 <= k < i ==> (#[trigger] outs@[k]).left < field@.card && outs@[k].right < field@.card,
            distinguishes == exists|k: int| 0 <= k < i && !collided(#[trigger] outs@[k]),
            forall|k: int|
                0 <= k < i ==> (#[trigger] outs@[k]).left == rank_spec(
                    hasse_value(field@, ls@[k]@, hasse_order as nat, point@),
                    field@.p,
                ) as u32 && outs@[k].right == rank_spec(
                    hasse_value(field@, rs@[k]@, hasse_order as nat, point@),
                    field@.p,
                ) as u32,
        decreases ls@.len() - i,
    {
        let left = match evaluate_compiled(field, ls[i].as_slice(), hasse_order, point) {
            Ok(v) => v,
            Err(e) => {
                return Err(e);
            },
        };
        let right = match evaluate_compiled(field, rs[i].as_slice(), hasse_order, point) {
            Ok(v) => v,
            Err(e) => {
                return Err(e);
            },
        };
        let row = PairOutcome { left, right };
        let ghost before = outs@;
        outs.push(row);
        proof {
            if left != right {
                assert(!collided(outs@[i as int]));
            }
            if distinguishes {
                let k = choose|k: int| 0 <= k < i && !collided(#[trigger] before[k]);
                assert(outs@[k] == before[k]);
            }
            assert forall|k: int| 0 <= k < i + 1 && !collided(#[trigger] outs@[k]) implies distinguishes || left != right by {
                if k < i {
                    assert(outs@[k] == before[k]);
                }
            }
        }
        distinguishes = distinguishes || left != right;
        i = i + 1;
    }
    Ok((outs, distinguishes))
}

/// Deduplicated candidates with their behaviors: one per behavior.
spec fn pool_ok(cands: Seq<ScalarCandidate>, behs: Seq<Vec<u32>>, n: nat, capacity: u32) -> bool {
    &&& cands.len() == behs.len()
    &&& forall|i: int| 0 <= i < cands.len() ==> cand_ok(#[trigger] cands[i], n, capacity)
    &&& forall|i: int| 0 <= i < cands.len() ==> (#[trigger] behs[i])@ == behavior_spec(cands[i].outcomes@)
    &&& forall|i: int, j: int| 0 <= i < cands.len() && 0 <= j < cands.len() && i != j ==> (#[trigger] behs[i])@ != (
    #[trigger] behs[j])@
}

/// The key by which probes are ordered, as read off the probe.
pub open spec fn probe_key(p: ScalarProbe) -> (u32, u32, u128, u32) {
    (p.field->Standard_0.characteristic, p.field->Standard_0.degree, p.point_rank, p.hasse_order)
}

/// Candidate `a` is kept over `b` of the same behavior: a smaller field
/// order, then a smaller probe key.
spec fn cand_before(a: ScalarCandidate, b: ScalarCandidate) -> bool {
    a.cardinality < b.cardinality || (a.cardinality == b.cardinality && key_lt(probe_key(a.probe), probe_key(b.probe)))
}

/// Index of the candidate with behavior `beh`, if any.
fn find_behavior(behs: &Vec<Vec<u32>>, beh: &Vec<u32>) -> (r: Option<usize>)
    ensures
        r matches Some(k) ==> k < behs@.len() && behs@[k as int]@ == beh@,
        r is None ==> forall|k: int| 0 <= k < behs@.len() ==> (#[trigger] behs@[k])@ != beh@,
{
    let mut k: usize = 0;
    while k < behs.len()
        invariant
            k <= behs@.len(),
            forall|t: int| 0 <= t < k ==> (#[trigger] behs@[t])@ != beh@,
        decreases behs@.len() - k,
    {
        if symbols_equal(behs[k].as_slice(), beh.as_slice()) {
            return Some(k);
        }
        k = k + 1;
    }
    None
}

/// Adds a candidate: a new behavior is kept; for a known behavior the
/// candidate replaces the kept one when smaller by (field order, key).
fn offer_candidate(
    cands: &mut Vec<ScalarCandidate>,
    behs: &mut Vec<Vec<u32>>,
    c: ScalarCandidate,
    beh: Vec<u32>,
    Ghost(n): Ghost<nat>,
    Ghost(capacity): Ghost<u32>,
)
    requires
        pool_ok(old(cands)@, old(behs)@, n, capacity),
        cand_ok(c, n, capacity),
        beh@ == behavior_spec(c.outcomes@),
    ensures
        pool_ok(final(cands)@, final(behs)@, n, capacity),
        (forall|k: int| 0 <= k < old(behs)@.len() ==> (#[trigger] old(behs)@[k])@ != beh@) ==> final(cands)@ == old(cands)@.push(c) && final(behs)@ == old(behs)@.push(beh),
        forall|k: int|
            0 <= k < old(behs)@.len() && (#[trigger] old(behs)@[k])@ == beh@ ==> final(behs)@ == old(behs)@ && final(cands)@ == (if cand_before(c, old(cands)@[k]) {
                old(cands)@.update(k, c)
            } else {
                old(cands)@
            }),
{
    match find_behavior(behs, &beh) {
        None => {
            proof {
                assert forall|i: int| 0 <= i < old(behs)@.len() implies (#[trigger] old(behs)@[i])@ != beh@ by {}
            }
            cands.push(c);
            behs.push(beh);
            proof {
                let k = cands@.len() - 1;
                assert forall|i: int, j: int|
                    0 <= i < cands@.len() && 0 <= j < cands@.len() && i != j implies (#[trigger] behs@[i])@ != (
                #[trigger] behs@[j])@ by {
                    if i < k && j < k {
                        assert(behs@[i] == old(behs)@[i] && behs@[j] == old(behs)@[j]);
                    } else if i == k {
                        assert(behs@[j] == old(behs)@[j]);
                    } else {
                        assert(behs@[i] == old(behs)@[i]);
                    }
                }
                assert forall|i: int| 0 <= i < cands@.len() implies cand_ok(#[trigger] cands@[i], n, capacity) by {
                    if i < k {
                        assert(cands@[i] == old(cands)@[i]);
                    }
                }
                assert forall|i: int| 0 <= i < cands@.len() implies (#[trigger] behs@[i])@ == behavior_spec(
                    cands@[i].outcomes@,
                ) by {
                    if i < k {
                        assert(cands@[i] == old(cands)@[i] && behs@[i] == old(behs)@[i]);
                    }
                }
            }
        },
        Some(k) => {
            let ok = &cands[k];
            let smaller = c.cardinality < ok.cardinality || (c.cardinality == ok.cardinality && key_less(
                scalar_key(&c.probe),
                scalar_key(&ok.probe),
            ));
            if smaller {
                cands.set(k, c);
                proof {
                    assert forall|i: int| 0 <= i < cands@.len() implies cand_ok(#[trigger] cands@[i], n, capacity) by {
                        if i != k {
                            assert(cands@[i] == old(cands)@[i]);
                        }
                    }
                    assert forall|i: int| 0 <= i < cands@.len() implies (#[trigger] behs@[i])@ == behavior_spec(
                        cands@[i].outcomes@,
                    ) by {
                        if i != k {
                            assert(cands@[i] == old(cands)@[i]);
                        }
                    }
                }
            }
        },
    }
}

/// Every scalar probe over a field of order at most `capacity` that
/// separates some scenario, one per behavior, the least by (field order,
/// key); then those that another candidate of no larger order refines are
/// dropped, and the rest ordered by key.
#[verifier::spinoff_prover]
fn generate_scalar_candidates(prior: &PriorArtifact, capacity: u32) -> (r: Result<
    Vec<ScalarCandidate>,
    ActionError,
>)
    requires
        prior.scenarios@.len() < RESOLVED,
    ensures
        capacity < 2 ==> r == Err::<Vec<ScalarCandidate>, ActionError>(ActionError::CapacityTooSmall(capacity)),
        capacity >= 2 && prior.symbol_space.cardinality < 2 ==> r == Err::<Vec<ScalarCandidate>, ActionError>(
            ActionError::SymbolCardinalityTooSmall(prior.symbol_space.cardinality),
        ),
        r matches Ok(cs) ==> forall|i: int|
            0 <= i < cs@.len() ==> cand_ok(#[trigger] cs@[i], prior.scenarios@.len(), capacity),
{
    if capacity < 2 {
        return Err(ActionError::CapacityTooSmall(capacity));
    }
    let m = prior.symbol_space.cardinality;
    if m < 2 {
        return Err(ActionError::SymbolCardinalityTooSmall(m));
    }
    let ghost n = prior.scenarios@.len();
    let mut cands: Vec<ScalarCandidate> = Vec::new();
    let mut behs: Vec<Vec<u32>> = Vec::new();
    let fields = prime_powers_up_to(capacity);
    let mut fi: usize = 0;
    while fi < fields.len()
        invariant
            n == prior.scenarios@.len(),
            n < RESOLVED,
            capacity >= 2,
            prior.symbol_space.cardinality >= 2,
            fi <= fields@.len(),
            forall|x| fields@.contains(x) <==> is_prime_power_upto(x, capacity),
            pool_ok(cands@, behs@, n, capacity),
        decreases fields@.len() - fi,
    {
        let f = fields[fi];
        proof {
            assert(fields@[fi as int] == f);
            assert(fields@.contains(f));
            assert(is_prime_power_upto(f, capacity));
            assert(f.characteristic >= 2);
            lemma_pow_at_least_base(f.characteristic as nat, f.degree as nat);
        }
        let (ls, rs) = match compile_projection(prior, m, f.characteristic) {
            Ok(x) => x,
            Err(e) => {
                return Err(e);
            },
        };
        let maxd = max_degree(&ls, &rs);
        let desc = StandardFieldDescriptor { characteristic: f.characteristic, degree: f.degree };
        let explicit = match desc.instantiate() {
            Ok(x) => x,
            Err(e) => {
                return Err(ActionError::Probe(ProbeError::StandardFf(e)));
            },
        };
        let mut point_rank: u128 = 0;
        while point_rank < f.order as u128
            invariant
                n == prior.scenarios@.len(),
                n < RESOLVED,
                capacity >= 2,
                prior.symbol_space.cardinality >= 2,
                is_prime_power_upto(f, capacity),
                f.order >= 2,
                explicit.wf(),
                explicit@.card == f.order,
                desc == (StandardFieldDescriptor { characteristic: f.characteristic, degree: f.degree }),
                ls@.len() == n,
                rs@.len() == n,
                pool_ok(cands@, behs@, n, capacity),
            decreases f.order - point_rank,
        {
            let point = match explicit.from_rank(point_rank) {
                Ok(x) => x,
                Err(e) => {
                    return Err(ActionError::Probe(ProbeError::Field(e)));
                },
            };
            let mut h: usize = 0;
            loop
                invariant
                    n == prior.scenarios@.len(),
                    n < RESOLVED,
                    capacity >= 2,
                    prior.symbol_space.cardinality >= 2,
                    is_prime_power_upto(f, capacity),
                    f.order >= 2,
                    explicit.wf(),
                    explicit@.card == f.order,
                    desc == (StandardFieldDescriptor { characteristic: f.characteristic, degree: f.degree }),
                    point_rank < f.order,
                    ls@.len() == n,
                    rs@.len() == n,
                    h <= maxd,
                    pool_ok(cands@, behs@, n, capacity),
                decreases maxd - h,
            {
                let (outcomes, separates) = match probe_outcomes(&explicit, &ls, &rs, h, &point) {
                    Ok(x) => x,
                    Err(e) => {
                        return Err(e);
                    },
                };
                if h > 4294967295usize {
                    return Err(ActionError::DegreeOverflow);
                }
                let probe = ScalarProbe {
                    field: FieldDescriptor::Standard(desc),
                    point_rank,
                    hasse_order: h as u32,
                };
                if separates {
                    let beh = behavior_key(outcomes.as_slice());
                    let c = ScalarCandidate { probe, cardinality: f.order, outcomes };
                    proof {
                        assert(c.outcomes@.len() == n);
                        assert(forall|i: int|
                            0 <= i < n ==> (#[trigger] c.outcomes@[i]).left < c.cardinality && c.outcomes@[i].right
                                < c.cardinality);
                        assert(exists|i: int| 0 <= i < n && !collided(#[trigger] c.outcomes@[i]));
                    }
                    offer_candidate(&mut cands, &mut behs, c, beh, Ghost(n), Ghost(capacity));
                }
                if h == maxd {
                    break;
                }
                h = h + 1;
            }
            point_rank = point_rank + 1;
        }
        fi = fi + 1;
    }
    let kept = drop_dominated(&cands, &behs);
    Ok(order_by_key(&cands, &kept, Ghost(n), Ghost(capacity)))
}

/// Some other candidate of no larger field order refines candidate `m`.
spec fn cand_dominated(cands: Seq<ScalarCandidate>, behs: Seq<Vec<u32>>, m: int) -> bool {
    exists|t: int|
        0 <= t < cands.len() && t != m && cands[t].cardinality <= cands[m].cardinality && refines(
            (#[trigger] behs[t])@,
            behs[m]@,
        )
}

/// Indices of the candidates that no other of no larger field order refines.
fn drop_dominated(cands: &Vec<ScalarCandidate>, behs: &Vec<Vec<u32>>) -> (r: Vec<usize>)
    requires
        cands@.len() == behs@.len(),
    ensures
        forall|k: int| 0 <= k < r@.len() ==> #[trigger] r@[k] < cands@.len(),
        forall|k: int, j: int|
            #![trigger r@[k], behs@[j]]
            0 <= k < r@.len() && 0 <= j < cands@.len() && j != r@[k] ==> !(cands@[j].cardinality <= cands@[r@[k] as int].cardinality
                && refines(behs@[j]@, behs@[r@[k] as int]@)),
        forall|m: int| 0 <= m < cands@.len() && !cand_dominated(cands@, behs@, m) ==> r@.contains(m as usize),
        forall|a: int, b: int| 0 <= a < b < r@.len() ==> #[trigger] r@[a] < #[trigger] r@[b],
{
    let mut kept: Vec<usize> = Vec::new();
    let mut i: usize = 0;
    while i < cands.len()
        invariant
            cands@.len() == behs@.len(),
            i <= cands@.len(),
            forall|k: int| 0 <= k < kept@.len() ==> #[trigger] kept@[k] < i,
            forall|k: int, j: int|
                #![trigger kept@[k], behs@[j]]
                0 <= k < kept@.len() && 0 <= j < cands@.len() && j != kept@[k] ==> !(cands@[j].cardinality
                    <= cands@[kept@[k] as int].cardinality && refines(behs@[j]@, behs@[kept@[k] as int]@)),
            forall|m: int| 0 <= m < i && !cand_dominated(cands@, behs@, m) ==> kept@.contains(m as usize),
            forall|a: int, b: int| 0 <= a < b < kept@.len() ==> #[trigger] kept@[a] < #[trigger] kept@[b],
        decreases cands@.len() - i,
    {
        let mut dominated = false;
        let mut j: usize = 0;
        while j < cands.len()
            invariant
                cands@.len() == behs@.len(),
                i < cands@.len(),
                j <= cands@.len(),
                !dominated ==> forall|t: int|
                    0 <= t < j && t != i ==> !(cands@[t].cardinality <= cands@[i as int].cardinality && refines(
                        #[trigger] behs@[t]@,
                        behs@[i as int]@,
                    )),
                dominated ==> cand_dominated(cands@, behs@, i as int),
            decreases cands@.len() - j,
        {
            if j != i && cands[j].cardinality <= cands[i].cardinality && behavior_refines(
                behs[j].as_slice(),
                behs[i].as_slice(),
            ) {
                dominated = true;
            }
            j = j + 1;
        }
        if !dominated {
            let ghost before = kept@;
            kept.push(i);
            proof {
                assert forall|k: int, t: int|
                    #![trigger kept@[k], behs@[t]]
                    0 <= k < kept@.len() && 0 <= t < cands@.len() && t != kept@[k] implies !(cands@[t].cardinality
                        <= cands@[kept@[k] as int].cardinality && refines(behs@[t]@, behs@[kept@[k] as int]@)) by {
                    if k < before.len() {
                        assert(kept@[k] == before[k]);
                    }
                }
                assert(kept@[before.len() as int] == i);
                assert forall|m: int| 0 <= m < i + 1 && !cand_dominated(cands@, behs@, m) implies kept@.contains(
                    m as usize,
                ) by {
                    if m < i {
                        let k = choose|k: int| 0 <= k < before.len() && before[k] == m as usize;
                        assert(kept@[k] == before[k]);
                    }
                }
            }
        }
        i = i + 1;
    }
    kept
}

fn copy_outcomes(v: &Vec<PairOutcome>) -> (r: Vec<PairOutcome>)
    ensures
        r@ == v@,
{
    let mut out: Vec<PairOutcome> = Vec::new();
    let mut i: usize = 0;
    while i < v.len()
        invariant
            i <= v@.len(),
            out@ == v@.take(i as int),
        decreases v@.len() - i,
    {
        out.push(v[i]);
        proof {
            assert(out@ =~= v@.take(i + 1));
        }
        i = i + 1;
    }
    proof {
        assert(v@.take(v@.len() as int) =~= v@);
    }
    out
}

/// Whether a key comes after the last one taken (every key does before the
/// first is taken).
spec fn above(last: Option<(u32, u32, u128, u32)>, k: (u32, u32, u128, u32)) -> bool {
    match last {
        None => true,
        Some(l) => key_lt(l, k),
    }
}

/// How many of the first `m` kept candidates have a key after `last`.
spec fn count_above(cands: Seq<ScalarCandidate>, kept: Seq<usize>, last: Option<(u32, u32, u128, u32)>, m: nat) -> nat
    decreases m,
{
    if m == 0 {
        0
    } else {
        count_above(cands, kept, last, (m - 1) as nat) + if above(last, key_of(cands[kept[m - 1] as int].probe)) {
            1nat
        } else {
            0nat
        }
    }
}

proof fn lemma_count_above_shrinks(
    cands: Seq<ScalarCandidate>,
    kept: Seq<usize>,
    l1: Option<(u32, u32, u128, u32)>,
    l2: Option<(u32, u32, u128, u32)>,
    m: nat,
    w: int,
)
    requires
        m <= kept.len(),
        forall|k: int| 0 <= k < m ==> above(l2, key_of(cands[#[trigger] kept[k] as int].probe)) ==> above(l1, key_of(cands[kept[k] as int].probe)),
        0 <= w < m,
        above(l1, key_of(cands[kept[w] as int].probe)),
        !above(l2, key_of(cands[kept[w] as int].probe)),
    ensures
        count_above(cands, kept, l2, m) < count_above(cands, kept, l1, m),
    decreases m,
{
    if w < m - 1 {
        lemma_count_above_shrinks(cands, kept, l1, l2, (m - 1) as nat, w);
        let x = kept[m - 1];
        assert(above(l2, key_of(cands[x as int].probe)) ==> above(l1, key_of(cands[x as int].probe)));
    } else {
        lemma_count_above_le(cands, kept, l1, l2, (m - 1) as nat);
    }
}

proof fn lemma_count_above_le(
    cands: Seq<ScalarCandidate>,
    kept: Seq<usize>,
    l1: Option<(u32, u32, u128, u32)>,
    l2: Option<(u32, u32, u128, u32)>,
    m: nat,
)
    requires
        m <= kept.len(),
        forall|k: int| 0 <= k < m ==> above(l2, key_of(cands[#[trigger] kept[k] as int].probe)) ==> above(l1, key_of(cands[kept[k] as int].probe)),
    ensures
        count_above(cands, kept, l2, m) <= count_above(cands, kept, l1, m),
    decreases m,
{
    if m > 0 {
        lemma_count_above_le(cands, kept, l1, l2, (m - 1) as nat);
        let x = kept[m - 1];
        assert(above(l2, key_of(cands[x as int].probe)) ==> above(l1, key_of(cands[x as int].probe)));
    }
}

/// `a` is a copy of `b`.
spec fn same_cand(a: ScalarCandidate, b: ScalarCandidate) -> bool {
    a.probe == b.probe && a.cardinality == b.cardinality && a.outcomes@ == b.outcomes@
}

/// `c` is a copy of one of the candidates at `kept`.
spec fn from_kept(c: ScalarCandidate, cands: Seq<ScalarCandidate>, kept: Seq<usize>) -> bool {
    exists|k: int| 0 <= k < kept.len() && same_cand(c, cands[#[trigger] kept[k] as int])
}

/// Key of the candidate at `kept[k]`.
spec fn kept_key(cands: Seq<ScalarCandidate>, kept: Seq<usize>, k: int) -> (u32, u32, u128, u32) {
    key_of(cands[kept[k] as int].probe)
}

/// Some candidate of `out` has key `kk`.
spec fn key_taken(out: Seq<ScalarCandidate>, kk: (u32, u32, u128, u32)) -> bool {
    exists|i: int| 0 <= i < out.len() && key_of((#[trigger] out[i]).probe) == kk
}

/// The candidates at `kept`, in strictly increasing key order, one for each
/// key (the first at `kept` that has it).
#[verifier::spinoff_prover]
#[verifier::rlimit(60)]
fn order_by_key(
    cands: &Vec<ScalarCandidate>,
    kept: &Vec<usize>,
    Ghost(n): Ghost<nat>,
    Ghost(capacity): Ghost<u32>,
) -> (r: Vec<ScalarCandidate>)
    requires
        forall|k: int| 0 <= k < kept@.len() ==> #[trigger] kept@[k] < cands@.len(),
        forall|i: int| 0 <= i < cands@.len() ==> cand_ok(#[trigger] cands@[i], n, capacity),
    ensures
        forall|i: int| 0 <= i < r@.len() ==> cand_ok(#[trigger] r@[i], n, capacity),
        forall|i: int, j: int| 0 <= i < j < r@.len() ==> key_lt(key_of(#[trigger] r@[i].probe), key_of(#[trigger] r@[j].probe)),
        forall|i: int| 0 <= i < r@.len() ==> from_kept(#[trigger] r@[i], cands@, kept@),
        forall|k: int| 0 <= k < kept@.len() ==> key_taken(r@, #[trigger] kept_key(cands@, kept@, k)),
{
    let mut out: Vec<ScalarCandidate> = Vec::new();
    let mut last: Option<(u32, u32, u128, u32)> = None;
    loop
        invariant
            forall|k: int| 0 <= k < kept@.len() ==> #[trigger] kept@[k] < cands@.len(),
            forall|i: int| 0 <= i < cands@.len() ==> cand_ok(#[trigger] cands@[i], n, capacity),
            forall|i: int| 0 <= i < out@.len() ==> cand_ok(#[trigger] out@[i], n, capacity),
            forall|i: int, j: int| 0 <= i < j < out@.len() ==> key_lt(key_of(#[trigger] out@[i].probe), key_of(#[trigger] out@[j].probe)),
            out@.len() > 0 ==> last == Some(key_of(out@.last().probe)),
            out@.len() == 0 ==> last is None,
            forall|i: int| 0 <= i < out@.len() ==> from_kept(#[trigger] out@[i], cands@, kept@),
            forall|k: int| 0 <= k < kept@.len() && !above(last, #[trigger] kept_key(cands@, kept@, k)) ==> key_taken(out@, kept_key(cands@, kept@, k)),
        ensures
            forall|i: int| 0 <= i < out@.len() ==> cand_ok(#[trigger] out@[i], n, capacity),
            forall|i: int, j: int| 0 <= i < j < out@.len() ==> key_lt(key_of(#[trigger] out@[i].probe), key_of(#[trigger] out@[j].probe)),
            forall|i: int| 0 <= i < out@.len() ==> from_kept(#[trigger] out@[i], cands@, kept@),
            forall|k: int| 0 <= k < kept@.len() ==> key_taken(out@, #[trigger] kept_key(cands@, kept@, k)),
        decreases count_above(cands@, kept@, last, kept@.len() as nat),
    {
        let mut best: Option<usize> = None;
        let mut t: usize = 0;
        while t < kept.len()
            invariant
                forall|k: int| 0 <= k < kept@.len() ==> #[trigger] kept@[k] < cands@.len(),
                forall|i: int| 0 <= i < cands@.len() ==> cand_ok(#[trigger] cands@[i], n, capacity),
                t <= kept@.len(),
                best matches Some(b) ==> b < cands@.len() && above(last, key_of(cands@[b as int].probe)) && exists|tb: int| 0 <= tb < t && #[trigger] kept@[tb] == b,
                forall|u: int|
                    0 <= u < t && above(last, key_of(cands@[#[trigger] kept@[u] as int].probe)) ==> (best matches Some(b) && !key_lt(
                        key_of(cands@[kept@[u] as int].probe),
                        key_of(cands@[b as int].probe),
                    )),
            decreases kept@.len() - t,
        {
            let c = kept[t];
            let k = scalar_key(&cands[c].probe);
            proof {
                assert(cand_ok(cands@[c as int], n, capacity));
                assert(k == key_of(cands@[c as int].probe));
            }
            let above_last = match last {
                None => true,
                Some(l) => key_less(l, k),
            };
            if above_last {
                match best {
                    None => {
                        best = Some(c);
                    },
                    Some(b) => {
                        proof {
                            assert(cand_ok(cands@[b as int], n, capacity));
                        }
                        if key_less(k, scalar_key(&cands[b].probe)) {
                            best = Some(c);
                            proof {
                                assert forall|u: int|
                                    0 <= u < t + 1 && above(last, key_of(cands@[#[trigger] kept@[u] as int].probe)) implies !key_lt(
                                        key_of(cands@[kept@[u] as int].probe),
                                        key_of(cands@[c as int].probe),
                                    ) by {
                                    if u < t && key_lt(key_of(cands@[kept@[u] as int].probe), key_of(cands@[c as int].probe)) {
                                        lemma_key_transitive(key_of(cands@[kept@[u] as int].probe), key_of(cands@[c as int].probe), key_of(cands@[b as int].probe));
                                    }
                                }
                            }
                        }
                    },
                }
            }
            t = t + 1;
        }
        match best {
            None => {
                proof {
                    assert forall|k: int| 0 <= k < kept@.len() implies key_taken(out@, #[trigger] kept_key(cands@, kept@, k)) by {
                        assert(!above(last, kept_key(cands@, kept@, k)));
                    }
                }
                break;
            },
            Some(b) => {
                let src = &cands[b];
                let c = ScalarCandidate {
                    probe: src.probe,
                    cardinality: src.cardinality,
                    outcomes: copy_outcomes(&src.outcomes),
                };
                let ghost before = out@;
                let ghost last0 = last;
                let k = scalar_key(&c.probe);
                proof {
                    assert(cand_ok(cands@[b as int], n, capacity));
                    let w = choose|i: int| 0 <= i < n && !collided(#[trigger] src.outcomes@[i]);
                    assert(!collided(c.outcomes@[w]));
                    assert(cand_ok(c, n, capacity));
                    assert forall|i: int| 0 <= i < before.len() implies key_lt(key_of(#[trigger] before[i].probe), key_of(c.probe)) by {
                        if i < before.len() - 1 {
                            assert(key_lt(key_of(before[i].probe), key_of(before.last().probe)));
                        }
                    }
                }
                out.push(c);
                last = Some(k);
                proof {
                    let tb = choose|tb: int| 0 <= tb < kept@.len() && #[trigger] kept@[tb] == b;
                    assert forall|i: int, j: int| 0 <= i < j < out@.len() implies key_lt(key_of(#[trigger] out@[i].probe), key_of(#[trigger] out@[j].probe)) by {
                        if j < before.len() {
                            assert(out@[i] == before[i] && out@[j] == before[j]);
                        } else {
                            assert(out@[i] == before[i]);
                        }
                    }
                    assert forall|i: int| 0 <= i < out@.len() implies cand_ok(#[trigger] out@[i], n, capacity) by {
                        if i < before.len() {
                            assert(out@[i] == before[i]);
                        }
                    }
                    assert forall|i: int| 0 <= i < out@.len() implies from_kept(#[trigger] out@[i], cands@, kept@) by {
                        if i < before.len() {
                            assert(out@[i] == before[i]);
                        } else {
                            assert(same_cand(out@[i], cands@[kept@[tb] as int]));
                        }
                    }
                    let kb = key_of(cands@[b as int].probe);
                    assert(key_of(c.probe) == kb);
                    assert forall|q: int| 0 <= q < kept@.len() && !above(last, #[trigger] kept_key(cands@, kept@, q)) implies key_taken(out@, kept_key(cands@, kept@, q)) by {
                        let kq = kept_key(cands@, kept@, q);
                        if kq == kb {
                            assert(key_of(out@[before.len() as int].probe) == kq);
                        } else {
                            assert(key_lt(kq, kb));
                            if above(last0, kq) {
                                assert(!key_lt(kq, kb));
                            }
                            assert(key_taken(before, kq));
                            let i = choose|i: int| 0 <= i < before.len() && key_of((#[trigger] before[i]).probe) == kq;
                            assert(out@[i] == before[i]);
                        }
                    }
                    assert forall|q: int| 0 <= q < kept@.len() implies above(last, key_of(cands@[#[trigger] kept@[q] as int].probe)) ==> above(last0, key_of(cands@[kept@[q] as int].probe)) by {
                        let kq = key_of(cands@[kept@[q] as int].probe);
                        if above(last, kq) {
                            match last0 {
                                None => {},
                                Some(l0) => {
                                    lemma_key_transitive(l0, kb, kq);
                                },
                            }
                        }
                    }
                    lemma_count_above_shrinks(cands@, kept@, last0, last, kept@.len() as nat, tb);
                }
            },
        }
    }
    out
}

// ---------------------------------------------------------------------------
// Bundles
// ---------------------------------------------------------------------------

/// Product of the field orders of `ps`.
pub open spec fn probes_product(ps: Seq<ScalarProbe>) -> nat
    decreases ps.len(),
{
    if ps.len() == 0 {
        1
    } else {
        probes_product(ps.drop_last()) * ps.last().descriptor().order_spec()
    }
}

/// Keys of the probes of a bundle, in order.
pub open spec fn bundle_keys(ps: Seq<ScalarProbe>) -> Seq<(u32, u32, u128, u32)> {
    ps.map_values(|p: ScalarProbe| key_of(p))
}

/// Representative `a` is kept over `b` of the same behavior: a smaller
/// product of field orders, then smaller probe keys.
spec fn rep_before(a: ActionRepresentative, b: ActionRepresentative) -> bool {
    a.product < b.product || (a.product == b.product && keys_lt(
        a.bundle.probes@.map_values(|p: ScalarProbe| probe_key(p)),
        b.bundle.probes@.map_values(|p: ScalarProbe| probe_key(p)),
    ))
}

/// A bundle with the outcomes of its combined probes.
struct ActionRepresentative {
    bundle: ProbeBundle,
    product: u128,
    outcomes: Vec<PairOutcome>,
}

spec fn rep_ok(r: ActionRepresentative, n: nat, capacity: u128) -> bool {
    &&& r.bundle.probes@.len() > 0
    &&& r.product as nat == probes_product(r.bundle.probes@)
    &&& r.product <= capacity
    &&& r.outcomes@.len() == n
}

/// Representatives with their behaviors: one per behavior.
spec fn reps_ok(reps: Seq<ActionRepresentative>, keys: Seq<Vec<u32>>, n: nat, capacity: u128) -> bool {
    &&& reps.len() == keys.len()
    &&& forall|i: int| 0 <= i < reps.len() ==> rep_ok(#[trigger] reps[i], n, capacity)
    &&& forall|i: int| 0 <= i < reps.len() ==> (#[trigger] keys[i])@ == behavior_spec(reps[i].outcomes@)
    &&& forall|i: int, j: int| 0 <= i < reps.len() && 0 <= j < reps.len() && i != j ==> (#[trigger] keys[i])@ != (
    #[trigger] keys[j])@
}

/// Probes of the selected scalars, in selection order.
spec fn sel_probes(scalars: Seq<ScalarCandidate>, selected: Seq<usize>) -> Seq<ScalarProbe> {
    Seq::new(selected.len(), |k: int| scalars[selected[k] as int].probe)
}

fn copy_key(v: &Vec<u32>) -> (r: Vec<u32>)
    ensures
        r@ == v@,
{
    let mut out: Vec<u32> = Vec::new();
    let mut i: usize = 0;
    while i < v.len()
        invariant
            i <= v@.len(),
            out@ == v@.take(i as int),
        decreases v@.len() - i,
    {
        out.push(v[i]);
        proof {
            assert(out@ =~= v@.take(i + 1));
        }
        i = i + 1;
    }
    proof {
        assert(v@.take(v@.len() as int) =~= v@);
    }
    out
}

/// Adds a representative: a new behavior is kept; for a known behavior it
/// replaces the kept one when smaller by (outcome count, bundle key).
fn offer_rep(
    reps: &mut Vec<ActionRepresentative>,
    keys: &mut Vec<Vec<u32>>,
    rep: ActionRepresentative,
    key: Vec<u32>,
    Ghost(n): Ghost<nat>,
    Ghost(capacity): Ghost<u128>,
)
    requires
        reps_ok(old(reps)@, old(keys)@, n, capacity),
        rep_ok(rep, n, capacity),
        key@ == behavior_spec(rep.outcomes@),
    ensures
        reps_ok(final(reps)@, final(keys)@, n, capacity),
        (forall|k: int| 0 <= k < old(keys)@.len() ==> (#[trigger] old(keys)@[k])@ != key@) ==> final(reps)@ == old(reps)@.push(rep) && final(keys)@ == old(keys)@.push(key),
        forall|k: int|
            0 <= k < old(keys)@.len() && (#[trigger] old(keys)@[k])@ == key@ ==> final(keys)@ == old(keys)@ && final(reps)@ == (if rep_before(rep, old(reps)@[k]) {
                old(reps)@.update(k, rep)
            } else {
                old(reps)@
            }),
{
    match find_behavior(keys, &key) {
        None => {
            reps.push(rep);
            keys.push(key);
            proof {
                let k = reps@.len() - 1;
                assert forall|i: int, j: int|
                    0 <= i < reps@.len() && 0 <= j < reps@.len() && i != j implies (#[trigger] keys@[i])@ != (
                #[trigger] keys@[j])@ by {
                    if i < k && j < k {
                        assert(keys@[i] == old(keys)@[i] && keys@[j] == old(keys)@[j]);
                    } else if i == k {
                        assert(keys@[j] == old(keys)@[j]);
                    } else {
                        assert(keys@[i] == old(keys)@[i]);
                    }
                }
                assert forall|i: int| 0 <= i < reps@.len() implies rep_ok(#[trigger] reps@[i], n, capacity) by {
                    if i < k {
                        assert(reps@[i] == old(reps)@[i]);
                    }
                }
                assert forall|i: int| 0 <= i < reps@.len() implies (#[trigger] keys@[i])@ == behavior_spec(
                    reps@[i].outcomes@,
                ) by {
                    if i < k {
                        assert(reps@[i] == old(reps)@[i] && keys@[i] == old(keys)@[i]);
                    }
                }
            }
        },
        Some(k) => {
            let old_rep = &reps[k];
            let ka = bundle_key(&rep.bundle);
            let kb = bundle_key(&old_rep.bundle);
            proof {
                assert(ka@ =~= rep.bundle.probes@.map_values(|p: ScalarProbe| probe_key(p)));
                assert(kb@ =~= old_rep.bundle.probes@.map_values(|p: ScalarProbe| probe_key(p)));
            }
            let smaller = rep.product < old_rep.product || (rep.product == old_rep.product && keys_less(
                ka.as_slice(),
                kb.as_slice(),
            ));
            if smaller {
                reps.set(k, rep);
                proof {
                    assert forall|i: int| 0 <= i < reps@.len() implies rep_ok(#[trigger] reps@[i], n, capacity) by {
                        if i != k {
                            assert(reps@[i] == old(reps)@[i]);
                        }
                    }
                    assert forall|i: int| 0 <= i < reps@.len() implies (#[trigger] keys@[i])@ == behavior_spec(
                        reps@[i].outcomes@,
                    ) by {
                        if i != k {
                            assert(reps@[i] == old(reps)@[i]);
                        }
                    }
                }
            }
        },
    }
}

/// Combined outcomes of a bundle extended by one more scalar: each value
/// becomes `previous * order + value`.
fn combine(prev: &Vec<PairOutcome>, cur: &Vec<PairOutcome>, card: u128, product: u128) -> (r: Vec<PairOutcome>)
    requires
        prev@.len() == cur@.len(),
        product * card <= u32::MAX,
        forall|i: int| 0 <= i < prev@.len() ==> (#[trigger] prev@[i]).left < product && prev@[i].right < product,
        forall|i: int| 0 <= i < cur@.len() ==> (#[trigger] cur@[i]).left < card && cur@[i].right < card,
    ensures
        r@.len() == prev@.len(),
        forall|i: int| 0 <= i < r@.len() ==> (#[trigger] r@[i]).left < product * card && r@[i].right < product * card,
{
    let mut out: Vec<PairOutcome> = Vec::new();
    let mut i: usize = 0;
    while i < prev.len()
        invariant
            prev@.len() == cur@.len(),
            product * card <= u32::MAX,
            forall|t: int| 0 <= t < prev@.len() ==> (#[trigger] prev@[t]).left < product && prev@[t].right < product,
            forall|t: int| 0 <= t < cur@.len() ==> (#[trigger] cur@[t]).left < card && cur@[t].right < card,
            i <= prev@.len(),
            out@.len() == i,
            forall|t: int| 0 <= t < i ==> (#[trigger] out@[t]).left < product * card && out@[t].right < product * card,
        decreases prev@.len() - i,
    {
        let a = prev[i];
        let b = cur[i];
        proof {
            assert(a.left < product && a.right < product);
            assert(b.left < card && b.right < card);
            assert((a.left as u128) * card + (b.left as u128) < product * card) by (nonlinear_arith)
                requires
                    a.left < product,
                    b.left < card,
            ;
            assert((a.right as u128) * card + (b.right as u128) < product * card) by (nonlinear_arith)
                requires
                    a.right < product,
                    b.right < card,
            ;
        }
        let left = ((a.left as u128) * card + (b.left as u128)) as u32;
        let right = ((a.right as u128) * card + (b.right as u128)) as u32;
        out.push(PairOutcome { left, right });
        i = i + 1;
    }
    out
}

fn all_resolved(key: &Vec<u32>) -> (r: bool)
    ensures
        r == forall|i: int| 0 <= i < key@.len() ==> key@[i] == RESOLVED,
{
    let mut i: usize = 0;
    while i < key.len()
        invariant
            i <= key@.len(),
            forall|t: int| 0 <= t < i ==> key@[t] == RESOLVED,
        decreases key@.len() - i,
    {
        if key[i] != RESOLVED {
            return false;
        }
        i = i + 1;
    }
    true
}

/// Index of the memo entry for `(start, key)`, if any.
fn find_memo(memo: &Vec<(usize, Vec<u32>, u128)>, start: usize, key: &Vec<u32>) -> (r: Option<usize>)
    ensures
        r matches Some(k) ==> k < memo@.len() && memo@[k as int].0 == start && memo@[k as int].1@ == key@,
        r is None ==> forall|k: int| 0 <= k < memo@.len() ==> !((#[trigger] memo@[k]).0 == start && memo@[k].1@ == key@),
{
    let mut k: usize = 0;
    while k < memo.len()
        invariant
            k <= memo@.len(),
            forall|j: int| 0 <= j < k ==> !((#[trigger] memo@[j]).0 == start && memo@[j].1@ == key@),
        decreases memo@.len() - k,
    {
        if memo[k].0 == start && symbols_equal(memo[k].1.as_slice(), key.as_slice()) {
            return Some(k);
        }
        k = k + 1;
    }
    None
}

/// The probes of the selected scalars.
fn selected_probes(scalars: &Vec<ScalarCandidate>, selected: &Vec<usize>) -> (r: Vec<ScalarProbe>)
    requires
        forall|k: int| 0 <= k < selected@.len() ==> #[trigger] selected@[k] < scalars@.len(),
    ensures
        r@ == sel_probes(scalars@, selected@),
{
    let mut out: Vec<ScalarProbe> = Vec::new();
    let mut k: usize = 0;
    while k < selected.len()
        invariant
            forall|t: int| 0 <= t < selected@.len() ==> #[trigger] selected@[t] < scalars@.len(),
            k <= selected@.len(),
            out@ == sel_probes(scalars@, selected@).take(k as int),
        decreases selected@.len() - k,
    {
        out.push(scalars[selected[k]].probe);
        proof {
            assert(out@ =~= sel_probes(scalars@, selected@).take(k + 1));
        }
        k = k + 1;
    }
    proof {
        assert(sel_probes(scalars@, selected@).take(selected@.len() as int) =~= sel_probes(scalars@, selected@));
    }
    out
}

/// Exhaustive enumeration of bundles of scalars taken in index order from
/// `start`, within the capacity, keeping one representative per behavior.
/// A state `(start, behavior)` already reached with no larger outcome count
/// is not explored again, nor is a state that separates every scenario.
fn enumerate_bundles(
    scalars: &Vec<ScalarCandidate>,
    capacity: u128,
    start: usize,
    product: u128,
    selected: &mut Vec<usize>,
    combined: Option<Vec<PairOutcome>>,
    reps: &mut Vec<ActionRepresentative>,
    keys: &mut Vec<Vec<u32>>,
    memo: &mut Vec<(usize, Vec<u32>, u128)>,
    Ghost(n): Ghost<nat>,
    Ghost(cap): Ghost<u32>,
) -> (r: Result<(), ActionError>)
    requires
        n < RESOLVED,
        capacity == cap as u128,
        forall|i: int| 0 <= i < scalars@.len() ==> cand_ok(#[trigger] scalars@[i], n, cap),
        start <= scalars@.len(),
        forall|k: int| 0 <= k < old(selected)@.len() ==> #[trigger] old(selected)@[k] < scalars@.len(),
        1 <= product <= capacity,
        product as nat == probes_product(sel_probes(scalars@, old(selected)@)),
        combined matches Some(c) ==> c@.len() == n && forall|i: int|
            0 <= i < n ==> (#[trigger] c@[i]).left < product && c@[i].right < product,
        reps_ok(old(reps)@, old(keys)@, n, capacity),
    ensures
        r is Ok,
        final(selected)@ == old(selected)@,
        reps_ok(final(reps)@, final(keys)@, n, capacity),
        final(keys)@.len() >= old(keys)@.len(),
        forall|k: int| 0 <= k < old(keys)@.len() ==> (#[trigger] final(keys)@[k])@ == old(keys)@[k]@,
    decreases scalars@.len() - start,
{
    let current: Option<Vec<u32>> = match &combined {
        Some(rows) => Some(behavior_key(rows.as_slice())),
        None => None,
    };
    match &current {
        Some(key) => {
            match find_memo(memo, start, key) {
                Some(idx) => {
                    if memo[idx].2 <= product {
                        return Ok(());
                    }
                    memo.set(idx, (start, copy_key(key), product));
                },
                None => {
                    memo.push((start, copy_key(key), product));
                },
            }
            if all_resolved(key) {
                return Ok(());
            }
        },
        None => {},
    }
    let ghost sel0 = selected@;
    let mut i: usize = start;
    while i < scalars.len()
        invariant
            n < RESOLVED,
            capacity == cap as u128,
            forall|t: int| 0 <= t < scalars@.len() ==> cand_ok(#[trigger] scalars@[t], n, cap),
            start <= i <= scalars@.len(),
            selected@ == sel0,
            sel0 == old(selected)@,
            forall|k: int| 0 <= k < sel0.len() ==> #[trigger] sel0[k] < scalars@.len(),
            1 <= product <= capacity,
            product as nat == probes_product(sel_probes(scalars@, sel0)),
            combined matches Some(c) ==> c@.len() == n && forall|t: int|
                0 <= t < n ==> (#[trigger] c@[t]).left < product && c@[t].right < product,
            current matches Some(k) ==> combined is Some,
            reps_ok(reps@, keys@, n, capacity),
            keys@.len() >= old(keys)@.len(),
            forall|k: int| 0 <= k < old(keys)@.len() ==> (#[trigger] keys@[k])@ == old(keys)@[k]@,
        decreases scalars@.len() - i,
    {
        let scalar = &scalars[i];
        proof {
            assert(cand_ok(scalars@[i as int], n, cap));
        }
        let card = scalar.cardinality as u128;
        let next_product = match product.checked_mul(card) {
            Some(x) => x,
            None => {
                i = i + 1;
                continue;
            },
        };
        if next_product > capacity {
            i = i + 1;
            continue;
        }
        let next_outcomes = match &combined {
            None => copy_outcomes(&scalar.outcomes),
            Some(previous) => combine(previous, &scalar.outcomes, card, product),
        };
        proof {
            assert(forall|t: int| 0 <= t < n ==> (#[trigger] next_outcomes@[t]).left < next_product
                && next_outcomes@[t].right < next_product) by {
                if combined is None {
                    assert(card <= next_product) by (nonlinear_arith)
                        requires
                            next_product == product * card,
                            product >= 1,
                            card >= 0,
                    ;
                    assert forall|t: int| 0 <= t < n implies (#[trigger] next_outcomes@[t]).left < next_product
                        && next_outcomes@[t].right < next_product by {
                        assert(next_outcomes@[t] == scalar.outcomes@[t]);
                    }
                }
            }
        }
        proof {
            assert(card <= next_product) by (nonlinear_arith)
                requires
                    next_product == product * card,
                    product >= 1,
                    card >= 0,
            ;
            assert(card >= 2);
        }
        let behavior = behavior_key(next_outcomes.as_slice());
        let same = match &current {
            Some(old_key) => symbols_equal(old_key.as_slice(), behavior.as_slice()),
            None => false,
        };
        if same {
            i = i + 1;
            continue;
        }
        selected.push(i);
        proof {
            assert(sel_probes(scalars@, selected@) =~= sel_probes(scalars@, sel0).push(scalars@[i as int].probe));
            assert(sel_probes(scalars@, selected@).drop_last() =~= sel_probes(scalars@, sel0));
        }
        let probes = selected_probes(scalars, selected);
        proof {
            assert(probes@.len() > 0);
        }
        let bundle = match ProbeBundle::new(probes) {
            Ok(b) => b,
            Err(e) => {
                selected.pop();
                proof {
                    assert(selected@ =~= sel0);
                }
                return Err(ActionError::Bundle(e));
            },
        };
        let rep = ActionRepresentative { bundle, product: next_product, outcomes: copy_outcomes(&next_outcomes) };
        let ghost keys1 = keys@;
        offer_rep(reps, keys, rep, behavior, Ghost(n), Ghost(capacity));
        proof {
            if exists|k: int| 0 <= k < keys1.len() && (#[trigger] keys1[k])@ == behavior@ {
                let k = choose|k: int| 0 <= k < keys1.len() && (#[trigger] keys1[k])@ == behavior@;
                assert(keys@ == keys1);
            } else {
                assert(keys@ == keys1.push(behavior));
                assert forall|k: int| 0 <= k < old(keys)@.len() implies (#[trigger] keys@[k])@ == old(keys)@[k]@ by {
                    assert(keys@[k] == keys1[k]);
                }
            }
        }
        let ghost keys2 = keys@;
        let res = enumerate_bundles(
            scalars,
            capacity,
            i + 1,
            next_product,
            selected,
            Some(next_outcomes),
            reps,
            keys,
            memo,
            Ghost(n),
            Ghost(cap),
        );
        selected.pop();
        proof {
            assert(selected@ =~= sel0);
            assert forall|k: int| 0 <= k < old(keys)@.len() implies (#[trigger] keys@[k])@ == old(keys)@[k]@ by {
                assert(keys@[k]@ == keys2[k]@);
            }
        }
        match res {
            Ok(()) => {},
            Err(e) => {
                return Err(e);
            },
        }
        i = i + 1;
    }
    Ok(())
}

// ---------------------------------------------------------------------------
// The generated actions
// ---------------------------------------------------------------------------

proof fn lemma_keys_irreflexive(a: Seq<(u32, u32, u128, u32)>)
    ensures
        !keys_lt(a, a),
    decreases a.len(),
{
    if a.len() > 0 {
        lemma_keys_irreflexive(a.drop_first());
    }
}

fn keys_of_bundle(b: &ProbeBundle) -> (r: Vec<(u32, u32, u128, u32)>)
    ensures
        r@ == bundle_keys(b.probes@),
{
    let r = bundle_key(b);
    proof {
        assert(r@ =~= bundle_keys(b.probes@));
    }
    r
}

/// Some other behavior refines behavior `m`.
pub open spec fn key_dominated(keys: Seq<Vec<u32>>, m: int) -> bool {
    exists|t: int| 0 <= t < keys.len() && t != m && refines((#[trigger] keys[t])@, keys[m]@)
}

/// Indices of the behaviors that no other behavior refines.
fn undominated(keys: &Vec<Vec<u32>>) -> (r: Vec<usize>)
    ensures
        forall|k: int| 0 <= k < r@.len() ==> #[trigger] r@[k] < keys@.len(),
        forall|k: int, j: int|
            #![trigger r@[k], keys@[j]]
            0 <= k < r@.len() && 0 <= j < keys@.len() && j != r@[k] ==> !refines(keys@[j]@, keys@[r@[k] as int]@),
        forall|m: int| 0 <= m < keys@.len() && !key_dominated(keys@, m) ==> r@.contains(m as usize),
        forall|a: int, b: int| 0 <= a < b < r@.len() ==> #[trigger] r@[a] < #[trigger] r@[b],
{
    let mut kept: Vec<usize> = Vec::new();
    let mut i: usize = 0;
    while i < keys.len()
        invariant
            i <= keys@.len(),
            forall|k: int| 0 <= k < kept@.len() ==> #[trigger] kept@[k] < i,
            forall|k: int, j: int|
                #![trigger kept@[k], keys@[j]]
                0 <= k < kept@.len() && 0 <= j < keys@.len() && j != kept@[k] ==> !refines(
                    keys@[j]@,
                    keys@[kept@[k] as int]@,
                ),
            forall|m: int| 0 <= m < i && !key_dominated(keys@, m) ==> kept@.contains(m as usize),
            forall|a: int, b: int| 0 <= a < b < kept@.len() ==> #[trigger] kept@[a] < #[trigger] kept@[b],
        decreases keys@.len() - i,
    {
        let mut dominated = false;
        let mut j: usize = 0;
        while j < keys.len()
            invariant
                i < keys@.len(),
                j <= keys@.len(),
                !dominated ==> forall|t: int| 0 <= t < j && t != i ==> !refines(#[trigger] keys@[t]@, keys@[i as int]@),
                dominated ==> key_dominated(keys@, i as int),
            decreases keys@.len() - j,
        {
            if j != i && behavior_refines(keys[j].as_slice(), keys[i].as_slice()) {
                dominated = true;
            }
            j = j + 1;
        }
        if !dominated {
            let ghost before = kept@;
            kept.push(i);
            proof {
                assert forall|k: int, t: int|
                    #![trigger kept@[k], keys@[t]]
                    0 <= k < kept@.len() && 0 <= t < keys@.len() && t != kept@[k] implies !refines(
                        keys@[t]@,
                        keys@[kept@[k] as int]@,
                    ) by {
                    if k < before.len() {
                        assert(kept@[k] == before[k]);
                    }
                }
                assert(kept@[before.len() as int] == i);
                assert forall|m: int| 0 <= m < i + 1 && !key_dominated(keys@, m) implies kept@.contains(m as usize) by {
                    if m < i {
                        let k = choose|k: int| 0 <= k < before.len() && before[k] == m as usize;
                        assert(kept@[k] == before[k]);
                    }
                }
            }
        }
        i = i + 1;
    }
    kept
}

type KeySeq = Seq<(u32, u32, u128, u32)>;

proof fn lemma_keys_total(a: KeySeq, b: KeySeq)
    requires
        a != b,
    ensures
        keys_lt(a, b) || keys_lt(b, a),
    decreases a.len(),
{
    if a.len() > 0 && b.len() > 0 && a[0] == b[0] {
        if a.drop_first() == b.drop_first() {
            assert(a =~= seq![a[0]] + a.drop_first());
            assert(b =~= seq![b[0]] + b.drop_first());
        }
        lemma_keys_total(a.drop_first(), b.drop_first());
    }
    if a.len() == 0 && b.len() == 0 {
        assert(a =~= b);
    }
}

/// Whether bundle keys come after the last ones taken.
spec fn rows_above(last: Option<KeySeq>, k: KeySeq) -> bool {
    match last {
        None => true,
        Some(l) => keys_lt(l, k),
    }
}

/// Bundle keys of the representative at `kept[k]`.
spec fn row_key(reps: Seq<ActionRepresentative>, kept: Seq<usize>, k: int) -> KeySeq {
    bundle_keys(reps[kept[k] as int].bundle.probes@)
}

/// Some index of `out` names a representative with keys `kk`.
spec fn row_taken(reps: Seq<ActionRepresentative>, out: Seq<usize>, kk: KeySeq) -> bool {
    exists|i: int| 0 <= i < out.len() && bundle_keys(reps[#[trigger] out[i] as int].bundle.probes@) == kk
}

spec fn count_rows_above(reps: Seq<ActionRepresentative>, kept: Seq<usize>, last: Option<KeySeq>, m: nat) -> nat
    decreases m,
{
    if m == 0 {
        0
    } else {
        count_rows_above(reps, kept, last, (m - 1) as nat) + if rows_above(last, row_key(reps, kept, m - 1)) {
            1nat
        } else {
            0nat
        }
    }
}

proof fn lemma_count_rows_le(reps: Seq<ActionRepresentative>, kept: Seq<usize>, l1: Option<KeySeq>, l2: Option<KeySeq>, m: nat)
    requires
        m <= kept.len(),
        forall|k: int| 0 <= k < m ==> rows_above(l2, #[trigger] row_key(reps, kept, k)) ==> rows_above(l1, row_key(reps, kept, k)),
    ensures
        count_rows_above(reps, kept, l2, m) <= count_rows_above(reps, kept, l1, m),
    decreases m,
{
    if m > 0 {
        lemma_count_rows_le(reps, kept, l1, l2, (m - 1) as nat);
        assert(rows_above(l2, row_key(reps, kept, m - 1)) ==> rows_above(l1, row_key(reps, kept, m - 1)));
    }
}

proof fn lemma_count_rows_shrinks(
    reps: Seq<ActionRepresentative>,
    kept: Seq<usize>,
    l1: Option<KeySeq>,
    l2: Option<KeySeq>,
    m: nat,
    w: int,
)
    requires
        m <= kept.len(),
        forall|k: int| 0 <= k < m ==> rows_above(l2, #[trigger] row_key(reps, kept, k)) ==> rows_above(l1, row_key(reps, kept, k)),
        0 <= w < m,
        rows_above(l1, row_key(reps, kept, w)),
        !rows_above(l2, row_key(reps, kept, w)),
    ensures
        count_rows_above(reps, kept, l2, m) < count_rows_above(reps, kept, l1, m),
    decreases m,
{
    if w < m - 1 {
        lemma_count_rows_shrinks(reps, kept, l1, l2, (m - 1) as nat, w);
        assert(rows_above(l2, row_key(reps, kept, m - 1)) ==> rows_above(l1, row_key(reps, kept, m - 1)));
    } else {
        lemma_count_rows_le(reps, kept, l1, l2, (m - 1) as nat);
    }
}

spec fn last_view(last: Option<Vec<(u32, u32, u128, u32)>>) -> Option<KeySeq> {
    match last {
        None => None,
        Some(l) => Some(l@),
    }
}

/// The representatives at `kept`, as indices, in strictly increasing bundle
/// key order, one for each key (the first at `kept` that has it).
#[verifier::spinoff_prover]
#[verifier::rlimit(60)]
fn order_rows(reps: &Vec<ActionRepresentative>, kept: &Vec<usize>) -> (r: Vec<usize>)
    requires
        forall|k: int| 0 <= k < kept@.len() ==> #[trigger] kept@[k] < reps@.len(),
    ensures
        forall|i: int| 0 <= i < r@.len() ==> kept@.contains(#[trigger] r@[i]),
        forall|i: int, j: int|
            0 <= i < j < r@.len() ==> keys_lt(
                bundle_keys(reps@[#[trigger] r@[i] as int].bundle.probes@),
                bundle_keys(reps@[#[trigger] r@[j] as int].bundle.probes@),
            ),
        forall|k: int| 0 <= k < kept@.len() ==> row_taken(reps@, r@, #[trigger] row_key(reps@, kept@, k)),
{
    let mut out: Vec<usize> = Vec::new();
    let mut last: Option<Vec<(u32, u32, u128, u32)>> = None;
    loop
        invariant
            forall|k: int| 0 <= k < kept@.len() ==> #[trigger] kept@[k] < reps@.len(),
            forall|i: int| 0 <= i < out@.len() ==> kept@.contains(#[trigger] out@[i]),
            forall|i: int, j: int|
                0 <= i < j < out@.len() ==> keys_lt(
                    bundle_keys(reps@[#[trigger] out@[i] as int].bundle.probes@),
                    bundle_keys(reps@[#[trigger] out@[j] as int].bundle.probes@),
                ),
            out@.len() > 0 ==> (last matches Some(l) && l@ == bundle_keys(reps@[out@.last() as int].bundle.probes@)),
            out@.len() == 0 ==> last is None,
            forall|k: int|
                0 <= k < kept@.len() && !rows_above(last_view(last), #[trigger] row_key(reps@, kept@, k)) ==> row_taken(
                    reps@,
                    out@,
                    row_key(reps@, kept@, k),
                ),
        ensures
            forall|i: int| 0 <= i < out@.len() ==> kept@.contains(#[trigger] out@[i]),
            forall|i: int, j: int|
                0 <= i < j < out@.len() ==> keys_lt(
                    bundle_keys(reps@[#[trigger] out@[i] as int].bundle.probes@),
                    bundle_keys(reps@[#[trigger] out@[j] as int].bundle.probes@),
                ),
            forall|k: int| 0 <= k < kept@.len() ==> row_taken(reps@, out@, #[trigger] row_key(reps@, kept@, k)),
        decreases count_rows_above(reps@, kept@, last_view(last), kept@.len() as nat),
    {
        let mut best: Option<usize> = None;
        let mut best_key: Vec<(u32, u32, u128, u32)> = Vec::new();
        let mut t: usize = 0;
        while t < kept.len()
            invariant
                forall|k: int| 0 <= k < kept@.len() ==> #[trigger] kept@[k] < reps@.len(),
                t <= kept@.len(),
                best matches Some(b) ==> kept@.contains(b) && b < reps@.len() && best_key@ == bundle_keys(
                    reps@[b as int].bundle.probes@,
                ) && rows_above(last_view(last), best_key@) && exists|tb: int| 0 <= tb < t && #[trigger] kept@[tb] == b,
                forall|u: int|
                    0 <= u < t && rows_above(last_view(last), #[trigger] row_key(reps@, kept@, u)) ==> (best is Some
                        && !keys_lt(row_key(reps@, kept@, u), best_key@)),
            decreases kept@.len() - t,
        {
            let c = kept[t];
            proof {
                assert(kept@.contains(c));
            }
            let k = keys_of_bundle(&reps[c].bundle);
            let above = match &last {
                None => true,
                Some(l) => keys_less(l.as_slice(), k.as_slice()),
            };
            if above {
                let better = match best {
                    None => true,
                    Some(_) => keys_less(k.as_slice(), best_key.as_slice()),
                };
                let ghost bk0 = best_key@;
                if better {
                    best = Some(c);
                    best_key = k;
                    proof {
                        assert forall|u: int|
                            0 <= u < t + 1 && rows_above(last_view(last), #[trigger] row_key(reps@, kept@, u)) implies !keys_lt(
                                row_key(reps@, kept@, u),
                                best_key@,
                            ) by {
                            if u < t && keys_lt(row_key(reps@, kept@, u), best_key@) {
                                lemma_keys_transitive(row_key(reps@, kept@, u), best_key@, bk0);
                            }
                            if u == t {
                                lemma_keys_irreflexive(best_key@);
                            }
                        }
                    }
                }
            }
            t = t + 1;
        }
        match best {
            None => {
                proof {
                    assert forall|k: int| 0 <= k < kept@.len() implies row_taken(reps@, out@, #[trigger] row_key(reps@, kept@, k)) by {
                        assert(!rows_above(last_view(last), row_key(reps@, kept@, k)));
                    }
                }
                break;
            },
            Some(b) => {
                let ghost before = out@;
                let ghost last0 = last_view(last);
                proof {
                    assert forall|i: int| 0 <= i < before.len() implies keys_lt(
                        bundle_keys(reps@[#[trigger] before[i] as int].bundle.probes@),
                        best_key@,
                    ) by {
                        if i < before.len() - 1 {
                            assert(keys_lt(
                                bundle_keys(reps@[before[i] as int].bundle.probes@),
                                bundle_keys(reps@[before.last() as int].bundle.probes@),
                            ));
                            lemma_keys_transitive(
                                bundle_keys(reps@[before[i] as int].bundle.probes@),
                                bundle_keys(reps@[before.last() as int].bundle.probes@),
                                best_key@,
                            );
                        }
                    }
                }
                let ghost kb = best_key@;
                out.push(b);
                last = Some(best_key);
                proof {
                    let tb = choose|tb: int| 0 <= tb < kept@.len() && #[trigger] kept@[tb] == b;
                    assert(row_key(reps@, kept@, tb) == kb);
                    assert(last_view(last) == Some(kb));
                    assert forall|i: int, j: int| 0 <= i < j < out@.len() implies keys_lt(
                        bundle_keys(reps@[#[trigger] out@[i] as int].bundle.probes@),
                        bundle_keys(reps@[#[trigger] out@[j] as int].bundle.probes@),
                    ) by {
                        if j < before.len() {
                            assert(out@[i] == before[i] && out@[j] == before[j]);
                        } else {
                            assert(out@[i] == before[i]);
                        }
                    }
                    assert forall|i: int| 0 <= i < out@.len() implies kept@.contains(#[trigger] out@[i]) by {
                        if i < before.len() {
                            assert(out@[i] == before[i]);
                        }
                    }
                    assert forall|q: int|
                        0 <= q < kept@.len() && !rows_above(last_view(last), #[trigger] row_key(reps@, kept@, q)) implies row_taken(
                            reps@,
                            out@,
                            row_key(reps@, kept@, q),
                        ) by {
                        let kq = row_key(reps@, kept@, q);
                        if kq == kb {
                            assert(bundle_keys(reps@[out@[before.len() as int] as int].bundle.probes@) == kq);
                        } else {
                            lemma_keys_total(kq, kb);
                            assert(keys_lt(kq, kb));
                            if rows_above(last0, kq) {
                                assert(!keys_lt(kq, kb));
                            }
                            assert(row_taken(reps@, before, kq));
                            let i = choose|i: int| 0 <= i < before.len() && bundle_keys(reps@[#[trigger] before[i] as int].bundle.probes@) == kq;
                            assert(out@[i] == before[i]);
                        }
                    }
                    assert forall|q: int| 0 <= q < kept@.len() implies rows_above(last_view(last), #[trigger] row_key(reps@, kept@, q)) ==> rows_above(last0, row_key(reps@, kept@, q)) by {
                        let kq = row_key(reps@, kept@, q);
                        if rows_above(last_view(last), kq) {
                            match last0 {
                                None => {},
                                Some(l0) => {
                                    lemma_keys_transitive(l0, kb, kq);
                                },
                            }
                        }
                    }
                    lemma_keys_irreflexive(kb);
                    lemma_count_rows_shrinks(reps@, kept@, last0, last_view(last), kept@.len() as nat, tb);
                }
            },
        }
    }
    out
}

proof fn lemma_key_transitive(a: (u32, u32, u128, u32), b: (u32, u32, u128, u32), c: (u32, u32, u128, u32))
    requires
        key_lt(a, b),
        key_lt(b, c),
    ensures
        key_lt(a, c),
{
}

proof fn lemma_keys_transitive(
    a: Seq<(u32, u32, u128, u32)>,
    b: Seq<(u32, u32, u128, u32)>,
    c: Seq<(u32, u32, u128, u32)>,
)
    requires
        keys_lt(a, b),
        keys_lt(b, c),
    ensures
        keys_lt(a, c),
    decreases a.len(),
{
    if a.len() > 0 && b.len() > 0 && c.len() > 0 {
        if a[0] == b[0] && b[0] == c[0] {
            lemma_keys_transitive(a.drop_first(), b.drop_first(), c.drop_first());
        } else if a[0] != b[0] && b[0] != c[0] {
            lemma_key_transitive(a[0], b[0], c[0]);
            if a[0] == c[0] {
                assert(key_lt(a[0], b[0]) && key_lt(b[0], a[0]));
                lemma_key_transitive(a[0], b[0], a[0]);
            }
        }
    }
}

fn copy_bundle(b: &ProbeBundle) -> (r: ProbeBundle)
    ensures
        r.probes@ == b.probes@,
{
    let mut out: Vec<ScalarProbe> = Vec::new();
    let mut i: usize = 0;
    while i < b.probes.len()
        invariant
            i <= b.probes@.len(),
            out@ == b.probes@.take(i as int),
        decreases b.probes@.len() - i,
    {
        out.push(b.probes[i]);
        proof {
            assert(out@ =~= b.probes@.take(i + 1));
        }
        i = i + 1;
    }
    proof {
        assert(b.probes@.take(b.probes@.len() as int) =~= b.probes@);
    }
    ProbeBundle { probes: out }
}

/// What generated actions promise: one test per bundle, numbered in order;
/// every bundle nonempty and within the capacity; one outcome per scenario;
/// no two tests of the same behavior and none refined by another; bundles in
/// strictly increasing key order.
pub open spec fn actions_ok(g: GeneratedActions, n: nat, capacity: u32) -> bool {
    &&& g.bundles@.len() == g.tests@.len()
    &&& forall|i: int| 0 <= i < g.tests@.len() ==> (#[trigger] g.tests@[i]).id == i
    &&& forall|i: int|
        0 <= i < g.bundles@.len() ==> (#[trigger] g.bundles@[i]).probes@.len() > 0 && probes_product(
            g.bundles@[i].probes@,
        ) <= capacity
    &&& forall|i: int| 0 <= i < g.tests@.len() ==> (#[trigger] g.tests@[i]).outcomes@.len() == n
    &&& forall|i: int, j: int|
        0 <= i < g.tests@.len() && 0 <= j < g.tests@.len() && i != j ==> behavior_spec(
            (#[trigger] g.tests@[i]).outcomes@,
        ) != behavior_spec((#[trigger] g.tests@[j]).outcomes@)
    &&& forall|i: int, j: int|
        0 <= i < g.tests@.len() && 0 <= j < g.tests@.len() && i != j ==> !refines(
            behavior_spec((#[trigger] g.tests@[j]).outcomes@),
            behavior_spec((#[trigger] g.tests@[i]).outcomes@),
        )
    &&& forall|i: int, j: int|
        0 <= i < j < g.bundles@.len() ==> keys_lt(
            bundle_keys((#[trigger] g.bundles@[i]).probes@),
            bundle_keys((#[trigger] g.bundles@[j]).probes@),
        )
}

/// Candidate actions for the adaptive cook over `prior` within `capacity`:
/// scalar probes over every field of order at most `capacity` that separate
/// some scenario, one per behavior and undominated, combined exhaustively
/// into bundles of outcome count at most `capacity`; one bundle per
/// behavior, the least by (outcome count, key); then the bundles whose
/// behavior another refines are dropped and the rest numbered by key.
#[verifier::spinoff_prover]
pub fn generate_actions(prior: &PriorArtifact, capacity: u32) -> (r: Result<GeneratedActions, ActionError>)
    requires
        prior.scenarios@.len() < RESOLVED,
    ensures
        capacity < 2 ==> r == Err::<GeneratedActions, ActionError>(ActionError::CapacityTooSmall(capacity)),
        capacity >= 2 && prior.symbol_space.cardinality < 2 ==> r == Err::<GeneratedActions, ActionError>(
            ActionError::SymbolCardinalityTooSmall(prior.symbol_space.cardinality),
        ),
        r matches Ok(g) ==> actions_ok(g, prior.scenarios@.len(), capacity),
{
    let ghost n = prior.scenarios@.len();
    let scalars = match generate_scalar_candidates(prior, capacity) {
        Ok(x) => x,
        Err(e) => {
            return Err(e);
        },
    };
    let mut selected: Vec<usize> = Vec::new();
    let mut reps: Vec<ActionRepresentative> = Vec::new();
    let mut keys: Vec<Vec<u32>> = Vec::new();
    let mut memo: Vec<(usize, Vec<u32>, u128)> = Vec::new();
    proof {
        assert(sel_probes(scalars@, selected@) =~= Seq::<ScalarProbe>::empty());
    }
    match enumerate_bundles(
        &scalars,
        capacity as u128,
        0,
        1,
        &mut selected,
        None,
        &mut reps,
        &mut keys,
        &mut memo,
        Ghost(n),
        Ghost(capacity),
    ) {
        Ok(()) => {},
        Err(e) => {
            return Err(e);
        },
    }
    let kept = undominated(&keys);
    let order = order_rows(&reps, &kept);
    let mut bundles: Vec<ProbeBundle> = Vec::new();
    let mut tests: Vec<CandidateTest> = Vec::new();
    let mut id: usize = 0;
    while id < order.len()
        invariant
            capacity >= 2,
            prior.symbol_space.cardinality >= 2,
            reps_ok(reps@, keys@, n, capacity as u128),
            forall|k: int| 0 <= k < kept@.len() ==> #[trigger] kept@[k] < keys@.len(),
            forall|k: int, j: int|
                #![trigger kept@[k], keys@[j]]
                0 <= k < kept@.len() && 0 <= j < keys@.len() && j != kept@[k] ==> !refines(
                    keys@[j]@,
                    keys@[kept@[k] as int]@,
                ),
            forall|i: int| 0 <= i < order@.len() ==> kept@.contains(#[trigger] order@[i]),
            forall|i: int, j: int|
                0 <= i < j < order@.len() ==> keys_lt(
                    bundle_keys(reps@[#[trigger] order@[i] as int].bundle.probes@),
                    bundle_keys(reps@[#[trigger] order@[j] as int].bundle.probes@),
                ),
            id <= order@.len(),
            bundles@.len() == id,
            tests@.len() == id,
            forall|t: int|
                0 <= t < id ==> (#[trigger] tests@[t]).id == t && tests@[t].outcomes@ == reps@[order@[t] as int].outcomes@
                    && bundles@[t].probes@ == reps@[order@[t] as int].bundle.probes@,
        decreases order@.len() - id,
    {
        if id > 4294967295usize {
            return Err(ActionError::TestIdOverflow);
        }
        let k = order[id];
        proof {
            assert(kept@.contains(k));
        }
        let rep = &reps[k];
        let ghost tests0 = tests@;
        let ghost bundles0 = bundles@;
        bundles.push(copy_bundle(&rep.bundle));
        tests.push(CandidateTest { id: id as u32, outcomes: copy_outcomes(&rep.outcomes) });
        proof {
            assert forall|t: int| 0 <= t < id + 1 implies (#[trigger] tests@[t]).id == t && tests@[t].outcomes@
                == reps@[order@[t] as int].outcomes@ && bundles@[t].probes@ == reps@[order@[t] as int].bundle.probes@ by {
                if t < id {
                    assert(tests@[t] == tests0[t]);
                    assert(bundles@[t] == bundles0[t]);
                }
            }
        }
        id = id + 1;
    }
    let g = GeneratedActions { bundles, tests };
    proof {
        assert forall|i: int, j: int| 0 <= i < order@.len() && 0 <= j < order@.len() && i != j implies order@[i] != order@[j] by {
            if order@[i] == order@[j] {
                lemma_keys_irreflexive(bundle_keys(reps@[order@[i] as int].bundle.probes@));
                if i < j {
                    assert(keys_lt(
                        bundle_keys(reps@[order@[i] as int].bundle.probes@),
                        bundle_keys(reps@[order@[j] as int].bundle.probes@),
                    ));
                } else {
                    assert(keys_lt(
                        bundle_keys(reps@[order@[j] as int].bundle.probes@),
                        bundle_keys(reps@[order@[i] as int].bundle.probes@),
                    ));
                }
            }
        }
        assert forall|i: int| 0 <= i < g.bundles@.len() implies (#[trigger] g.bundles@[i]).probes@.len() > 0
            && probes_product(g.bundles@[i].probes@) <= capacity by {
            assert(g.tests@[i].id == i);
            let k = order@[i];
            assert(kept@.contains(k));
            assert(rep_ok(reps@[k as int], n, capacity as u128));
        }
        assert forall|i: int| 0 <= i < g.tests@.len() implies (#[trigger] g.tests@[i]).outcomes@.len() == n by {
            let k = order@[i];
            assert(kept@.contains(k));
            assert(rep_ok(reps@[k as int], n, capacity as u128));
        }
        assert forall|i: int, j: int|
            0 <= i < g.tests@.len() && 0 <= j < g.tests@.len() && i != j implies behavior_spec(
            (#[trigger] g.tests@[i]).outcomes@,
        ) != behavior_spec((#[trigger] g.tests@[j]).outcomes@) && !refines(
            behavior_spec(g.tests@[j].outcomes@),
            behavior_spec(g.tests@[i].outcomes@),
        ) by {
            let a = order@[i];
            let b = order@[j];
            assert(kept@.contains(a) && kept@.contains(b));
            let ka = choose|x: int| 0 <= x < kept@.len() && kept@[x] == a;
            assert(keys@[a as int]@ == behavior_spec(reps@[a as int].outcomes@));
            assert(keys@[b as int]@ == behavior_spec(reps@[b as int].outcomes@));
            assert(!refines(keys@[b as int]@, keys@[kept@[ka] as int]@));
        }
        assert forall|i: int, j: int| 0 <= i < j < g.bundles@.len() implies keys_lt(
            bundle_keys((#[trigger] g.bundles@[i]).probes@),
            bundle_keys((#[trigger] g.bundles@[j]).probes@),
        ) by {
            assert(g.tests@[i].id == i && g.tests@[j].id == j);
            assert(keys_lt(
                bundle_keys(reps@[order@[i] as int].bundle.probes@),
                bundle_keys(reps@[order@[j] as int].bundle.probes@),
            ));
        }
    }
    Ok(g)
}

// ---------------------------------------------------------------------------
// Outcome matrices
// ---------------------------------------------------------------------------

/// The atom of a symbol string under a bundle of degree-1 probes.
pub open spec fn symbols_atom(probes: Seq<ScalarProbe>, symbols: Seq<u32>, m: u32) -> nat {
    bundle_rank(prime_fields(probes), probes, symbols, m as nat, probes.len())
}

/// The row of one bundle: the atoms of both sides of every scenario, below
/// the capacity, and for a degree-1 bundle the atoms its probes give.
pub open spec fn row_ok(
    outcomes: Seq<PairOutcome>,
    b: Seq<ScalarProbe>,
    scenarios: Seq<ScenarioView>,
    m: u32,
    capacity: u32,
) -> bool {
    &&& outcomes.len() == scenarios.len()
    &&& forall|k: int|
        0 <= k < scenarios.len() ==> {
            let o = #[trigger] outcomes[k];
            &&& o.left < capacity
            &&& o.right < capacity
            &&& all_degree_one(b) ==> o.left == symbols_atom(b, scenarios[k].left, m) && o.right == symbols_atom(
                b,
                scenarios[k].right,
                m,
            )
        }
}

/// What an outcome matrix holds: one row per bundle, numbered in order.
pub open spec fn matrix_ok(
    tests: Seq<CandidateTest>,
    bundles: Seq<ProbeBundle>,
    scenarios: Seq<ScenarioView>,
    m: u32,
    capacity: u32,
) -> bool {
    &&& tests.len() == bundles.len()
    &&& forall|i: int| 0 <= i < tests.len() ==> (#[trigger] tests[i]).id == i as u32
    &&& forall|i: int|
        0 <= i < tests.len() ==> row_ok((#[trigger] tests[i]).outcomes@, bundles[i].probes@, scenarios, m, capacity)
}

/// Every bundle evaluates on both sides of every scenario within the
/// capacity.
pub open spec fn matrix_fits(bundles: Seq<ProbeBundle>, sv: Seq<ScenarioView>, m: u32, capacity: u32) -> bool {
    &&& m >= 2
    &&& forall|i: int, k: int|
        0 <= i < bundles.len() && 0 <= k < sv.len() ==> symbols_fit((#[trigger] bundles[i]).probes@, (#[trigger] sv[k]).left, m, capacity)
            && symbols_fit(bundles[i].probes@, sv[k].right, m, capacity)
}

/// The outcomes of every bundle on both sides of every scenario.
pub fn pair_outcome_matrix(prior: &PriorArtifact, bundles: &[ProbeBundle], capacity: u32) -> (r: Result<
    Vec<CandidateTest>,
    MatrixError,
>)
    ensures
        prior.symbol_space.cardinality < 2 ==> r == Err::<Vec<CandidateTest>, MatrixError>(
            MatrixError::SymbolCardinalityTooSmall,
        ),
        r matches Ok(tests) ==> matrix_ok(
            tests@,
            bundles@,
            prior@.scenarios,
            prior.symbol_space.cardinality,
            capacity,
        ),
        r matches Err(e) ==> e is SymbolCardinalityTooSmall || e is Bundle,
        matrix_fits(bundles@, prior@.scenarios, prior.symbol_space.cardinality, capacity) ==> r is Ok,
{
    let m = prior.symbol_space.cardinality;
    if m < 2 {
        return Err(MatrixError::SymbolCardinalityTooSmall);
    }
    let ghost sv = prior@.scenarios;
    let mut tests: Vec<CandidateTest> = Vec::new();
    let mut id: usize = 0;
    while id < bundles.len()
        invariant
            sv == prior@.scenarios,
            sv.len() == prior.scenarios@.len(),
            m == prior.symbol_space.cardinality,
            m >= 2,
            id <= bundles@.len(),
            tests@.len() == id,
            matrix_ok(tests@, bundles@.take(id as int), sv, m, capacity),
        decreases bundles@.len() - id,
    {
        let bundle = &bundles[id];
        let mut outcomes: Vec<PairOutcome> = Vec::new();
        let mut k: usize = 0;
        while k < prior.scenarios.len()
            invariant
                sv == prior@.scenarios,
                sv.len() == prior.scenarios@.len(),
                m == prior.symbol_space.cardinality,
                m >= 2,
                id < bundles@.len(),
                bundle == bundles@[id as int],
                k <= sv.len(),
                outcomes@.len() == k,
                row_ok(outcomes@, bundle.probes@, sv.take(k as int), m, capacity),
            decreases sv.len() - k,
        {
            let scenario = &prior.scenarios[k];
            proof {
                assert(sv[k as int] == scenario@);
                if matrix_fits(bundles@, sv, m, capacity) {
                    assert(symbols_fit(bundles@[id as int].probes@, sv[k as int].left, m, capacity));
                    assert(symbols_fit(bundles@[id as int].probes@, sv[k as int].right, m, capacity));
                }
            }
            let left = match bundle.evaluate_symbols(scenario.left.as_slice(), m, capacity) {
                Ok(a) => a.0,
                Err(e) => {
                    return Err(MatrixError::Bundle(e));
                },
            };
            let right = match bundle.evaluate_symbols(scenario.right.as_slice(), m, capacity) {
                Ok(a) => a.0,
                Err(e) => {
                    return Err(MatrixError::Bundle(e));
                },
            };
            let ghost prev = outcomes@;
            outcomes.push(PairOutcome { left, right });
            proof {
                assert(sv.take(k + 1).drop_last() =~= sv.take(k as int));
                assert forall|t: int| 0 <= t < k + 1 implies {
                    let o = #[trigger] outcomes@[t];
                    &&& o.left < capacity
                    &&& o.right < capacity
                    &&& all_degree_one(bundle.probes@) ==> o.left == symbols_atom(
                        bundle.probes@,
                        sv.take(k + 1)[t].left,
                        m,
                    ) && o.right == symbols_atom(bundle.probes@, sv.take(k + 1)[t].right, m)
                } by {
                    if t < k {
                        assert(outcomes@[t] == prev[t]);
                        assert(sv.take(k + 1)[t] == sv.take(k as int)[t]);
                    }
                }
            }
            k = k + 1;
        }
        let ghost before = tests@;
        let ghost ov = outcomes@;
        tests.push(CandidateTest { id: #[verifier::truncate] (id as u32), outcomes });
        proof {
            assert(bundles@.take(id + 1).drop_last() =~= bundles@.take(id as int));
            assert(sv.take(sv.len() as int) =~= sv);
            assert forall|i: int| 0 <= i < tests@.len() implies row_ok(
                (#[trigger] tests@[i]).outcomes@,
                bundles@.take(id + 1)[i].probes@,
                sv,
                m,
                capacity,
            ) by {
                if i < id {
                    assert(tests@[i] == before[i]);
                    assert(bundles@.take(id + 1)[i] == bundles@.take(id as int)[i]);
                } else {
                    assert(tests@[i].outcomes@ == ov);
                    assert(bundles@.take(id + 1)[i] == bundles@[id as int]);
                }
            }
        }
        id = id + 1;
    }
    proof {
        assert(bundles@.take(bundles@.len() as int) =~= bundles@);
    }
    Ok(tests)
}

/// Weight units of the scenarios, in order.
pub open spec fn units_of_scenarios(s: Seq<ScenarioView>) -> Seq<Seq<u8>> {
    s.map_values(|x: ScenarioView| x.units)
}

/// The outcome matrix with the scenario weights as fixed-point units of one
/// shared scale.
pub fn fixed_point_matrix(prior: &PriorArtifact, bundles: &[ProbeBundle], capacity: u32) -> (r: Result<
    (Vec<Vec<u8>>, Vec<CandidateTest>, u32),
    MatrixError,
>)
    ensures
        prior.symbol_space.cardinality < 2 ==> r == Err::<(Vec<Vec<u8>>, Vec<CandidateTest>, u32), MatrixError>(
            MatrixError::SymbolCardinalityTooSmall,
        ),
        r matches Ok((w, tests, scale)) ==> {
            let sv = prior@.scenarios;
            &&& matrix_ok(tests@, bundles@, sv, prior.symbol_space.cardinality, capacity)
            &&& w@.len() == sv.len()
            &&& forall|k: int| 0 <= k < sv.len() ==> (#[trigger] w@[k])@ == sv[k].units
            &&& forall|k: int| 0 <= k < sv.len() ==> (#[trigger] sv[k]).fractional_bits == scale
            &&& sv.len() == 0 ==> scale == 0
        },
        (r matches Err(e) && e is MixedFixedPointScales) ==> exists|k: int|
            0 <= k < prior@.scenarios.len() && (#[trigger] prior@.scenarios[k]).fractional_bits
                != prior@.scenarios[0].fractional_bits,
        matrix_fits(bundles@, prior@.scenarios, prior.symbol_space.cardinality, capacity) ==> (r is Ok <==> forall|k: int|
            0 <= k < prior@.scenarios.len() ==> (#[trigger] prior@.scenarios[k]).fractional_bits
                == prior@.scenarios[0].fractional_bits),
{
    let tests = match pair_outcome_matrix(prior, bundles, capacity) {
        Ok(t) => t,
        Err(e) => {
            return Err(e);
        },
    };
    let ghost sv = prior@.scenarios;
    let mut weights: Vec<Vec<u8>> = Vec::new();
    let mut scale: Option<u32> = None;
    let mut k: usize = 0;
    while k < prior.scenarios.len()
        invariant
            sv == prior@.scenarios,
            sv.len() == prior.scenarios@.len(),
            prior.symbol_space.cardinality >= 2,
            k <= sv.len(),
            weights@.len() == k,
            forall|t: int| 0 <= t < k ==> (#[trigger] weights@[t])@ == sv[t].units,
            k == 0 <==> scale is None,
            scale matches Some(s) ==> forall|t: int| 0 <= t < k ==> (#[trigger] sv[t]).fractional_bits == s,
            k > 0 ==> scale == Some(sv[0].fractional_bits),
        decreases sv.len() - k,
    {
        let scenario = &prior.scenarios[k];
        proof {
            assert(sv[k as int] == scenario@);
        }
        match &scenario.weight {
            WeightExpr::FixedPoint { units, fractional_bits } => {
                match scale {
                    Some(s) => {
                        if s != *fractional_bits {
                            return Err(MatrixError::MixedFixedPointScales);
                        }
                    },
                    None => {},
                }
                scale = Some(*fractional_bits);
                weights.push(crate::neighborhood::copy_bytes(units.as_slice()));
            },
        }
        k = k + 1;
    }
    let s = match scale {
        Some(s) => s,
        None => 0,
    };
    Ok((weights, tests, s))
}

} // verus!
