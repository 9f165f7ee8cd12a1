//! Offline cooking primitives: candidate tests over a finite pair prior and
//! the behavioral signatures by which candidate actions are deduplicated.
//!
//! An action's behavior is what the adaptive objective can see of it: which
//! scenarios it separates, and the partition of the scenarios that stay
//! collided. Raw output labels inducing the same partition are irrelevant.
use crate::bundle::{BundleError, ProbeBundle};
use crate::probe::{FieldDescriptor, ProbeError, ScalarProbe};
use vstd::prelude::*;

pub use crate::cook_build::{cook_prior, cook_static, CookBuildError};
pub use crate::search::{AbstractCookNode, ExactCertificate, ExactCooker, ExactSolution};

verus! {

/// The outcomes of one action on the two sides of one prior scenario.
#[derive(Clone, Copy, Debug, PartialEq, Eq, Structural, Hash, PartialOrd, Ord)]
pub struct PairOutcome {
    pub left: u32,
    pub right: u32,
}

/// A candidate test: one pair outcome per scenario, in scenario order.
#[derive(Clone, Debug, PartialEq, Eq)]
pub struct CandidateTest {
    pub id: u32,
    pub outcomes: Vec<PairOutcome>,
}

#[derive(Clone, Debug, PartialEq, Eq)]
pub enum ActionError {
    CapacityTooSmall(u32),
    SymbolCardinalityTooSmall(u32),
    Probe(ProbeError),
    Bundle(BundleError),
    DegreeOverflow,
    TestIdOverflow,
}

#[derive(Clone, Debug, PartialEq, Eq)]
pub struct GeneratedActions {
    pub bundles: Vec<ProbeBundle>,
    pub tests: Vec<CandidateTest>,
}

#[derive(Clone, Debug, PartialEq, Eq)]
pub enum ExactCookError {
    EmptyTests,
    LengthMismatch,
    UnseparableState,
}

#[derive(Clone, Debug, PartialEq, Eq)]
pub enum MatrixError {
    SymbolCardinalityTooSmall,
    Bundle(BundleError),
    MixedFixedPointScales,
}

/// Marker of a separated scenario in a behavioral signature.
pub const RESOLVED: u32 = 4294967295;

/// Whether the action leaves the scenario's two sides collided.
pub open spec fn collided(o: PairOutcome) -> bool {
    o.left == o.right
}

/// The distinct labels of the collided outcomes among the first `n`, in
/// order of first use.
pub open spec fn labels_seen(outs: Seq<PairOutcome>, n: nat) -> Seq<u32>
    decreases n,
{
    if n == 0 {
        Seq::empty()
    } else {
        let s = labels_seen(outs, (n - 1) as nat);
        let o = outs[n - 1];
        if collided(o) && !s.contains(o.left) {
            s.push(o.left)
        } else {
            s
        }
    }
}

/// Position of `v` in `s` (its length when absent).
pub open spec fn position_of(s: Seq<u32>, v: u32) -> nat
    decreases s.len(),
{
    if s.len() == 0 {
        0
    } else if s.last() == v && !s.drop_last().contains(v) {
        (s.len() - 1) as nat
    } else {
        position_of(s.drop_last(), v)
    }
}

/// Behavioral signature: `RESOLVED` for a separated scenario, else the index
/// of the collided block in order of first use.
pub open spec fn behavior_spec(outs: Seq<PairOutcome>) -> Seq<u32> {
    Seq::new(
        outs.len(),
        |i: int|
            if !collided(outs[i]) {
                RESOLVED
            } else {
                position_of(labels_seen(outs, (i + 1) as nat), outs[i].left) as u32
            },
    )
}

/// Behavior `a` is at least as informative as `b`: every scenario `b`
/// separates `a` separates too, and scenarios in one block of `a` are in one
/// block of `b`.
pub open spec fn refines(a: Seq<u32>, b: Seq<u32>) -> bool {
    &&& a.len() == b.len()
    &&& forall|i: int| 0 <= i < a.len() && b[i] == RESOLVED ==> a[i] == RESOLVED
    &&& forall|i: int, j: int|
        0 <= i < a.len() && 0 <= j < a.len() && a[i] != RESOLVED && b[i] != RESOLVED && a[j] != RESOLVED && b[j]
            != RESOLVED && a[i] == a[j] ==> b[i] == b[j]
}

proof fn lemma_position_in(s: Seq<u32>, v: u32)
    requires
        s.contains(v),
    ensures
        position_of(s, v) < s.len(),
        s[position_of(s, v) as int] == v,
    decreases s.len(),
{
    if !(s.last() == v && !s.drop_last().contains(v)) {
        if s.last() == v {
        } else {
            let k = choose|k: int| 0 <= k < s.len() && s[k] == v;
            assert(s.drop_last()[k] == v);
        }
        lemma_position_in(s.drop_last(), v);
    }
}

proof fn lemma_labels_seen_prefix(outs: Seq<PairOutcome>, n: nat, m: nat)
    requires
        m <= n <= outs.len(),
    ensures
        labels_seen(outs, n).len() >= labels_seen(outs, m).len(),
        labels_seen(outs, m) == labels_seen(outs, n).take(labels_seen(outs, m).len() as int),
    decreases n - m,
{
    if m < n {
        lemma_labels_seen_prefix(outs, (n - 1) as nat, m);
        assert(labels_seen(outs, n).take(labels_seen(outs, (n - 1) as nat).len() as int) =~= labels_seen(outs, (n - 1) as nat));
    } else {
        assert(labels_seen(outs, n).take(labels_seen(outs, n).len() as int) =~= labels_seen(outs, n));
    }
}

/// Index of `v` in the exec label list.
fn find_label(seen: &Vec<u32>, v: u32) -> (r: Option<usize>)
    ensures
        r matches Some(k) ==> k < seen@.len() && seen@[k as int] == v && k == position_of(seen@, v),
        r is None ==> !seen@.contains(v),
{
    let mut k: usize = 0;
    while k < seen.len()
        invariant
            k <= seen@.len(),
            forall|t: int| 0 <= t < k ==> seen@[t] != v,
        decreases seen@.len() - k,
    {
        if seen[k] == v {
            proof {
                lemma_position_in(seen@, v);
                let p = position_of(seen@, v);
                lemma_position_first(seen@, v, k as int);
            }
            return Some(k);
        }
        k = k + 1;
    }
    None
}

/// The position of a value is its first occurrence.
proof fn lemma_position_first(s: Seq<u32>, v: u32, k: int)
    requires
        0 <= k < s.len(),
        s[k] == v,
        forall|t: int| 0 <= t < k ==> s[t] != v,
    ensures
        position_of(s, v) == k,
    decreases s.len(),
{
    if k == s.len() - 1 {
        assert forall|t: int| 0 <= t < s.drop_last().len() implies s.drop_last()[t] != v by {}
    } else {
        assert(s.drop_last()[k] == v);
        assert(s.drop_last().contains(v));
        lemma_position_first(s.drop_last(), v, k);
    }
}

/// Canonical behavioral signature of an action's outcomes.
pub fn behavior_key(outcomes: &[PairOutcome]) -> (r: Vec<u32>)
    requires
        outcomes@.len() < RESOLVED,
    ensures
        r@ == behavior_spec(outcomes@),
{
    let ghost outs = outcomes@;
    let mut seen: Vec<u32> = Vec::new();
    let mut out: Vec<u32> = Vec::new();
    let mut i: usize = 0;
    while i < outcomes.len()
        invariant
            outs == outcomes@,
            outs.len() < RESOLVED,
            i <= outs.len(),
            seen@ == labels_seen(outs, i as nat),
            seen@.len() <= i,
            out@ == behavior_spec(outs).take(i as int),
        decreases outs.len() - i,
    {
        let o = outcomes[i];
        let ghost prev = seen@;
        if o.left != o.right {
            out.push(RESOLVED);
        } else {
            match find_label(&seen, o.left) {
                Some(k) => {
                    proof {
                        assert(seen@.contains(o.left));
                    }
                    out.push(k as u32);
                },
                None => {
                    let k = seen.len();
                    seen.push(o.left);
                    proof {
                        assert(seen@.drop_last() =~= prev);
                        lemma_position_first(seen@, o.left, k as int);
                    }
                    out.push(k as u32);
                },
            }
        }
        proof {
            assert(seen@ == labels_seen(outs, (i + 1) as nat));
            assert(out@ =~= behavior_spec(outs).take(i + 1));
        }
        i = i + 1;
    }
    proof {
        assert(behavior_spec(outs).take(outs.len() as int) =~= behavior_spec(outs));
    }
    out
}

/// Whether scenario `i`, in a block of both `a` and `b`, agrees with every
/// earlier such scenario in `a`'s block on `b`'s block.
fn agrees_with_earlier(a: &[u32], b: &[u32], i: usize) -> (r: bool)
    requires
        a@.len() == b@.len(),
        i < a@.len(),
        a@[i as int] != RESOLVED,
        b@[i as int] != RESOLVED,
    ensures
        r == forall|t: int|
            0 <= t < i && a@[t] != RESOLVED && b@[t] != RESOLVED && a@[t] == a@[i as int] ==> b@[t] == b@[i as int],
{
    let mut t: usize = 0;
    while t < i
        invariant
            a@.len() == b@.len(),
            t <= i < a@.len(),
            forall|u: int|
                0 <= u < t && a@[u] != RESOLVED && b@[u] != RESOLVED && a@[u] == a@[i as int] ==> b@[u] == b@[i as int],
        decreases i - t,
    {
        if a[t] != RESOLVED && b[t] != RESOLVED && a[t] == a[i] && b[t] != b[i] {
            return false;
        }
        t = t + 1;
    }
    true
}

/// Whether behavior `a` refines behavior `b`.
pub fn behavior_refines(a: &[u32], b: &[u32]) -> (r: bool)
    ensures
        r == refines(a@, b@),
{
    if a.len() != b.len() {
        return false;
    }
    let mut i: usize = 0;
    while i < a.len()
        invariant
            a@.len() == b@.len(),
            i <= a@.len(),
            forall|t: int| 0 <= t < i && b@[t] == RESOLVED ==> a@[t] == RESOLVED,
            forall|t: int, u: int|
                0 <= t < i && 0 <= u < i && a@[t] != RESOLVED && b@[t] != RESOLVED && a@[u] != RESOLVED && b@[u]
                    != RESOLVED && a@[t] == a@[u] ==> b@[t] == b@[u],
        decreases a@.len() - i,
    {
        let x = a[i];
        let y = b[i];
        if y == RESOLVED {
            if x != RESOLVED {
                return false;
            }
        } else if x != RESOLVED {
            if !agrees_with_earlier(a, b, i) {
                return false;
            }
        }
        i = i + 1;
    }
    true
}

/// Ordering key of a scalar probe.
pub fn scalar_key(probe: &ScalarProbe) -> (r: (u32, u32, u128, u32))
    ensures
        r == (probe.field->Standard_0.characteristic, probe.field->Standard_0.degree, probe.point_rank, probe.hasse_order),
{
    match probe.field {
        FieldDescriptor::Standard(desc) => (desc.characteristic, desc.degree, probe.point_rank, probe.hasse_order),
    }
}

/// Ordering key of a bundle: the keys of its probes in order.
pub fn bundle_key(bundle: &ProbeBundle) -> (r: Vec<(u32, u32, u128, u32)>)
    ensures
        r@.len() == bundle.probes@.len(),
        forall|i: int|
            0 <= i < r@.len() ==> (#[trigger] r@[i]) == (
                bundle.probes@[i].field->Standard_0.characteristic,
                bundle.probes@[i].field->Standard_0.degree,
                bundle.probes@[i].point_rank,
                bundle.probes@[i].hasse_order,
            ),
{
    let mut out: Vec<(u32, u32, u128, u32)> = Vec::new();
    let mut i: usize = 0;
    while i < bundle.probes.len()
        invariant
            i <= bundle.probes@.len(),
            out@.len() == i,
            forall|k: int|
                0 <= k < i ==> (#[trigger] out@[k]) == (
                    bundle.probes@[k].field->Standard_0.characteristic,
                    bundle.probes@[k].field->Standard_0.degree,
                    bundle.probes@[k].point_rank,
                    bundle.probes@[k].hasse_order,
                ),
        decreases bundle.probes@.len() - i,
    {
        out.push(scalar_key(&bundle.probes[i]));
        i = i + 1;
    }
    out
}

} // verus!
