//! The static cook: from a finite prior to a runtime scheme whose stream is
//! the corpus-independent static polynomial fallback.
use crate::artifact::{ArtifactError, CookObjectiveDescriptor, CookStatus};
use crate::codec::{codec_cardinality, ContentCodecDescriptor};
use crate::actions::{actions_ok, fixed_point_matrix, generate_actions, matrix_ok};
use crate::address::AtomId;
use crate::bundle::ProbeBundle;
use crate::cook::{ActionError, CandidateTest, ExactCookError, GeneratedActions, MatrixError, RESOLVED};
use crate::ctm::{biguint_add, canonical_units_of};
use crate::fallback::FallbackDescriptor;
use crate::field::orders::{is_prime, spec_prime};
use crate::field::standardff::StandardFieldDescriptor;
use crate::prior::{PriorArtifact, ScenarioView, WeightExpr};
use crate::probe::ProbeError;
use crate::scheme::{validate_spec, DecisionNode, Scheme, SchemeError, SchemeView};
use crate::search::{links_ok, opt_cost, st_weight, start_state, test_rows, unit_values, ArenaEntry, ExactCooker};
use crate::scheme_bytes::{be_value, units_canonical, CookCertificateArtifact, SchemeArtifact};
use vstd::prelude::*;

verus! {

/// Why a cook failed.
#[derive(Clone, Debug, PartialEq, Eq)]
pub enum CookBuildError {
    Action(ActionError),
    Matrix(MatrixError),
    Exact(ExactCookError),
    Artifact(ArtifactError),
    Scheme(SchemeError),
    MixedWeightKinds,
    CodecSymbolMismatch { prior: u32, codec: u32 },
    InvalidTestId(u32),
    StaticCapacityTooSmall { required: u32, capacity: u32 },
}

/// The largest prime at most `n` (0 when there is none).
pub open spec fn largest_prime_le(n: nat) -> nat
    decreases n,
{
    if n < 2 {
        0
    } else if spec_prime(n as int) {
        n
    } else {
        largest_prime_le((n - 1) as nat)
    }
}

fn largest_prime_at_most(n: u32) -> (r: Option<u32>)
    ensures
        n < 2 ==> r is None,
        n >= 2 ==> r == Some(largest_prime_le(n as nat) as u32),
{
    let mut m = n;
    while m >= 2
        invariant
            m <= n,
            n >= 2 ==> largest_prime_le(n as nat) == largest_prime_le(m as nat),
            m < 2 ==> n < 2,
        decreases m,
    {
        if is_prime(m) {
            return Some(m);
        }
        m = m - 1;
        proof {
            if m < 2 {
                assert(spec_prime(2));
            }
        }
    }
    None
}

/// The four points the static stream opens with over a prime field of order
/// `q`: the points cooked for the canonical field of order 12347, else the
/// first four nonzero points, clamped to the field.
pub open spec fn static_points(q: u32) -> [u32; 4] {
    if q == 12347 {
        [6743u32, 2728u32, 6148u32, 1809u32]
    } else {
        let m = (q - 1) as u32;
        [
            if 1 < m { 1u32 } else { m },
            if 2 < m { 2u32 } else { m },
            if 3 < m { 3u32 } else { m },
            if 4 < m { 4u32 } else { m },
        ]
    }
}

fn optimized_points_for_final_field(field: StandardFieldDescriptor) -> (r: Result<[u32; 4], CookBuildError>)
    requires
        field.degree == 1,
        spec_prime(field.characteristic as int),
    ensures
        r == Ok::<[u32; 4], CookBuildError>(static_points(field.characteristic)),
{
    proof {
        vstd::arithmetic::power::lemma_pow1(field.characteristic as int);
    }
    let q = match field.order() {
        Ok(q) => q,
        Err(e) => {
            return Err(CookBuildError::Action(ActionError::Probe(ProbeError::StandardFf(e))));
        },
    };
    assert(q == field.characteristic);
    let q = q as u32;
    if q != 12347 {
        let m = q - 1;
        let p = [
            if 1 < m { 1u32 } else { m },
            if 2 < m { 2u32 } else { m },
            if 3 < m { 3u32 } else { m },
            if 4 < m { 4u32 } else { m },
        ];
        return Ok(p);
    }
    Ok([6743, 2728, 6148, 1809])
}

/// The static scheme over the prime field of order `q`.
pub open spec fn static_scheme(capacity: u32, codec: ContentCodecDescriptor, q: u32) -> SchemeView {
    SchemeView {
        capacity,
        codec,
        root: None,
        nodes: Seq::empty(),
        fallback: FallbackDescriptor::StaticPolynomialV2 {
            codec,
            field: StandardFieldDescriptor { characteristic: q, degree: 1 },
            optimized_points: static_points(q),
        },
    }
}

/// Total mass of the scenarios.
pub open spec fn prior_mass(s: Seq<ScenarioView>) -> nat
    decreases s.len(),
{
    if s.len() == 0 {
        0
    } else {
        prior_mass(s.drop_last()) + be_value(s.last().units)
    }
}

/// A weight of `mass` at 96 fractional bits, in canonical units.
pub open spec fn mass_weight(w: (Seq<u8>, u32), mass: nat) -> bool {
    be_value(w.0) == mass && units_canonical(w.0) && w.1 == 96
}

fn total_mass(prior: &PriorArtifact) -> (r: Vec<u8>)
    ensures
        be_value(r@) == prior_mass(prior@.scenarios),
        units_canonical(r@),
{
    let ghost sv = prior@.scenarios;
    let mut acc: Vec<u8> = Vec::new();
    let mut i: usize = 0;
    while i < prior.scenarios.len()
        invariant
            sv == prior@.scenarios,
            sv.len() == prior.scenarios@.len(),
            i <= sv.len(),
            be_value(acc@) == prior_mass(sv.take(i as int)),
        decreases sv.len() - i,
    {
        proof {
            assert(sv.take(i + 1).drop_last() =~= sv.take(i as int));
            assert(sv.take(i + 1).last() == sv[i as int]);
            assert(sv[i as int] == prior.scenarios@[i as int]@);
        }
        match &prior.scenarios[i].weight {
            WeightExpr::FixedPoint { units, .. } => {
                acc = biguint_add(acc.as_slice(), units.as_slice());
            },
        }
        i = i + 1;
    }
    proof {
        assert(sv.take(sv.len() as int) =~= sv);
    }
    canonical_units_of(acc.as_slice())
}

fn mass_at_96(units: &[u8]) -> (r: WeightExpr)
    ensures
        r == (WeightExpr::FixedPoint { units: r->units, fractional_bits: 96 }),
        r->units@ == units@,
{
    WeightExpr::FixedPoint { units: crate::neighborhood::copy_bytes(units), fractional_bits: 96 }
}

/// Build the canonical deterministic static Hasse stream. The prior selects
/// only the early points offline and never becomes runtime decision-tree
/// state: the scheme has no nodes, and the certificate records the prior's
/// total mass at 96 fractional bits.
pub fn cook_static(prior: &PriorArtifact, capacity: u32, codec: ContentCodecDescriptor) -> (r: Result<
    SchemeArtifact,
    CookBuildError,
>)
    ensures
        codec_cardinality(codec) != prior.symbol_space.cardinality ==> r == Err::<SchemeArtifact, CookBuildError>(
            CookBuildError::CodecSymbolMismatch {
                prior: prior.symbol_space.cardinality,
                codec: codec_cardinality(codec),
            },
        ),
        codec_cardinality(codec) == prior.symbol_space.cardinality && capacity < 2 ==> r == Err::<
            SchemeArtifact,
            CookBuildError,
        >(CookBuildError::StaticCapacityTooSmall { required: 2, capacity }),
        codec_cardinality(codec) == prior.symbol_space.cardinality && capacity >= 2 ==> ({
            let s = static_scheme(capacity, codec, largest_prime_le(capacity as nat) as u32);
            match validate_spec(s) {
                Err(e) => r == Err::<SchemeArtifact, CookBuildError>(CookBuildError::Scheme(e)),
                Ok(()) => (r matches Ok(a) && {
                    &&& a@.scheme == s
                    &&& a@.objective == CookObjectiveDescriptor::ExpectedDistinguishingAtoms
                    &&& a@.cook_status == CookStatus::ApproximateRelativeToPrior
                    &&& mass_weight(a@.certificate.total, prior_mass(prior@.scenarios))
                    &&& a@.certificate.objective == a@.certificate.total
                    &&& a@.certificate.lower == a@.certificate.total
                    &&& a@.certificate.explored == 0
                    &&& a@.certificate.memoized == 0
                    &&& a@.spec_revision == "teca-canonical-refactor-spec-v10"@
                    &&& a@.cooker_revision == "teca-static-polynomial-v2"@
                }),
            }
        }),
{
    let codec_cardinality = codec.symbol_cardinality();
    if codec_cardinality != prior.symbol_space.cardinality {
        return Err(
            CookBuildError::CodecSymbolMismatch { prior: prior.symbol_space.cardinality, codec: codec_cardinality },
        );
    }
    let characteristic = match largest_prime_at_most(capacity) {
        Some(p) => p,
        None => {
            return Err(CookBuildError::StaticCapacityTooSmall { required: 2, capacity });
        },
    };
    proof {
        lemma_largest_prime(capacity as nat);
    }
    let field = StandardFieldDescriptor { characteristic, degree: 1 };
    let optimized_points = match optimized_points_for_final_field(field) {
        Ok(p) => p,
        Err(e) => {
            return Err(e);
        },
    };
    let scheme = Scheme {
        capacity,
        codec,
        nodes: Vec::new(),
        root: None,
        fallback: FallbackDescriptor::StaticPolynomialV2 { codec, field, optimized_points },
    };
    proof {
        assert(scheme@.nodes =~= Seq::<crate::scheme::NodeView>::empty());
        assert(scheme@ == static_scheme(capacity, codec, characteristic));
        assert(crate::scheme::scheme_simple(scheme@));
    }
    match scheme.validate() {
        Ok(()) => {},
        Err(e) => {
            return Err(CookBuildError::Scheme(e));
        },
    }
    let total = total_mass(prior);
    let certificate = CookCertificateArtifact {
        total_weight: mass_at_96(total.as_slice()),
        objective_cost: mass_at_96(total.as_slice()),
        root_lower_bound: mass_at_96(total.as_slice()),
        explored_states: 0,
        memoized_states: 0,
    };
    Ok(
        SchemeArtifact {
            scheme,
            objective: CookObjectiveDescriptor::ExpectedDistinguishingAtoms,
            cook_status: CookStatus::ApproximateRelativeToPrior,
            certificate,
            spec_revision: "teca-canonical-refactor-spec-v10".to_owned(),
            cooker_revision: "teca-static-polynomial-v2".to_owned(),
        },
    )
}

proof fn lemma_largest_prime(n: nat)
    requires
        n >= 2,
    ensures
        spec_prime(largest_prime_le(n) as int),
        2 <= largest_prime_le(n) <= n,
    decreases n,
{
    if !spec_prime(n as int) {
        if n == 2 {
            assert(spec_prime(2));
        } else {
            lemma_largest_prime((n - 1) as nat);
        }
    }
}

/// Number of nodes the tree of solved state `i` lays out.
pub(crate) open spec fn tree_size(a: Seq<ArenaEntry>, i: int) -> nat
    decreases i, 1nat, 0nat,
{
    if 0 <= i < a.len() {
        1 + kids_size(a, i, a[i].kids@.len() as int)
    } else {
        1
    }
}

/// Number of nodes the first `n` subtrees of solved state `i` lay out.
pub(crate) open spec fn kids_size(a: Seq<ArenaEntry>, i: int, n: int) -> nat
    decreases i, 0nat, n,
{
    if n <= 0 || !(0 <= i < a.len()) || n > a[i].kids@.len() {
        0
    } else {
        let c = a[i].kids@[n - 1].1 as int;
        kids_size(a, i, n - 1) + if 0 <= c < i {
            tree_size(a, c)
        } else {
            0
        }
    }
}

/// Every solved state asks a test that has a bundle.
pub(crate) open spec fn ids_ok(a: Seq<ArenaEntry>, bundles: nat) -> bool {
    forall|i: int| 0 <= i < a.len() ==> (#[trigger] a[i]).test_id < bundles
}

/// Lays out the solved state at `idx` and its subtrees as decision nodes in
/// preorder, each branch in ascending outcome order; returns the node's id.
fn materialize_node(
    arena: &Vec<ArenaEntry>,
    idx: usize,
    bundles: &Vec<ProbeBundle>,
    nodes: &mut Vec<DecisionNode>,
) -> (r: Result<u32, CookBuildError>)
    requires
        links_ok(arena@),
        idx < arena@.len(),
    ensures
        final(nodes)@.len() >= old(nodes)@.len(),
        r matches Ok(id) ==> old(nodes)@.len() == id && final(nodes)@.len() == old(nodes)@.len() + tree_size(
            arena@,
            idx as int,
        ),
        r matches Err(e) ==> e is InvalidTestId,
        ids_ok(arena@, bundles@.len()) && old(nodes)@.len() + tree_size(arena@, idx as int) <= 4294967295 ==> r is Ok,
    decreases idx,
{
    let tid = arena[idx].test_id;
    if tid as usize >= bundles.len() {
        return Err(CookBuildError::InvalidTestId(tid));
    }
    if nodes.len() >= 4294967295 {
        return Err(CookBuildError::InvalidTestId(tid));
    }
    let id = nodes.len();
    nodes.push(DecisionNode { action: bundles[tid as usize].clone(), branches: Vec::new(), default_child: None });
    let mut branches: Vec<(AtomId, u32)> = Vec::new();
    let mut j: usize = 0;
    while j < arena[idx].kids.len()
        invariant
            links_ok(arena@),
            idx < arena@.len(),
            j <= arena@[idx as int].kids@.len(),
            id < nodes@.len(),
            id == old(nodes)@.len(),
            nodes@.len() == id + 1 + kids_size(arena@, idx as int, j as int),
            ids_ok(arena@, bundles@.len()) && old(nodes)@.len() + tree_size(arena@, idx as int) <= 4294967295 ==> nodes@.len()
                + (kids_size(arena@, idx as int, arena@[idx as int].kids@.len() as int) - kids_size(arena@, idx as int, j as int))
                <= 4294967295,
        decreases arena@[idx as int].kids@.len() - j,
    {
        let (atom, c) = arena[idx].kids[j];
        assert(arena@[idx as int].kids@[j as int].1 < idx);
        proof {
            lemma_kids_size_grows(arena@, idx as int, j as int + 1, arena@[idx as int].kids@.len() as int);
        }
        let child_id = match materialize_node(arena, c, bundles, nodes) {
            Ok(x) => x,
            Err(e) => {
                return Err(e);
            },
        };
        branches.push((AtomId(atom), child_id));
        j = j + 1;
    }
    nodes.set(id, DecisionNode { action: bundles[tid as usize].clone(), branches, default_child: None });
    Ok(id as u32)
}

proof fn lemma_kids_size_grows(a: Seq<ArenaEntry>, i: int, m: int, n: int)
    requires
        0 <= m <= n,
        0 <= i < a.len(),
        n <= a[i].kids@.len(),
    ensures
        kids_size(a, i, m) <= kids_size(a, i, n),
    decreases n - m,
{
    if m < n {
        lemma_kids_size_grows(a, i, m, n - 1);
    }
}

/// Sum of the first `n` weights.
pub open spec fn total_of(w: Seq<nat>, n: nat) -> nat
    decreases n,
{
    if n == 0 {
        0
    } else {
        total_of(w, (n - 1) as nat) + w[n - 1]
    }
}

proof fn lemma_start_weight(w: Seq<nat>, n: nat)
    requires
        n <= w.len(),
        n <= usize::MAX,
    ensures
        st_weight(w, start_state(w, n)) == total_of(w, n),
    decreases n,
{
    if n > 0 {
        lemma_start_weight(w, (n - 1) as nat);
        let s = start_state(w, (n - 1) as nat);
        if w[n - 1] > 0 {
            assert(s.push((n - 1) as usize).drop_last() =~= s);
        }
    }
}

proof fn lemma_mass_total(sv: Seq<ScenarioView>, w: Seq<nat>, n: nat)
    requires
        n <= sv.len(),
        w.len() == sv.len(),
        forall|k: int| 0 <= k < sv.len() ==> #[trigger] w[k] == be_value(sv[k].units),
    ensures
        prior_mass(sv.take(n as int)) == total_of(w, n),
    decreases n,
{
    if n > 0 {
        lemma_mass_total(sv, w, (n - 1) as nat);
        assert(sv.take(n as int).drop_last() =~= sv.take(n - 1));
    }
}

/// The scenario weights of a prior: the numbers its units spell.
pub open spec fn prior_weights(sv: Seq<ScenarioView>) -> Seq<nat> {
    sv.map_values(|x: ScenarioView| be_value(x.units))
}

/// `cost` is the optimum of the adaptive objective over the candidate matrix
/// of `bundles`: the least expected cost of a tree of those tests that
/// separates every scenario of nonzero weight.
pub open spec fn optimal_over(
    bundles: Seq<ProbeBundle>,
    sv: Seq<ScenarioView>,
    m: u32,
    capacity: u32,
    cost: nat,
) -> bool {
    exists|tests: Seq<CandidateTest>|
        #[trigger] matrix_ok(tests, bundles, sv, m, capacity) && opt_cost(
            prior_weights(sv),
            test_rows(tests),
            start_state(prior_weights(sv), sv.len()),
        ) == Some(cost)
}

/// The zero weight of an empty prior.
pub open spec fn zero_weight(w: (Seq<u8>, u32)) -> bool {
    w.0.len() == 0 && w.1 == 0
}

/// Cook a finite prior exactly: generate the candidate actions, solve the
/// adaptive objective over their outcome matrix, and lay the optimal tree
/// out as the scheme's decision nodes over the direct radix fallback.
pub fn cook_prior(prior: &PriorArtifact, capacity: u32, codec: ContentCodecDescriptor) -> (r: Result<
    SchemeArtifact,
    CookBuildError,
>)
    requires
        prior.scenarios@.len() < RESOLVED,
    ensures
        codec_cardinality(codec) != prior.symbol_space.cardinality ==> r == Err::<SchemeArtifact, CookBuildError>(
            CookBuildError::CodecSymbolMismatch {
                prior: prior.symbol_space.cardinality,
                codec: codec_cardinality(codec),
            },
        ),
        codec_cardinality(codec) == prior.symbol_space.cardinality && capacity < 2 ==> r == Err::<
            SchemeArtifact,
            CookBuildError,
        >(
            if prior.scenarios@.len() == 0 {
                CookBuildError::Scheme(SchemeError::CapacityTooSmall(capacity))
            } else {
                CookBuildError::Action(ActionError::CapacityTooSmall(capacity))
            },
        ),
        codec_cardinality(codec) == prior.symbol_space.cardinality && capacity >= 2 && prior.scenarios@.len() == 0
            ==> (r matches Ok(a) && {
            &&& a@.scheme.capacity == capacity
            &&& a@.scheme.codec == codec
            &&& a@.scheme.root is None
            &&& a@.scheme.nodes.len() == 0
            &&& a@.scheme.fallback == FallbackDescriptor::DirectRadixV1
            &&& zero_weight(a@.certificate.total)
            &&& zero_weight(a@.certificate.objective)
            &&& zero_weight(a@.certificate.lower)
            &&& a@.certificate.explored == 0
            &&& a@.certificate.memoized == 0
        }),
        r matches Ok(a) ==> (prior.scenarios@.len() > 0 ==> exists|g: GeneratedActions|
            #[trigger] actions_ok(g, prior.scenarios@.len(), capacity) && optimal_over(
                g.bundles@,
                prior@.scenarios,
                prior.symbol_space.cardinality,
                capacity,
                be_value(a@.certificate.objective.0),
            )),
        r matches Ok(a) ==> {
            &&& validate_spec(a@.scheme) is Ok
            &&& a@.scheme.capacity == capacity
            &&& a@.scheme.codec == codec
            &&& a@.scheme.fallback == FallbackDescriptor::DirectRadixV1
            &&& a@.objective == CookObjectiveDescriptor::ExpectedDistinguishingAtoms
            &&& a@.cook_status == CookStatus::ExactRelativeToPrior
            &&& units_canonical(a@.certificate.total.0)
            &&& units_canonical(a@.certificate.objective.0)
            &&& units_canonical(a@.certificate.lower.0)
            &&& be_value(a@.certificate.total.0) <= be_value(a@.certificate.lower.0)
            &&& be_value(a@.certificate.lower.0) <= be_value(a@.certificate.objective.0)
            &&& a@.certificate.objective.1 == a@.certificate.total.1
            &&& a@.certificate.lower.1 == a@.certificate.total.1
            &&& forall|k: int|
                0 <= k < prior@.scenarios.len() ==> (#[trigger] prior@.scenarios[k]).fractional_bits
                    == a@.certificate.total.1
            &&& a@.certificate.explored == a@.certificate.memoized
            &&& be_value(a@.certificate.total.0) == prior_mass(prior@.scenarios)
            &&& a@.spec_revision == "teca-canonical-refactor-spec-v10"@
            &&& a@.cooker_revision == "teca-cooker-exact-v1"@
        },
{
    let codec_cardinality = codec.symbol_cardinality();
    if codec_cardinality != prior.symbol_space.cardinality {
        return Err(
            CookBuildError::CodecSymbolMismatch { prior: prior.symbol_space.cardinality, codec: codec_cardinality },
        );
    }
    if prior.scenarios.len() == 0 {
        let scheme = match Scheme::fallback_only(capacity, codec) {
            Ok(s) => s,
            Err(e) => {
                return Err(CookBuildError::Scheme(e));
            },
        };
        return Ok(
            SchemeArtifact {
                scheme,
                objective: CookObjectiveDescriptor::ExpectedDistinguishingAtoms,
                cook_status: CookStatus::ExactRelativeToPrior,
                certificate: CookCertificateArtifact {
                    total_weight: WeightExpr::FixedPoint { units: Vec::new(), fractional_bits: 0 },
                    objective_cost: WeightExpr::FixedPoint { units: Vec::new(), fractional_bits: 0 },
                    root_lower_bound: WeightExpr::FixedPoint { units: Vec::new(), fractional_bits: 0 },
                    explored_states: 0,
                    memoized_states: 0,
                },
                spec_revision: "teca-canonical-refactor-spec-v10".to_owned(),
                cooker_revision: "teca-cooker-exact-v1".to_owned(),
            },
        );
    }
    let generated = match generate_actions(prior, capacity) {
        Ok(g) => g,
        Err(e) => {
            return Err(CookBuildError::Action(e));
        },
    };
    if generated.tests.len() == 0 {
        return Err(CookBuildError::Exact(ExactCookError::UnseparableState));
    }
    cook_fixed(prior, capacity, codec, generated)
}

fn cook_fixed(prior: &PriorArtifact, capacity: u32, codec: ContentCodecDescriptor, generated: GeneratedActions) -> (r: Result<
    SchemeArtifact,
    CookBuildError,
>)
    ensures
        r matches Ok(a) ==> optimal_over(
            generated.bundles@,
            prior@.scenarios,
            prior.symbol_space.cardinality,
            capacity,
            be_value(a@.certificate.objective.0),
        ),
        r matches Ok(a) ==> {
            &&& validate_spec(a@.scheme) is Ok
            &&& a@.scheme.capacity == capacity
            &&& a@.scheme.codec == codec
            &&& a@.scheme.fallback == FallbackDescriptor::DirectRadixV1
            &&& a@.objective == CookObjectiveDescriptor::ExpectedDistinguishingAtoms
            &&& a@.cook_status == CookStatus::ExactRelativeToPrior
            &&& units_canonical(a@.certificate.total.0)
            &&& units_canonical(a@.certificate.objective.0)
            &&& units_canonical(a@.certificate.lower.0)
            &&& be_value(a@.certificate.total.0) <= be_value(a@.certificate.lower.0)
            &&& be_value(a@.certificate.lower.0) <= be_value(a@.certificate.objective.0)
            &&& a@.certificate.objective.1 == a@.certificate.total.1
            &&& a@.certificate.lower.1 == a@.certificate.total.1
            &&& forall|k: int|
                0 <= k < prior@.scenarios.len() ==> (#[trigger] prior@.scenarios[k]).fractional_bits
                    == a@.certificate.total.1
            &&& a@.certificate.explored == a@.certificate.memoized
            &&& be_value(a@.certificate.total.0) == prior_mass(prior@.scenarios)
            &&& a@.spec_revision == "teca-canonical-refactor-spec-v10"@
            &&& a@.cooker_revision == "teca-cooker-exact-v1"@
        },
{
    let (weights, tests, fractional_bits) = match fixed_point_matrix(prior, generated.bundles.as_slice(), capacity) {
        Ok(x) => x,
        Err(e) => {
            return Err(CookBuildError::Matrix(e));
        },
    };
    let ghost weights_view = weights@;
    let ghost tests_view = tests@;
    let scenario_count = weights.len();
    assert(weights_view.len() == scenario_count);
    let cooker = match ExactCooker::new(weights, tests) {
        Ok(c) => c,
        Err(e) => {
            return Err(CookBuildError::Exact(e));
        },
    };
    let (solved, arena, root_idx) = match cooker.solve_flat() {
        Ok(x) => x,
        Err(e) => {
            return Err(CookBuildError::Exact(e));
        },
    };
    let mut nodes: Vec<DecisionNode> = Vec::new();
    let root = if solved.root.is_some() {
        match materialize_node(&arena, root_idx, &generated.bundles, &mut nodes) {
            Ok(id) => Some(id),
            Err(e) => {
                return Err(e);
            },
        }
    } else {
        None
    };
    let scheme = Scheme { capacity, codec, root, nodes, fallback: FallbackDescriptor::DirectRadixV1 };
    match scheme.validate() {
        Ok(()) => {},
        Err(e) => {
            return Err(CookBuildError::Scheme(e));
        },
    }
    proof {
        let sv = prior@.scenarios;
        let w = unit_values(weights_view);
        lemma_start_weight(w, w.len());
        assert forall|k: int| 0 <= k < sv.len() implies #[trigger] w[k] == be_value(sv[k].units) by {
            assert(weights_view[k]@ == sv[k].units);
        }
        lemma_mass_total(sv, w, sv.len());
        assert(sv.take(sv.len() as int) =~= sv);
        assert(w =~= prior_weights(sv));
        assert(matrix_ok(tests_view, generated.bundles@, sv, prior.symbol_space.cardinality, capacity));
    }
    let cert = solved.certificate;
    Ok(
        SchemeArtifact {
            scheme,
            objective: CookObjectiveDescriptor::ExpectedDistinguishingAtoms,
            cook_status: CookStatus::ExactRelativeToPrior,
            certificate: CookCertificateArtifact {
                total_weight: WeightExpr::FixedPoint { units: cert.total_weight, fractional_bits },
                objective_cost: WeightExpr::FixedPoint { units: solved.cost, fractional_bits },
                root_lower_bound: WeightExpr::FixedPoint { units: cert.root_lower_bound, fractional_bits },
                explored_states: cert.explored_states,
                memoized_states: cert.memoized_states,
            },
            spec_revision: "teca-canonical-refactor-spec-v10".to_owned(),
            cooker_revision: "teca-cooker-exact-v1".to_owned(),
        },
    )
}

} // verus!
