//! Validation and the byte-stable format of priors.
use crate::artifact::{
    all_strings_fit, be32, enc_bytes, enc_provenance, enc_string, fits, prov_strings, put_bytes, put_provenance,
    put_string, put_u32, put_u8, ArtifactError,
};
use crate::prior::ProvenanceRecord;
use crate::artifact::{
    check_magic, is_at, lemma_be32_injective, lemma_is_at_join, lemma_is_at_split, read_bytes, read_provenance, read_string,
    read_u8,
};
use crate::prior::{opt_chars, ProvenanceView, SymbolSpace};
use crate::snapshot::{
    enc_seq, lemma_enc_seq_at, lemma_enc_seq_extend, lemma_is_at_first, lemma_is_at_one, take_u32,
};
use crate::neighborhood::{lex_less, lex_lt};
use crate::prior::{
    MetadataView, PriorArtifact, PriorMetadata, PriorTransform, PriorView, Scenario, ScenarioView, TransformView,
    WeightExpr,
};
use vstd::prelude::*;
use vstd::utf8::encode_utf8;

verus! {

// ---------------------------------------------------------------------------
// Orders
// ---------------------------------------------------------------------------

/// Strict lexicographic order on symbol strings, a proper prefix first.
pub open spec fn symbols_lt(a: Seq<u32>, b: Seq<u32>) -> bool
    decreases a.len(),
{
    if a.len() == 0 {
        b.len() > 0
    } else if b.len() == 0 {
        false
    } else if a[0] != b[0] {
        a[0] < b[0]
    } else {
        symbols_lt(a.drop_first(), b.drop_first())
    }
}

pub proof fn lemma_symbols_irreflexive(a: Seq<u32>)
    ensures
        !symbols_lt(a, a),
    decreases a.len(),
{
    if a.len() > 0 {
        lemma_symbols_irreflexive(a.drop_first());
    }
}

pub proof fn lemma_symbols_transitive(a: Seq<u32>, b: Seq<u32>, c: Seq<u32>)
    requires
        symbols_lt(a, b),
        symbols_lt(b, c),
    ensures
        symbols_lt(a, c),
    decreases a.len(),
{
    if a.len() > 0 && b.len() > 0 && c.len() > 0 && a[0] == b[0] && b[0] == c[0] {
        lemma_symbols_transitive(a.drop_first(), b.drop_first(), c.drop_first());
    }
}

pub proof fn lemma_symbols_total(a: Seq<u32>, b: Seq<u32>)
    requires
        a != b,
    ensures
        symbols_lt(a, b) || symbols_lt(b, a),
    decreases a.len(),
{
    if a.len() > 0 && b.len() > 0 && a[0] == b[0] {
        if a.drop_first() == b.drop_first() {
            assert(a =~= seq![a[0]] + a.drop_first());
            assert(b =~= seq![b[0]] + b.drop_first());
        }
        lemma_symbols_total(a.drop_first(), b.drop_first());
    } else if a.len() == 0 && b.len() == 0 {
        assert(a =~= b);
    }
}

/// Canonical pair order: by the left string, then by the right one.
pub open spec fn pair_lt(a: ScenarioView, b: ScenarioView) -> bool {
    symbols_lt(a.left, b.left) || (a.left == b.left && symbols_lt(a.right, b.right))
}

pub open spec fn transform_rank(t: TransformView) -> int {
    match t {
        TransformView::PairOrderCanonicalized => 0,
        TransformView::GlobalBinaryComplementAggregated => 1,
        TransformView::Named(_) => 2,
    }
}

/// Order of transformations: by kind, named ones by the bytes of their
/// names.
pub open spec fn transform_lt(a: TransformView, b: TransformView) -> bool {
    match (a, b) {
        (TransformView::Named(x), TransformView::Named(y)) => lex_lt(encode_utf8(x), encode_utf8(y)),
        _ => transform_rank(a) < transform_rank(b),
    }
}

proof fn lemma_symbols_skip(a: Seq<u32>, b: Seq<u32>, i: int)
    requires
        0 <= i < a.len(),
        i < b.len(),
        a[i] == b[i],
    ensures
        symbols_lt(a.skip(i), b.skip(i)) == symbols_lt(a.skip(i + 1), b.skip(i + 1)),
{
    assert(a.skip(i).drop_first() =~= a.skip(i + 1));
    assert(b.skip(i).drop_first() =~= b.skip(i + 1));
}

/// Strict lexicographic comparison of symbol strings.
pub fn symbols_less(a: &[u32], b: &[u32]) -> (r: bool)
    ensures
        r == symbols_lt(a@, b@),
{
    let mut i: usize = 0;
    proof {
        assert(a@.skip(0) =~= a@);
        assert(b@.skip(0) =~= b@);
    }
    while i < a.len() && i < b.len()
        invariant
            i <= a@.len(),
            i <= b@.len(),
            symbols_lt(a@, b@) == symbols_lt(a@.skip(i as int), b@.skip(i as int)),
        decreases a@.len() - i,
    {
        if a[i] != b[i] {
            return a[i] < b[i];
        }
        proof {
            lemma_symbols_skip(a@, b@, i as int);
        }
        i = i + 1;
    }
    i == a.len() && i < b.len()
}

/// Equality of symbol strings.
pub fn symbols_equal(a: &[u32], b: &[u32]) -> (r: bool)
    ensures
        r == (a@ == b@),
{
    if a.len() != b.len() {
        return false;
    }
    let mut i: usize = 0;
    while i < a.len()
        invariant
            i <= a@.len(),
            a@.len() == b@.len(),
            forall|k: int| 0 <= k < i ==> a@[k] == b@[k],
        decreases a@.len() - i,
    {
        if a[i] != b[i] {
            return false;
        }
        i = i + 1;
    }
    proof {
        assert(a@ =~= b@);
    }
    true
}

fn transform_less(a: &PriorTransform, b: &PriorTransform) -> (r: bool)
    ensures
        r == transform_lt(a@, b@),
{
    match (a, b) {
        (PriorTransform::Named(x), PriorTransform::Named(y)) => lex_less(x.as_str().as_bytes(), y.as_str().as_bytes()),
        _ => {
            let ra: u8 = match a {
                PriorTransform::PairOrderCanonicalized => 0,
                PriorTransform::GlobalBinaryComplementAggregated => 1,
                PriorTransform::Named(_) => 2,
            };
            let rb: u8 = match b {
                PriorTransform::PairOrderCanonicalized => 0,
                PriorTransform::GlobalBinaryComplementAggregated => 1,
                PriorTransform::Named(_) => 2,
            };
            ra < rb
        },
    }
}

pub open spec fn transform_views(ts: Seq<PriorTransform>) -> Seq<TransformView> {
    ts.map_values(|t: PriorTransform| t@)
}

/// Whether `ts` holds the transformation `PairOrderCanonicalized` (`global`
/// false) or `GlobalBinaryComplementAggregated` (`global` true).
fn has_transform(ts: &[PriorTransform], global: bool) -> (r: bool)
    ensures
        r == transform_views(ts@).contains(
            if global {
                TransformView::GlobalBinaryComplementAggregated
            } else {
                TransformView::PairOrderCanonicalized
            },
        ),
{
    let ghost want = if global {
        TransformView::GlobalBinaryComplementAggregated
    } else {
        TransformView::PairOrderCanonicalized
    };
    let ghost tv = transform_views(ts@);
    let mut i: usize = 0;
    while i < ts.len()
        invariant
            i <= ts@.len(),
            tv == transform_views(ts@),
            want == (if global {
                TransformView::GlobalBinaryComplementAggregated
            } else {
                TransformView::PairOrderCanonicalized
            }),
            forall|k: int| 0 <= k < i ==> tv[k] != want,
        decreases ts@.len() - i,
    {
        let hit = match &ts[i] {
            PriorTransform::PairOrderCanonicalized => !global,
            PriorTransform::GlobalBinaryComplementAggregated => global,
            PriorTransform::Named(_) => false,
        };
        proof {
            assert(tv[i as int] == ts@[i as int]@);
        }
        if hit {
            proof {
                assert(tv[i as int] == want);
            }
            return true;
        }
        i = i + 1;
    }
    proof {
        if tv.contains(want) {
            let k = choose|k: int| 0 <= k < tv.len() && tv[k] == want;
        }
    }
    false
}

// ---------------------------------------------------------------------------
// Validity
// ---------------------------------------------------------------------------

/// Units of a weight: a nonzero integer, its first byte nonzero.
pub open spec fn units_ok(u: Seq<u8>) -> bool {
    u.len() > 0 && u[0] != 0
}

pub open spec fn symbols_in_range(s: Seq<u32>, cardinality: u32) -> bool {
    forall|k: int| 0 <= k < s.len() ==> #[trigger] s[k] < cardinality
}

/// What a single scenario of `v` must satisfy.
pub open spec fn scenario_ok(v: PriorView, s: ScenarioView) -> bool {
    &&& s.left != s.right
    &&& v.transformations.contains(TransformView::PairOrderCanonicalized) ==> !symbols_lt(s.right, s.left)
    &&& symbols_in_range(s.left, v.cardinality)
    &&& symbols_in_range(s.right, v.cardinality)
    &&& units_ok(s.units)
    &&& s.fractional_bits == v.scenarios[0].fractional_bits
}

pub open spec fn metadata_ok(v: PriorView) -> bool {
    match v.metadata {
        MetadataView::CanonicalCtmB9D12 { .. } => v.cardinality == 9,
        MetadataView::ExternalFinite { model_identity, builder_identity, .. } => model_identity.len() > 0
            && builder_identity.len() > 0,
    }
}

/// A valid prior: at least two symbols, transformations strictly sorted, the
/// binary-complement transformation only over two symbols, scenarios in
/// strict canonical pair order and each valid, and metadata consistent.
#[verifier::opaque]
pub open spec fn prior_ok(v: PriorView) -> bool {
    &&& v.cardinality >= 2
    &&& forall|i: int|
        0 < i < v.transformations.len() ==> transform_lt(v.transformations[i - 1], #[trigger] v.transformations[i])
    &&& v.transformations.contains(TransformView::GlobalBinaryComplementAggregated) ==> v.cardinality == 2
    &&& forall|i: int| 0 < i < v.scenarios.len() ==> pair_lt(v.scenarios[i - 1], #[trigger] v.scenarios[i])
    &&& forall|i: int| 0 <= i < v.scenarios.len() ==> scenario_ok(v, #[trigger] v.scenarios[i])
    &&& metadata_ok(v)
}

fn all_below(s: &[u32], cardinality: u32) -> (r: bool)
    ensures
        r == symbols_in_range(s@, cardinality),
{
    let mut i: usize = 0;
    while i < s.len()
        invariant
            i <= s@.len(),
            forall|k: int| 0 <= k < i ==> s@[k] < cardinality,
        decreases s@.len() - i,
    {
        if s[i] >= cardinality {
            return false;
        }
        i = i + 1;
    }
    true
}

fn check_scenario(
    prior: &PriorArtifact,
    s: &Scenario,
    canonicalized: bool,
    scale: u32,
) -> (r: Result<(), ArtifactError>)
    requires
        canonicalized == prior@.transformations.contains(TransformView::PairOrderCanonicalized),
        prior@.scenarios.len() > 0,
        scale == prior@.scenarios[0].fractional_bits,
    ensures
        r is Ok == scenario_ok(prior@, s@),
        r is Err ==> r->Err_0 is InvalidPrior,
{
    if symbols_equal(&s.left, &s.right) {
        return Err(ArtifactError::InvalidPrior("identical pair scenarios carry no distinction information"));
    }
    if canonicalized && symbols_less(&s.right, &s.left) {
        return Err(ArtifactError::InvalidPrior("pair-order-canonicalized prior contains reversed scenario"));
    }
    let c = prior.symbol_space.cardinality;
    if !all_below(&s.left, c) || !all_below(&s.right, c) {
        return Err(ArtifactError::InvalidPrior("scenario symbol outside symbol space"));
    }
    match &s.weight {
        WeightExpr::FixedPoint { units, fractional_bits } => {
            if units.len() == 0 {
                return Err(ArtifactError::InvalidPrior("zero-weight scenario must be omitted"));
            }
            if units[0] == 0 {
                return Err(ArtifactError::InvalidPrior("weight units must have no leading zero byte"));
            }
            if *fractional_bits != scale {
                return Err(ArtifactError::InvalidPrior("fixed-point scenario scales differ"));
            }
        },
    }
    Ok(())
}

/// Checks every rule of a valid prior.
pub fn validate_prior(prior: &PriorArtifact) -> (r: Result<(), ArtifactError>)
    ensures
        r is Ok == prior_ok(prior@),
        r is Err ==> r->Err_0 is InvalidPrior,
{
    reveal(prior_ok);
    let ghost v = prior@;
    if prior.symbol_space.cardinality < 2 {
        return Err(ArtifactError::InvalidPrior("symbol cardinality must be >=2"));
    }
    let ts = &prior.transformations;
    let mut i: usize = 1;
    while i < ts.len()
        invariant
            v == prior@,
            ts@ == prior.transformations@,
            1 <= i,
            forall|k: int| 0 < k < i && k < ts@.len() ==> transform_lt(v.transformations[k - 1], #[trigger] v.transformations[k]),
        decreases ts@.len() - i,
    {
        proof {
            reveal(prior_ok);
            assert(v.transformations[i - 1] == ts@[i - 1]@);
            assert(v.transformations[i as int] == ts@[i as int]@);
        }
        if !transform_less(&ts[i - 1], &ts[i]) {
            return Err(ArtifactError::InvalidPrior("prior transformations must be strictly sorted and unique"));
        }
        i = i + 1;
    }
    let canonicalized = has_transform(ts, false);
    if has_transform(ts, true) && prior.symbol_space.cardinality != 2 {
        return Err(
            ArtifactError::InvalidPrior("global binary-complement transform requires a binary symbol space"),
        );
    }
    let ss = &prior.scenarios;
    if ss.len() > 0 {
        let scale = match &ss[0].weight {
            WeightExpr::FixedPoint { fractional_bits, .. } => *fractional_bits,
        };
        proof {
            assert(v.scenarios[0] == ss@[0]@);
        }
        let mut j: usize = 0;
        while j < ss.len()
            invariant
                v == prior@,
                ss@ == prior.scenarios@,
                ss@.len() > 0,
                scale == v.scenarios[0].fractional_bits,
                canonicalized == v.transformations.contains(TransformView::PairOrderCanonicalized),
                j <= ss@.len(),
                forall|k: int| 0 < k < j ==> pair_lt(v.scenarios[k - 1], #[trigger] v.scenarios[k]),
                forall|k: int| 0 <= k < j ==> scenario_ok(v, #[trigger] v.scenarios[k]),
            decreases ss@.len() - j,
        {
            let s = &ss[j];
            proof {
                reveal(prior_ok);
                assert(v.scenarios[j as int] == s@);
            }
            if j > 0 {
                let p = &ss[j - 1];
                proof {
                    assert(v.scenarios[j - 1] == p@);
                }
                let ordered = symbols_less(&p.left, &s.left) || (symbols_equal(&p.left, &s.left) && symbols_less(
                    &p.right,
                    &s.right,
                ));
                if !ordered {
                    return Err(ArtifactError::InvalidPrior("prior scenarios must be in strict canonical pair order"));
                }
            }
            match check_scenario(prior, s, canonicalized, scale) {
                Ok(()) => {},
                Err(e) => {
                    return Err(e);
                },
            }
            j = j + 1;
        }
    }
    match &prior.metadata {
        PriorMetadata::CanonicalCtmB9D12 { .. } => {
            if prior.symbol_space.cardinality != 9 {
                return Err(ArtifactError::InvalidPrior("canonical CTM-B9 metadata requires cardinality 9"));
            }
        },
        PriorMetadata::ExternalFinite { model_identity, builder_identity, .. } => {
            if model_identity.as_str().is_empty() || builder_identity.as_str().is_empty() {
                return Err(
                    ArtifactError::InvalidPrior(
                        "external finite prior requires nonempty model and builder identities",
                    ),
                );
            }
        },
    }
    Ok(())
}

// ---------------------------------------------------------------------------
// The prior as bytes
// ---------------------------------------------------------------------------

/// "TECAPR02".
pub open spec fn prior_magic() -> Seq<u8> {
    seq![84u8, 69u8, 67u8, 65u8, 80u8, 82u8, 48u8, 50u8]
}

pub open spec fn word_fn() -> spec_fn(u32) -> Seq<u8> {
    |w: u32| be32(w)
}

/// A symbol string: its length, then its symbols.
pub open spec fn enc_symbols(s: Seq<u32>) -> Seq<u8> {
    be32(s.len() as u32) + enc_seq(s, word_fn())
}

pub open spec fn enc_weight(units: Seq<u8>, fractional_bits: u32) -> Seq<u8> {
    seq![0u8] + (enc_bytes(units) + be32(fractional_bits))
}

pub open spec fn enc_scenario(s: ScenarioView) -> Seq<u8> {
    enc_symbols(s.left) + (enc_symbols(s.right) + enc_weight(s.units, s.fractional_bits))
}

pub open spec fn scenario_fn() -> spec_fn(ScenarioView) -> Seq<u8> {
    |s: ScenarioView| enc_scenario(s)
}

pub open spec fn enc_transform(t: TransformView) -> Seq<u8> {
    match t {
        TransformView::PairOrderCanonicalized => seq![0u8],
        TransformView::GlobalBinaryComplementAggregated => seq![1u8],
        TransformView::Named(name) => seq![2u8] + enc_string(name),
    }
}

pub open spec fn transform_fn() -> spec_fn(TransformView) -> Seq<u8> {
    |t: TransformView| enc_transform(t)
}

pub open spec fn enc_opt_string(o: Option<Seq<char>>) -> Seq<u8> {
    match o {
        None => seq![0u8],
        Some(s) => seq![1u8] + enc_string(s),
    }
}

pub open spec fn enc_metadata(m: MetadataView) -> Seq<u8> {
    match m {
        MetadataView::CanonicalCtmB9D12 { provenance } => seq![0u8] + enc_string(provenance),
        MetadataView::ExternalFinite { model_identity, builder_identity, budget, uncertainty_note } => seq![2u8] + (
        enc_string(model_identity) + (enc_string(builder_identity) + (enc_opt_string(budget) + enc_string(
            uncertainty_note,
        )))),
    }
}

pub open spec fn prior_tail_meta(v: PriorView) -> Seq<u8> {
    enc_metadata(v.metadata) + enc_provenance(v.provenance)
}

/// Transformations, metadata and provenance as bytes.
pub open spec fn tail_bytes(tv: Seq<TransformView>, mv: MetadataView, pv: Seq<ProvenanceView>) -> Seq<u8> {
    be32(tv.len() as u32) + (enc_seq(tv, transform_fn()) + (enc_metadata(mv) + enc_provenance(pv)))
}

pub open spec fn prior_tail_transforms(v: PriorView) -> Seq<u8> {
    tail_bytes(v.transformations, v.metadata, v.provenance)
}

pub open spec fn prior_tail_scenarios(v: PriorView) -> Seq<u8> {
    be32(v.scenarios.len() as u32) + (enc_seq(v.scenarios, scenario_fn()) + prior_tail_transforms(v))
}

/// The encoding of a prior: magic, symbol space, scenarios in their order,
/// transformations, metadata and provenance.
pub open spec fn prior_bytes(v: PriorView) -> Seq<u8> {
    prior_magic() + (be32(v.cardinality) + (enc_string(v.name) + prior_tail_scenarios(v)))
}

pub open spec fn scenario_fits(s: ScenarioView) -> bool {
    s.left.len() <= u32::MAX && s.right.len() <= u32::MAX && fits(s.units)
}

pub open spec fn transform_fits(t: TransformView) -> bool {
    t matches TransformView::Named(name) ==> fits(encode_utf8(name))
}

pub open spec fn opt_string_fits(o: Option<Seq<char>>) -> bool {
    o matches Some(s) ==> fits(encode_utf8(s))
}

pub open spec fn metadata_fits(m: MetadataView) -> bool {
    match m {
        MetadataView::CanonicalCtmB9D12 { provenance } => fits(encode_utf8(provenance)),
        MetadataView::ExternalFinite { model_identity, builder_identity, budget, uncertainty_note } => fits(
            encode_utf8(model_identity),
        ) && fits(encode_utf8(builder_identity)) && opt_string_fits(budget) && fits(encode_utf8(uncertainty_note)),
    }
}

/// Every count and length of the prior fits its 32-bit prefix.
pub open spec fn prior_encodable(v: PriorView) -> bool {
    fits(encode_utf8(v.name)) && tail_encodable(v)
}

fn put_symbols(out: &mut Vec<u8>, s: &[u32]) -> (r: Result<(), ArtifactError>)
    ensures
        s@.len() <= u32::MAX ==> r is Ok && final(out)@ == old(out)@ + enc_symbols(s@),
        s@.len() > u32::MAX ==> r == Err::<(), ArtifactError>(ArtifactError::CountOverflow),
{
    if s.len() > 4294967295usize {
        return Err(ArtifactError::CountOverflow);
    }
    put_u32(out, s.len() as u32);
    let ghost mid = out@;
    let mut i: usize = 0;
    proof {
        assert(s@.take(0) =~= Seq::<u32>::empty());
        assert(out@ =~= mid + enc_seq(s@.take(0), word_fn()));
    }
    while i < s.len()
        invariant
            i <= s@.len(),
            out@ == mid + enc_seq(s@.take(i as int), word_fn()),
        decreases s@.len() - i,
    {
        put_u32(out, s[i]);
        proof {
            assert(s@.take(i + 1).drop_last() =~= s@.take(i as int));
            assert(out@ =~= mid + enc_seq(s@.take(i + 1), word_fn()));
        }
        i = i + 1;
    }
    proof {
        assert(s@.take(s@.len() as int) =~= s@);
        assert(out@ =~= old(out)@ + enc_symbols(s@));
    }
    Ok(())
}

fn put_scenario(out: &mut Vec<u8>, s: &Scenario) -> (r: Result<(), ArtifactError>)
    ensures
        scenario_fits(s@) ==> r is Ok && final(out)@ == old(out)@ + enc_scenario(s@),
        !scenario_fits(s@) ==> r == Err::<(), ArtifactError>(ArtifactError::CountOverflow),
{
    match put_symbols(out, &s.left) {
        Ok(()) => {},
        Err(e) => {
            return Err(e);
        },
    }
    match put_symbols(out, &s.right) {
        Ok(()) => {},
        Err(e) => {
            return Err(e);
        },
    }
    match &s.weight {
        WeightExpr::FixedPoint { units, fractional_bits } => {
            put_u8(out, 0);
            match put_bytes(out, units.as_slice()) {
                Ok(()) => {},
                Err(e) => {
                    return Err(e);
                },
            }
            put_u32(out, *fractional_bits);
        },
    }
    proof {
        assert(out@ =~= old(out)@ + enc_scenario(s@));
    }
    Ok(())
}

fn put_transform(out: &mut Vec<u8>, t: &PriorTransform) -> (r: Result<(), ArtifactError>)
    ensures
        transform_fits(t@) ==> r is Ok && final(out)@ == old(out)@ + enc_transform(t@),
        !transform_fits(t@) ==> r == Err::<(), ArtifactError>(ArtifactError::CountOverflow),
{
    match t {
        PriorTransform::PairOrderCanonicalized => {
            put_u8(out, 0);
        },
        PriorTransform::GlobalBinaryComplementAggregated => {
            put_u8(out, 1);
        },
        PriorTransform::Named(name) => {
            put_u8(out, 2);
            match put_string(out, name) {
                Ok(()) => {},
                Err(e) => {
                    return Err(e);
                },
            }
            proof {
                assert(out@ =~= old(out)@ + enc_transform(t@));
            }
        },
    }
    Ok(())
}

fn put_metadata(out: &mut Vec<u8>, m: &PriorMetadata) -> (r: Result<(), ArtifactError>)
    ensures
        metadata_fits(m@) ==> r is Ok && final(out)@ == old(out)@ + enc_metadata(m@),
        !metadata_fits(m@) ==> r == Err::<(), ArtifactError>(ArtifactError::CountOverflow),
{
    match m {
        PriorMetadata::CanonicalCtmB9D12 { provenance } => {
            put_u8(out, 0);
            match put_string(out, provenance) {
                Ok(()) => {},
                Err(e) => {
                    return Err(e);
                },
            }
        },
        PriorMetadata::ExternalFinite { model_identity, builder_identity, budget, uncertainty_note } => {
            put_u8(out, 2);
            match put_string(out, model_identity) {
                Ok(()) => {},
                Err(e) => {
                    return Err(e);
                },
            }
            match put_string(out, builder_identity) {
                Ok(()) => {},
                Err(e) => {
                    return Err(e);
                },
            }
            let ghost before_budget = out@;
            match budget {
                None => {
                    put_u8(out, 0);
                },
                Some(value) => {
                    put_u8(out, 1);
                    match put_string(out, value) {
                        Ok(()) => {},
                        Err(e) => {
                            return Err(e);
                        },
                    }
                },
            }
            proof {
                assert(out@ =~= before_budget + enc_opt_string(crate::prior::opt_chars(*budget)));
            }
            match put_string(out, uncertainty_note) {
                Ok(()) => {},
                Err(e) => {
                    return Err(e);
                },
            }
        },
    }
    proof {
        assert(out@ =~= old(out)@ + enc_metadata(m@));
    }
    Ok(())
}

fn put_prior_magic(out: &mut Vec<u8>)
    ensures
        final(out)@ == old(out)@ + prior_magic(),
{
    out.push(84u8);
    out.push(69u8);
    out.push(67u8);
    out.push(65u8);
    out.push(80u8);
    out.push(82u8);
    out.push(48u8);
    out.push(50u8);
    proof {
        assert(out@ =~= old(out)@ + prior_magic());
    }
}

fn put_scenarios(out: &mut Vec<u8>, ss: &[Scenario]) -> (r: Result<(), ArtifactError>)
    ensures
        ({
            let sv = ss@.map_values(|s: Scenario| s@);
            let ok = sv.len() <= u32::MAX && forall|k: int| 0 <= k < sv.len() ==> scenario_fits(#[trigger] sv[k]);
            &&& ok ==> r is Ok && final(out)@ == old(out)@ + (be32(sv.len() as u32) + enc_seq(sv, scenario_fn()))
            &&& !ok ==> r == Err::<(), ArtifactError>(ArtifactError::CountOverflow)
        }),
{
    let ghost sv = ss@.map_values(|s: Scenario| s@);
    if ss.len() > 4294967295usize {
        return Err(ArtifactError::CountOverflow);
    }
    put_u32(out, ss.len() as u32);
    let ghost mid = out@;
    let mut i: usize = 0;
    proof {
        assert(sv.take(0) =~= Seq::<ScenarioView>::empty());
        assert(out@ =~= mid + enc_seq(sv.take(0), scenario_fn()));
    }
    while i < ss.len()
        invariant
            sv == ss@.map_values(|s: Scenario| s@),
            i <= ss@.len(),
            out@ == mid + enc_seq(sv.take(i as int), scenario_fn()),
            forall|k: int| 0 <= k < i ==> scenario_fits(#[trigger] sv[k]),
        decreases ss@.len() - i,
    {
        proof {
            assert(sv[i as int] == ss@[i as int]@);
        }
        match put_scenario(out, &ss[i]) {
            Ok(()) => {},
            Err(e) => {
                return Err(e);
            },
        }
        proof {
            assert(sv.take(i + 1).drop_last() =~= sv.take(i as int));
            assert(out@ =~= mid + enc_seq(sv.take(i + 1), scenario_fn()));
        }
        i = i + 1;
    }
    proof {
        assert(sv.take(sv.len() as int) =~= sv);
    }
    Ok(())
}

fn put_transforms(out: &mut Vec<u8>, ts: &[PriorTransform]) -> (r: Result<(), ArtifactError>)
    ensures
        ({
            let tv = transform_views(ts@);
            let ok = tv.len() <= u32::MAX && forall|k: int| 0 <= k < tv.len() ==> transform_fits(#[trigger] tv[k]);
            &&& ok ==> r is Ok && final(out)@ == old(out)@ + (be32(tv.len() as u32) + enc_seq(tv, transform_fn()))
            &&& !ok ==> r == Err::<(), ArtifactError>(ArtifactError::CountOverflow)
        }),
{
    let ghost tv = transform_views(ts@);
    if ts.len() > 4294967295usize {
        return Err(ArtifactError::CountOverflow);
    }
    put_u32(out, ts.len() as u32);
    let ghost mid = out@;
    let mut i: usize = 0;
    proof {
        assert(tv.take(0) =~= Seq::<TransformView>::empty());
        assert(out@ =~= mid + enc_seq(tv.take(0), transform_fn()));
    }
    while i < ts.len()
        invariant
            tv == transform_views(ts@),
            i <= ts@.len(),
            out@ == mid + enc_seq(tv.take(i as int), transform_fn()),
            forall|k: int| 0 <= k < i ==> transform_fits(#[trigger] tv[k]),
        decreases ts@.len() - i,
    {
        proof {
            assert(tv[i as int] == ts@[i as int]@);
        }
        match put_transform(out, &ts[i]) {
            Ok(()) => {},
            Err(e) => {
                return Err(e);
            },
        }
        proof {
            assert(tv.take(i + 1).drop_last() =~= tv.take(i as int));
            assert(out@ =~= mid + enc_seq(tv.take(i + 1), transform_fn()));
        }
        i = i + 1;
    }
    proof {
        assert(tv.take(tv.len() as int) =~= tv);
    }
    Ok(())
}

/// Every count and length after the symbol space fits its prefix.
pub open spec fn tail_encodable(v: PriorView) -> bool {
    &&& v.scenarios.len() <= u32::MAX
    &&& forall|k: int| 0 <= k < v.scenarios.len() ==> scenario_fits(#[trigger] v.scenarios[k])
    &&& v.transformations.len() <= u32::MAX
    &&& forall|k: int| 0 <= k < v.transformations.len() ==> transform_fits(#[trigger] v.transformations[k])
    &&& metadata_fits(v.metadata)
    &&& v.provenance.len() <= u32::MAX
    &&& all_strings_fit(prov_strings(v.provenance))
}

fn put_prior_tail(out: &mut Vec<u8>, prior: &PriorArtifact) -> (r: Result<(), ArtifactError>)
    ensures
        tail_encodable(prior@) ==> r is Ok && final(out)@ == old(out)@ + prior_tail_scenarios(prior@),
        !tail_encodable(prior@) ==> r == Err::<(), ArtifactError>(ArtifactError::CountOverflow),
{
    let ghost v = prior@;
    let ghost a = out@;
    match put_scenarios(out, prior.scenarios.as_slice()) {
        Ok(()) => {},
        Err(e) => {
            return Err(e);
        },
    }
    let ghost b = out@;
    match put_transforms(out, prior.transformations.as_slice()) {
        Ok(()) => {},
        Err(e) => {
            return Err(e);
        },
    }
    let ghost c = out@;
    match put_metadata(out, &prior.metadata) {
        Ok(()) => {},
        Err(e) => {
            return Err(e);
        },
    }
    let ghost d = out@;
    match put_provenance(out, prior.provenance.as_slice()) {
        Ok(()) => {},
        Err(e) => {
            return Err(e);
        },
    }
    proof {
        assert(d == c + enc_metadata(v.metadata));
        assert(out@ == d + enc_provenance(v.provenance));
        assert(out@ =~= c + prior_tail_meta(v));
        assert(out@ =~= b + prior_tail_transforms(v));
        assert(out@ =~= a + prior_tail_scenarios(v));
    }
    Ok(())
}

/// Encodes a valid prior. Validity requires the scenarios in strict
/// canonical pair order, so they are written in the order given.
pub fn encode_prior(prior: &PriorArtifact) -> (r: Result<Vec<u8>, ArtifactError>)
    ensures
        !prior_ok(prior@) ==> (r matches Err(e) && e is InvalidPrior),
        prior_ok(prior@) && prior_encodable(prior@) ==> (r matches Ok(b) && b@ == prior_bytes(prior@)),
        prior_ok(prior@) && !prior_encodable(prior@) ==> r == Err::<Vec<u8>, ArtifactError>(
            ArtifactError::CountOverflow,
        ),
{
    match validate_prior(prior) {
        Ok(()) => {},
        Err(e) => {
            return Err(e);
        },
    }
    let ghost v = prior@;
    let mut out: Vec<u8> = Vec::new();
    put_prior_magic(&mut out);
    put_u32(&mut out, prior.symbol_space.cardinality);
    match put_string(&mut out, &prior.symbol_space.name) {
        Ok(()) => {},
        Err(e) => {
            return Err(e);
        },
    }
    let ghost a = out@;
    match put_prior_tail(&mut out, prior) {
        Ok(()) => {},
        Err(e) => {
            return Err(e);
        },
    }
    proof {
        assert(a =~= prior_magic() + be32(v.cardinality) + enc_string(v.name));
        assert(out@ =~= prior_bytes(v));
    }
    Ok(out)
}

// ---------------------------------------------------------------------------
// Reading a prior back
// ---------------------------------------------------------------------------

/// Reads `n` 32-bit words laid one after the other.
fn read_words(bytes: &[u8], pos: usize, n: usize) -> (r: Result<(Vec<u32>, usize), ArtifactError>)
    ensures
        r matches Ok((xs, p)) ==> xs@.len() == n && p == pos + enc_seq(xs@, word_fn()).len() && is_at(
            bytes@,
            pos as int,
            enc_seq(xs@, word_fn()),
        ),
        forall|xs: Seq<u32>|
            xs.len() == n && #[trigger] is_at(bytes@, pos as int, enc_seq(xs, word_fn())) ==> (r matches Ok((ys, p))
                && ys@ == xs),
{
    if pos > bytes.len() {
        return Err(ArtifactError::Truncated);
    }
    let mut out: Vec<u32> = Vec::new();
    let mut cur = pos;
    let mut i: usize = 0;
    proof {
        assert(bytes@.subrange(pos as int, pos as int) =~= Seq::<u8>::empty());
        assert forall|xs: Seq<u32>| xs.len() == n && #[trigger] is_at(bytes@, pos as int, enc_seq(xs, word_fn())) implies out@
            == xs.take(0) by {
            assert(xs.take(0) =~= Seq::<u32>::empty());
        }
    }
    while i < n
        invariant
            i <= n,
            out@.len() == i,
            cur == pos + enc_seq(out@, word_fn()).len(),
            is_at(bytes@, pos as int, enc_seq(out@, word_fn())),
            forall|xs: Seq<u32>|
                xs.len() == n && #[trigger] is_at(bytes@, pos as int, enc_seq(xs, word_fn())) ==> out@ == xs.take(
                    i as int,
                ),
        decreases n - i,
    {
        let ghost before = out@;
        proof {
            assert forall|xs: Seq<u32>| xs.len() == n && #[trigger] is_at(bytes@, pos as int, enc_seq(xs, word_fn())) implies is_at(
                bytes@,
                cur as int,
                be32(xs[i as int]),
            ) by {
                lemma_enc_seq_at(bytes@, pos as int, xs, word_fn(), i as int);
            }
        }
        match take_u32(bytes, cur) {
            Ok((x, q)) => {
                proof {
                    lemma_enc_seq_extend(bytes@, pos as int, before, x, word_fn());
                    assert forall|xs: Seq<u32>| xs.len() == n && #[trigger] is_at(
                        bytes@,
                        pos as int,
                        enc_seq(xs, word_fn()),
                    ) implies before.push(x) == xs.take(i + 1) by {
                        assert(xs.take(i + 1) =~= xs.take(i as int).push(xs[i as int]));
                    }
                }
                out.push(x);
                cur = q;
            },
            Err(e) => {
                return Err(e);
            },
        }
        i = i + 1;
    }
    proof {
        assert forall|xs: Seq<u32>| xs.len() == n && #[trigger] is_at(bytes@, pos as int, enc_seq(xs, word_fn())) implies out@
            == xs by {
            assert(xs.take(n as int) =~= xs);
        }
    }
    Ok((out, cur))
}

fn read_symbols(bytes: &[u8], pos: usize) -> (r: Result<(Vec<u32>, usize), ArtifactError>)
    ensures
        r matches Ok((xs, p)) ==> p == pos + enc_symbols(xs@).len() && is_at(bytes@, pos as int, enc_symbols(xs@))
            && xs@.len() <= u32::MAX,
        forall|xs: Seq<u32>|
            xs.len() <= u32::MAX && #[trigger] is_at(bytes@, pos as int, enc_symbols(xs)) ==> (r matches Ok((ys, p))
                && ys@ == xs),
{
    proof {
        assert forall|xs: Seq<u32>| xs.len() <= u32::MAX && #[trigger] is_at(bytes@, pos as int, enc_symbols(xs)) implies is_at(
            bytes@,
            pos as int,
            be32(xs.len() as u32),
        ) && is_at(bytes@, pos + 4, enc_seq(xs, word_fn())) by {
            lemma_is_at_split(bytes@, pos as int, be32(xs.len() as u32), enc_seq(xs, word_fn()));
        }
    }
    let (n, p) = match take_u32(bytes, pos) {
        Ok(x) => x,
        Err(e) => {
            return Err(e);
        },
    };
    let (xs, q) = match read_words(bytes, p, n as usize) {
        Ok(x) => x,
        Err(e) => {
            return Err(e);
        },
    };
    proof {
        lemma_is_at_join(bytes@, pos as int, be32(n), enc_seq(xs@, word_fn()));
    }
    Ok((xs, q))
}

/// The big-endian bytes of a number without leading zero bytes.
pub open spec fn strip_zeros(b: Seq<u8>) -> Seq<u8>
    decreases b.len(),
{
    if b.len() > 0 && b[0] == 0 {
        strip_zeros(b.drop_first())
    } else {
        b
    }
}

/// The big-endian bytes `num-bigint` gives for the number that `b` spells:
/// no leading zero byte, and a single zero byte for zero.
pub open spec fn canonical_be(b: Seq<u8>) -> Seq<u8> {
    if strip_zeros(b).len() == 0 {
        seq![0u8]
    } else {
        strip_zeros(b)
    }
}

proof fn lemma_strip_zeros_head(b: Seq<u8>)
    ensures
        strip_zeros(b).len() > 0 ==> strip_zeros(b)[0] != 0,
    decreases b.len(),
{
    if b.len() > 0 && b[0] == 0 {
        lemma_strip_zeros_head(b.drop_first());
    }
}

/// `BigUint::from_bytes_be` followed by `to_bytes_be`: the number that the
/// big-endian `bytes` spell, written back as its big-endian bytes, which have
/// no leading zero byte and are `[0]` for zero.
#[verifier::external_body]
fn biguint_canonical_be(bytes: &[u8]) -> (r: Vec<u8>)
    ensures
        r@ == canonical_be(bytes@),
{
    num_bigint::BigUint::from_bytes_be(bytes).to_bytes_be()
}

/// The units of a weight written as the big-endian bytes `raw`.
pub(crate) fn units_from_raw(raw: &[u8]) -> (r: Vec<u8>)
    ensures
        r@ == strip_zeros(raw@),
{
    let c = biguint_canonical_be(raw);
    proof {
        lemma_strip_zeros_head(raw@);
    }
    if c.len() == 1 && c[0] == 0 {
        Vec::new()
    } else {
        c
    }
}

/// `s` with its units written as `u`.
pub open spec fn with_units(s: ScenarioView, u: Seq<u8>) -> ScenarioView {
    ScenarioView { left: s.left, right: s.right, units: u, fractional_bits: s.fractional_bits }
}

proof fn lemma_scenario_split(bytes: Seq<u8>, pos: int, v: ScenarioView)
    requires
        is_at(bytes, pos, enc_scenario(v)),
    ensures
        is_at(bytes, pos, enc_symbols(v.left)),
        is_at(bytes, pos + enc_symbols(v.left).len(), enc_symbols(v.right)),
        is_at(bytes, pos + enc_symbols(v.left).len() + enc_symbols(v.right).len(), seq![0u8]),
        is_at(bytes, pos + enc_symbols(v.left).len() + enc_symbols(v.right).len() + 1, enc_bytes(v.units)),
        is_at(
            bytes,
            pos + enc_symbols(v.left).len() + enc_symbols(v.right).len() + 1 + enc_bytes(v.units).len(),
            be32(v.fractional_bits),
        ),
{
    let el = enc_symbols(v.left);
    let er = enc_symbols(v.right);
    let w = enc_weight(v.units, v.fractional_bits);
    lemma_is_at_split(bytes, pos, el, er + w);
    lemma_is_at_split(bytes, pos + el.len(), er, w);
    lemma_is_at_split(bytes, pos + el.len() + er.len(), seq![0u8], enc_bytes(v.units) + be32(v.fractional_bits));
    lemma_is_at_split(bytes, pos + el.len() + er.len() + 1, enc_bytes(v.units), be32(v.fractional_bits));
}

proof fn lemma_scenario_join(bytes: Seq<u8>, pos: int, v: ScenarioView)
    requires
        is_at(bytes, pos, enc_symbols(v.left)),
        is_at(bytes, pos + enc_symbols(v.left).len(), enc_symbols(v.right)),
        is_at(bytes, pos + enc_symbols(v.left).len() + enc_symbols(v.right).len(), seq![0u8]),
        is_at(bytes, pos + enc_symbols(v.left).len() + enc_symbols(v.right).len() + 1, enc_bytes(v.units)),
        is_at(
            bytes,
            pos + enc_symbols(v.left).len() + enc_symbols(v.right).len() + 1 + enc_bytes(v.units).len(),
            be32(v.fractional_bits),
        ),
    ensures
        is_at(bytes, pos, enc_scenario(v)),
        enc_scenario(v).len() == enc_symbols(v.left).len() + enc_symbols(v.right).len() + 5 + enc_bytes(v.units).len(),
{
    let el = enc_symbols(v.left);
    let er = enc_symbols(v.right);
    lemma_is_at_join(bytes, pos + el.len() + er.len() + 1, enc_bytes(v.units), be32(v.fractional_bits));
    lemma_is_at_join(bytes, pos + el.len() + er.len(), seq![0u8], enc_bytes(v.units) + be32(v.fractional_bits));
    let w = enc_weight(v.units, v.fractional_bits);
    lemma_is_at_join(bytes, pos + el.len(), er, w);
    lemma_is_at_join(bytes, pos, el, er + w);
}

fn read_scenario(bytes: &[u8], pos: usize) -> (r: Result<(Scenario, Ghost<Seq<u8>>, usize), ArtifactError>)
    ensures
        r matches Ok((x, raw, p)) ==> p == pos + enc_scenario(with_units(x@, raw@)).len() && is_at(
            bytes@,
            pos as int,
            enc_scenario(with_units(x@, raw@)),
        ) && x@.units == strip_zeros(raw@) && scenario_fits(with_units(x@, raw@)),
        forall|v: ScenarioView|
            scenario_fits(v) && units_ok(v.units) && #[trigger] is_at(bytes@, pos as int, enc_scenario(v)) ==> (r matches Ok(
                (x, raw, p),
            ) && x@ == v && raw@ == v.units),
{
    proof {
        assert forall|v: ScenarioView| scenario_fits(v) && units_ok(v.units) && #[trigger] is_at(bytes@, pos as int, enc_scenario(v)) implies is_at(
            bytes@,
            pos as int,
            enc_symbols(v.left),
        ) && is_at(bytes@, pos + enc_symbols(v.left).len(), enc_symbols(v.right)) && is_at(
            bytes@,
            pos + enc_symbols(v.left).len() + enc_symbols(v.right).len(),
            seq![0u8],
        ) && is_at(
            bytes@,
            pos + enc_symbols(v.left).len() + enc_symbols(v.right).len() + 1,
            enc_bytes(v.units),
        ) && is_at(
            bytes@,
            pos + enc_symbols(v.left).len() + enc_symbols(v.right).len() + 1 + enc_bytes(v.units).len(),
            be32(v.fractional_bits),
        ) by {
            lemma_scenario_split(bytes@, pos as int, v);
        }
    }
    let (left, p1) = match read_symbols(bytes, pos) {
        Ok(x) => x,
        Err(e) => {
            return Err(e);
        },
    };
    let (right, p2) = match read_symbols(bytes, p1) {
        Ok(x) => x,
        Err(e) => {
            return Err(e);
        },
    };
    let (t, p3) = match read_u8(bytes, p2) {
        Ok(x) => x,
        Err(e) => {
            return Err(e);
        },
    };
    proof {
        lemma_is_at_one(bytes@, p2 as int, t);
        assert forall|v: ScenarioView| scenario_fits(v) && units_ok(v.units) && #[trigger] is_at(
            bytes@,
            pos as int,
            enc_scenario(v),
        ) implies t == 0 by {
            lemma_is_at_first(bytes@, p2 as int, seq![0u8]);
        }
    }
    if t != 0 {
        return Err(ArtifactError::UnsupportedTag { what: "weight", tag: t });
    }
    let (raw, p4) = match read_bytes(bytes, p3) {
        Ok(x) => x,
        Err(e) => {
            return Err(e);
        },
    };
    let (fractional_bits, p5) = match take_u32(bytes, p4) {
        Ok(x) => x,
        Err(e) => {
            return Err(e);
        },
    };
    let units = units_from_raw(raw.as_slice());
    let x = Scenario { left, right, weight: WeightExpr::FixedPoint { units, fractional_bits } };
    let ghost rv = raw@;
    proof {
        lemma_scenario_join(bytes@, pos as int, with_units(x@, rv));
        assert forall|v: ScenarioView| scenario_fits(v) && units_ok(v.units) && #[trigger] is_at(
            bytes@,
            pos as int,
            enc_scenario(v),
        ) implies x@ == v && rv == v.units by {
            assert(strip_zeros(v.units) == v.units);
        }
    }
    Ok((x, Ghost(rv), p5))
}

pub open spec fn scenario_views(ss: Seq<Scenario>) -> Seq<ScenarioView> {
    ss.map_values(|s: Scenario| s@)
}

/// The scenarios `vs` with the units of each written as in `raws`.
pub open spec fn with_units_seq(vs: Seq<ScenarioView>, raws: Seq<Seq<u8>>) -> Seq<ScenarioView> {
    Seq::new(vs.len(), |k: int| with_units(vs[k], raws[k]))
}

pub open spec fn units_of(vs: Seq<ScenarioView>) -> Seq<Seq<u8>> {
    vs.map_values(|s: ScenarioView| s.units)
}

/// Reads `n` scenarios, and gives the units of each as they were written.
fn read_scenarios(bytes: &[u8], pos: usize, n: usize) -> (r: Result<
    (Vec<Scenario>, Ghost<Seq<Seq<u8>>>, usize),
    ArtifactError,
>)
    ensures
        r matches Ok((xs, raws, p)) ==> {
            let ws = with_units_seq(scenario_views(xs@), raws@);
            &&& xs@.len() == n
            &&& raws@.len() == n
            &&& p == pos + enc_seq(ws, scenario_fn()).len()
            &&& is_at(bytes@, pos as int, enc_seq(ws, scenario_fn()))
            &&& forall|k: int| 0 <= k < n ==> (#[trigger] scenario_views(xs@)[k]).units == strip_zeros(raws@[k])
            &&& forall|k: int| 0 <= k < n ==> scenario_fits(#[trigger] ws[k])
        },
        forall|vs: Seq<ScenarioView>|
            vs.len() == n && (forall|k: int| 0 <= k < n ==> scenario_fits(#[trigger] vs[k]) && units_ok(vs[k].units))
                && #[trigger] is_at(bytes@, pos as int, enc_seq(vs, scenario_fn())) ==> (r matches Ok((xs, raws, p))
                && scenario_views(xs@) == vs && raws@ == units_of(vs)),
{
    if pos > bytes.len() {
        return Err(ArtifactError::Truncated);
    }
    let mut out: Vec<Scenario> = Vec::new();
    let ghost mut raws: Seq<Seq<u8>> = Seq::empty();
    let mut cur = pos;
    let mut i: usize = 0;
    proof {
        assert(scenario_views(out@) =~= Seq::<ScenarioView>::empty());
        assert(with_units_seq(scenario_views(out@), raws) =~= Seq::<ScenarioView>::empty());
        assert(bytes@.subrange(pos as int, pos as int) =~= Seq::<u8>::empty());
        assert forall|vs: Seq<ScenarioView>|
            vs.len() == n && (forall|k: int| 0 <= k < n ==> scenario_fits(#[trigger] vs[k]) && units_ok(vs[k].units))
                && #[trigger] is_at(bytes@, pos as int, enc_seq(vs, scenario_fn())) implies scenario_views(out@)
            == vs.take(0) && raws == units_of(vs.take(0)) by {
            assert(vs.take(0) =~= Seq::<ScenarioView>::empty());
            assert(units_of(vs.take(0)) =~= Seq::<Seq<u8>>::empty());
        }
    }
    while i < n
        invariant
            i <= n,
            out@.len() == i,
            raws.len() == i,
            cur == pos + enc_seq(with_units_seq(scenario_views(out@), raws), scenario_fn()).len(),
            is_at(bytes@, pos as int, enc_seq(with_units_seq(scenario_views(out@), raws), scenario_fn())),
            forall|k: int| 0 <= k < i ==> (#[trigger] scenario_views(out@)[k]).units == strip_zeros(raws[k]),
            forall|k: int| 0 <= k < i ==> scenario_fits(#[trigger] with_units_seq(scenario_views(out@), raws)[k]),
            forall|vs: Seq<ScenarioView>|
                vs.len() == n && (forall|k: int| 0 <= k < n ==> scenario_fits(#[trigger] vs[k]) && units_ok(vs[k].units))
                    && #[trigger] is_at(bytes@, pos as int, enc_seq(vs, scenario_fn())) ==> scenario_views(out@)
                    == vs.take(i as int) && raws == units_of(vs.take(i as int)),
        decreases n - i,
    {
        let ghost before = scenario_views(out@);
        let ghost raws0 = raws;
        let ghost ws = with_units_seq(before, raws);
        proof {
            assert forall|vs: Seq<ScenarioView>|
                vs.len() == n && (forall|k: int| 0 <= k < n ==> scenario_fits(#[trigger] vs[k]) && units_ok(vs[k].units))
                    && #[trigger] is_at(bytes@, pos as int, enc_seq(vs, scenario_fn())) implies is_at(
                bytes@,
                cur as int,
                enc_scenario(vs[i as int]),
            ) && scenario_fits(vs[i as int]) && units_ok(vs[i as int].units) by {
                assert(ws =~= vs.take(i as int));
                lemma_enc_seq_at(bytes@, pos as int, vs, scenario_fn(), i as int);
            }
        }
        match read_scenario(bytes, cur) {
            Ok((x, raw, q)) => {
                let ghost xv = x@;
                let ghost rv = raw@;
                proof {
                    lemma_enc_seq_extend(bytes@, pos as int, ws, with_units(xv, rv), scenario_fn());
                    assert forall|vs: Seq<ScenarioView>|
                        vs.len() == n && (forall|k: int|
                            0 <= k < n ==> scenario_fits(#[trigger] vs[k]) && units_ok(vs[k].units)) && #[trigger] is_at(
                            bytes@,
                            pos as int,
                            enc_seq(vs, scenario_fn()),
                        ) implies before.push(xv) == vs.take(i + 1) && raws.push(rv) == units_of(vs.take(i + 1)) by {
                        assert(vs.take(i + 1) =~= vs.take(i as int).push(vs[i as int]));
                        assert(units_of(vs.take(i + 1)) =~= units_of(vs.take(i as int)).push(vs[i as int].units));
                    }
                }
                out.push(x);
                proof {
                    raws = raws.push(rv);
                    assert(scenario_views(out@) =~= before.push(xv));
                    assert(with_units_seq(scenario_views(out@), raws) =~= ws.push(with_units(xv, rv)));
                    assert forall|k: int| 0 <= k < i + 1 implies (#[trigger] scenario_views(out@)[k]).units == strip_zeros(
                        raws[k],
                    ) by {
                        if k < i {
                            assert(scenario_views(out@)[k] == before[k]);
                            assert(raws[k] == raws0[k]);
                        }
                    }
                    assert forall|k: int| 0 <= k < i + 1 implies scenario_fits(
                        #[trigger] with_units_seq(scenario_views(out@), raws)[k],
                    ) by {
                        if k < i {
                            assert(with_units_seq(scenario_views(out@), raws)[k] == ws[k]);
                        }
                    }
                }
                cur = q;
            },
            Err(e) => {
                return Err(e);
            },
        }
        i = i + 1;
    }
    proof {
        assert forall|vs: Seq<ScenarioView>|
            vs.len() == n && (forall|k: int| 0 <= k < n ==> scenario_fits(#[trigger] vs[k]) && units_ok(vs[k].units))
                && #[trigger] is_at(bytes@, pos as int, enc_seq(vs, scenario_fn())) implies scenario_views(out@) == vs
            && raws == units_of(vs) by {
            assert(vs.take(n as int) =~= vs);
        }
    }
    Ok((out, Ghost(raws), cur))
}

fn read_transform(bytes: &[u8], pos: usize) -> (r: Result<(PriorTransform, usize), ArtifactError>)
    ensures
        r matches Ok((x, p)) ==> p == pos + enc_transform(x@).len() && is_at(bytes@, pos as int, enc_transform(x@))
            && transform_fits(x@),
        forall|t: TransformView|
            transform_fits(t) && #[trigger] is_at(bytes@, pos as int, enc_transform(t)) ==> (r matches Ok((x, p)) && x@
                == t),
{
    let (tag, p) = match read_u8(bytes, pos) {
        Ok(x) => x,
        Err(e) => {
            proof {
                assert forall|t: TransformView| transform_fits(t) && #[trigger] is_at(bytes@, pos as int, enc_transform(t)) implies false by {
                    lemma_is_at_first(bytes@, pos as int, enc_transform(t));
                }
            }
            return Err(e);
        },
    };
    proof {
        lemma_is_at_one(bytes@, pos as int, tag);
        assert forall|t: TransformView| transform_fits(t) && #[trigger] is_at(bytes@, pos as int, enc_transform(t)) implies tag
            == enc_transform(t)[0] by {
            lemma_is_at_first(bytes@, pos as int, enc_transform(t));
        }
    }
    if tag == 0 {
        proof {
            assert(seq![tag] =~= enc_transform(TransformView::PairOrderCanonicalized));
        }
        Ok((PriorTransform::PairOrderCanonicalized, p))
    } else if tag == 1 {
        proof {
            assert(seq![tag] =~= enc_transform(TransformView::GlobalBinaryComplementAggregated));
        }
        Ok((PriorTransform::GlobalBinaryComplementAggregated, p))
    } else if tag == 2 {
        proof {
            assert forall|t: TransformView| transform_fits(t) && #[trigger] is_at(bytes@, pos as int, enc_transform(t)) implies t is Named
                && is_at(bytes@, p as int, enc_string(t->Named_0)) by {
                lemma_is_at_split(bytes@, pos as int, seq![2u8], enc_string(t->Named_0));
            }
        }
        let (name, q) = match read_string(bytes, p) {
            Ok(x) => x,
            Err(e) => {
                return Err(e);
            },
        };
        proof {
            lemma_is_at_join(bytes@, pos as int, seq![tag], enc_string(name@));
            assert(seq![tag] + enc_string(name@) =~= enc_transform(TransformView::Named(name@)));
        }
        Ok((PriorTransform::Named(name), q))
    } else {
        Err(ArtifactError::UnsupportedTag { what: "prior transformation", tag })
    }
}

/// Reads `n` transformations laid one after the other.
fn read_transforms(bytes: &[u8], pos: usize, n: usize) -> (r: Result<(Vec<PriorTransform>, usize), ArtifactError>)
    ensures
        r matches Ok((xs, p)) ==> xs@.len() == n && p == pos + enc_seq(transform_views(xs@), transform_fn()).len()
            && is_at(bytes@, pos as int, enc_seq(transform_views(xs@), transform_fn())) && forall|k: int|
            0 <= k < n ==> transform_fits(#[trigger] transform_views(xs@)[k]),
        forall|vs: Seq<TransformView>|
            vs.len() == n && (forall|k: int| 0 <= k < n ==> transform_fits(#[trigger] vs[k])) && #[trigger] is_at(
                bytes@,
                pos as int,
                enc_seq(vs, transform_fn()),
            ) ==> (r matches Ok((ys, p)) && transform_views(ys@) == vs),
{
    if pos > bytes.len() {
        return Err(ArtifactError::Truncated);
    }
    let mut out: Vec<PriorTransform> = Vec::new();
    let mut cur = pos;
    let mut i: usize = 0;
    proof {
        assert(transform_views(out@) =~= Seq::<TransformView>::empty());
        assert(bytes@.subrange(pos as int, pos as int) =~= Seq::<u8>::empty());
        assert forall|vs: Seq<TransformView>|
            vs.len() == n && (forall|k: int| 0 <= k < n ==> transform_fits(#[trigger] vs[k])) && #[trigger] is_at(
                bytes@,
                pos as int,
                enc_seq(vs, transform_fn()),
            ) implies transform_views(out@) == vs.take(0) by {
            assert(vs.take(0) =~= Seq::<TransformView>::empty());
        }
    }
    while i < n
        invariant
            i <= n,
            out@.len() == i,
            cur == pos + enc_seq(transform_views(out@), transform_fn()).len(),
            is_at(bytes@, pos as int, enc_seq(transform_views(out@), transform_fn())),
            forall|k: int| 0 <= k < i ==> transform_fits(#[trigger] transform_views(out@)[k]),
            forall|vs: Seq<TransformView>|
                vs.len() == n && (forall|k: int| 0 <= k < n ==> transform_fits(#[trigger] vs[k])) && #[trigger] is_at(
                    bytes@,
                    pos as int,
                    enc_seq(vs, transform_fn()),
                ) ==> transform_views(out@) == vs.take(i as int),
        decreases n - i,
    {
        let ghost before = transform_views(out@);
        proof {
            assert forall|vs: Seq<TransformView>|
                vs.len() == n && (forall|k: int| 0 <= k < n ==> transform_fits(#[trigger] vs[k])) && #[trigger] is_at(
                    bytes@,
                    pos as int,
                    enc_seq(vs, transform_fn()),
                ) implies is_at(bytes@, cur as int, enc_transform(vs[i as int])) && transform_fits(vs[i as int]) by {
                lemma_enc_seq_at(bytes@, pos as int, vs, transform_fn(), i as int);
            }
        }
        match read_transform(bytes, cur) {
            Ok((x, q)) => {
                let ghost xv = x@;
                proof {
                    lemma_enc_seq_extend(bytes@, pos as int, before, xv, transform_fn());
                    assert forall|vs: Seq<TransformView>|
                        vs.len() == n && (forall|k: int| 0 <= k < n ==> transform_fits(#[trigger] vs[k])) && #[trigger] is_at(
                            bytes@,
                            pos as int,
                            enc_seq(vs, transform_fn()),
                        ) implies before.push(xv) == vs.take(i + 1) by {
                        assert(vs.take(i + 1) =~= vs.take(i as int).push(vs[i as int]));
                    }
                }
                out.push(x);
                proof {
                    assert(transform_views(out@) =~= before.push(xv));
                }
                cur = q;
            },
            Err(e) => {
                return Err(e);
            },
        }
        i = i + 1;
    }
    proof {
        assert forall|vs: Seq<TransformView>|
            vs.len() == n && (forall|k: int| 0 <= k < n ==> transform_fits(#[trigger] vs[k])) && #[trigger] is_at(
                bytes@,
                pos as int,
                enc_seq(vs, transform_fn()),
            ) implies transform_views(out@) == vs by {
            assert(vs.take(n as int) =~= vs);
        }
    }
    Ok((out, cur))
}

fn read_opt_string(bytes: &[u8], pos: usize) -> (r: Result<(Option<String>, usize), ArtifactError>)
    ensures
        r matches Ok((o, p)) ==> p == pos + enc_opt_string(opt_chars(o)).len() && is_at(
            bytes@,
            pos as int,
            enc_opt_string(opt_chars(o)),
        ) && opt_string_fits(opt_chars(o)),
        forall|o: Option<Seq<char>>|
            opt_string_fits(o) && #[trigger] is_at(bytes@, pos as int, enc_opt_string(o)) ==> (r matches Ok((x, p))
                && opt_chars(x) == o),
{
    let (t, p) = match read_u8(bytes, pos) {
        Ok(x) => x,
        Err(e) => {
            proof {
                assert forall|o: Option<Seq<char>>| opt_string_fits(o) && #[trigger] is_at(bytes@, pos as int, enc_opt_string(o)) implies false by {
                    lemma_is_at_first(bytes@, pos as int, enc_opt_string(o));
                }
            }
            return Err(e);
        },
    };
    proof {
        lemma_is_at_one(bytes@, pos as int, t);
        assert forall|o: Option<Seq<char>>| opt_string_fits(o) && #[trigger] is_at(bytes@, pos as int, enc_opt_string(o)) implies t
            == enc_opt_string(o)[0] by {
            lemma_is_at_first(bytes@, pos as int, enc_opt_string(o));
        }
    }
    if t == 0 {
        proof {
            assert(seq![t] =~= enc_opt_string(None));
        }
        Ok((None, p))
    } else if t == 1 {
        proof {
            assert forall|o: Option<Seq<char>>| opt_string_fits(o) && #[trigger] is_at(bytes@, pos as int, enc_opt_string(o)) implies o is Some
                && is_at(bytes@, p as int, enc_string(o->0)) by {
                lemma_is_at_split(bytes@, pos as int, seq![1u8], enc_string(o->0));
            }
        }
        let (v, q) = match read_string(bytes, p) {
            Ok(x) => x,
            Err(e) => {
                return Err(e);
            },
        };
        proof {
            lemma_is_at_join(bytes@, pos as int, seq![t], enc_string(v@));
            assert(seq![t] + enc_string(v@) =~= enc_opt_string(Some(v@)));
        }
        Ok((Some(v), q))
    } else {
        Err(ArtifactError::UnsupportedTag { what: "external prior budget", tag: t })
    }
}

proof fn lemma_external_split(
    bytes: Seq<u8>,
    pos: int,
    m: Seq<char>,
    b: Seq<char>,
    o: Option<Seq<char>>,
    u: Seq<char>,
)
    requires
        is_at(bytes, pos + 1, enc_string(m) + (enc_string(b) + (enc_opt_string(o) + enc_string(u)))),
    ensures
        is_at(bytes, pos + 1, enc_string(m)),
        is_at(bytes, pos + 1 + enc_string(m).len(), enc_string(b)),
        is_at(bytes, pos + 1 + enc_string(m).len() + enc_string(b).len(), enc_opt_string(o)),
        is_at(
            bytes,
            pos + 1 + enc_string(m).len() + enc_string(b).len() + enc_opt_string(o).len(),
            enc_string(u),
        ),
{
    let t3 = enc_opt_string(o) + enc_string(u);
    let t2 = enc_string(b) + t3;
    lemma_is_at_split(bytes, pos + 1, enc_string(m), t2);
    lemma_is_at_split(bytes, pos + 1 + enc_string(m).len(), enc_string(b), t3);
    lemma_is_at_split(bytes, pos + 1 + enc_string(m).len() + enc_string(b).len(), enc_opt_string(o), enc_string(u));
}

proof fn lemma_external_join(
    bytes: Seq<u8>,
    pos: int,
    m: Seq<char>,
    b: Seq<char>,
    o: Option<Seq<char>>,
    u: Seq<char>,
)
    requires
        is_at(bytes, pos + 1, enc_string(m)),
        is_at(bytes, pos + 1 + enc_string(m).len(), enc_string(b)),
        is_at(bytes, pos + 1 + enc_string(m).len() + enc_string(b).len(), enc_opt_string(o)),
        is_at(
            bytes,
            pos + 1 + enc_string(m).len() + enc_string(b).len() + enc_opt_string(o).len(),
            enc_string(u),
        ),
    ensures
        is_at(bytes, pos + 1, enc_string(m) + (enc_string(b) + (enc_opt_string(o) + enc_string(u)))),
{
    lemma_is_at_join(bytes, pos + 1 + enc_string(m).len() + enc_string(b).len(), enc_opt_string(o), enc_string(u));
    let t3 = enc_opt_string(o) + enc_string(u);
    lemma_is_at_join(bytes, pos + 1 + enc_string(m).len(), enc_string(b), t3);
    let t2 = enc_string(b) + t3;
    lemma_is_at_join(bytes, pos + 1, enc_string(m), t2);
}

fn read_metadata(bytes: &[u8], pos: usize) -> (r: Result<(PriorMetadata, usize), ArtifactError>)
    ensures
        r matches Ok((x, p)) ==> p == pos + enc_metadata(x@).len() && is_at(bytes@, pos as int, enc_metadata(x@))
            && metadata_fits(x@),
        forall|mv: MetadataView|
            metadata_fits(mv) && #[trigger] is_at(bytes@, pos as int, enc_metadata(mv)) ==> (r matches Ok((x, p)) && x@
                == mv),
{
    let (t, p) = match read_u8(bytes, pos) {
        Ok(x) => x,
        Err(e) => {
            proof {
                assert forall|mv: MetadataView| metadata_fits(mv) && #[trigger] is_at(bytes@, pos as int, enc_metadata(mv)) implies false by {
                    lemma_is_at_first(bytes@, pos as int, enc_metadata(mv));
                }
            }
            return Err(e);
        },
    };
    proof {
        lemma_is_at_one(bytes@, pos as int, t);
        assert forall|mv: MetadataView| metadata_fits(mv) && #[trigger] is_at(bytes@, pos as int, enc_metadata(mv)) implies t
            == enc_metadata(mv)[0] by {
            lemma_is_at_first(bytes@, pos as int, enc_metadata(mv));
        }
    }
    if t == 0 {
        proof {
            assert forall|mv: MetadataView| metadata_fits(mv) && #[trigger] is_at(bytes@, pos as int, enc_metadata(mv)) implies mv is CanonicalCtmB9D12
                && is_at(bytes@, p as int, enc_string(mv->provenance)) by {
                lemma_is_at_split(bytes@, pos as int, seq![0u8], enc_string(mv->provenance));
            }
        }
        let (provenance, q) = match read_string(bytes, p) {
            Ok(x) => x,
            Err(e) => {
                return Err(e);
            },
        };
        let x = PriorMetadata::CanonicalCtmB9D12 { provenance };
        proof {
            lemma_is_at_join(bytes@, pos as int, seq![t], enc_string(x@->provenance));
            assert(seq![t] + enc_string(x@->provenance) =~= enc_metadata(x@));
        }
        Ok((x, q))
    } else if t == 2 {
        proof {
            assert forall|mv: MetadataView| metadata_fits(mv) && #[trigger] is_at(bytes@, pos as int, enc_metadata(mv)) implies mv is ExternalFinite
                && is_at(bytes@, p as int, enc_string(mv->model_identity)) && is_at(
                bytes@,
                p + enc_string(mv->model_identity).len(),
                enc_string(mv->builder_identity),
            ) && is_at(
                bytes@,
                p + enc_string(mv->model_identity).len() + enc_string(mv->builder_identity).len(),
                enc_opt_string(mv->budget),
            ) && is_at(
                bytes@,
                p + enc_string(mv->model_identity).len() + enc_string(mv->builder_identity).len() + enc_opt_string(
                    mv->budget,
                ).len(),
                enc_string(mv->uncertainty_note),
            ) by {
                let rest = enc_string(mv->model_identity) + (enc_string(mv->builder_identity) + (enc_opt_string(
                    mv->budget,
                ) + enc_string(mv->uncertainty_note)));
                lemma_is_at_split(bytes@, pos as int, seq![2u8], rest);
                lemma_external_split(
                    bytes@,
                    pos as int,
                    mv->model_identity,
                    mv->builder_identity,
                    mv->budget,
                    mv->uncertainty_note,
                );
            }
        }
        let (model_identity, p1) = match read_string(bytes, p) {
            Ok(x) => x,
            Err(e) => {
                return Err(e);
            },
        };
        let (builder_identity, p2) = match read_string(bytes, p1) {
            Ok(x) => x,
            Err(e) => {
                return Err(e);
            },
        };
        let (budget, p3) = match read_opt_string(bytes, p2) {
            Ok(x) => x,
            Err(e) => {
                return Err(e);
            },
        };
        let (uncertainty_note, p4) = match read_string(bytes, p3) {
            Ok(x) => x,
            Err(e) => {
                return Err(e);
            },
        };
        let x = PriorMetadata::ExternalFinite { model_identity, builder_identity, budget, uncertainty_note };
        proof {
            let xv = x@;
            lemma_external_join(
                bytes@,
                pos as int,
                xv->model_identity,
                xv->builder_identity,
                xv->budget,
                xv->uncertainty_note,
            );
            let rest = enc_string(xv->model_identity) + (enc_string(xv->builder_identity) + (enc_opt_string(
                xv->budget,
            ) + enc_string(xv->uncertainty_note)));
            lemma_is_at_join(bytes@, pos as int, seq![t], rest);
            assert(seq![t] + rest =~= enc_metadata(xv));
        }
        Ok((x, p4))
    } else {
        Err(ArtifactError::UnsupportedTag { what: "prior metadata", tag: t })
    }
}

/// `v` with the units of its scenarios written as in `raws`.
pub open spec fn raw_prior(v: PriorView, raws: Seq<Seq<u8>>) -> PriorView {
    PriorView {
        cardinality: v.cardinality,
        name: v.name,
        scenarios: with_units_seq(v.scenarios, raws),
        transformations: v.transformations,
        metadata: v.metadata,
        provenance: v.provenance,
    }
}

/// `v` as read from the encoding of `w`: the same prior, except that `w`
/// may write the units of a weight with leading zero bytes, which `v` drops.
pub open spec fn units_rewritten(w: PriorView, v: PriorView) -> bool {
    &&& w == raw_prior(v, units_of(w.scenarios))
    &&& forall|k: int| 0 <= k < v.scenarios.len() ==> (#[trigger] v.scenarios[k]).units == strip_zeros(w.scenarios[k].units)
}

pub open spec fn tail_fits(tv: Seq<TransformView>, mv: MetadataView, pv: Seq<ProvenanceView>) -> bool {
    &&& tv.len() <= u32::MAX
    &&& forall|k: int| 0 <= k < tv.len() ==> transform_fits(#[trigger] tv[k])
    &&& metadata_fits(mv)
    &&& pv.len() <= u32::MAX
    &&& all_strings_fit(prov_strings(pv))
}

proof fn lemma_tail_split(
    bytes: Seq<u8>,
    pos: int,
    tv: Seq<TransformView>,
    mv: MetadataView,
    pv: Seq<ProvenanceView>,
)
    requires
        is_at(bytes, pos, tail_bytes(tv, mv, pv)),
    ensures
        is_at(bytes, pos, be32(tv.len() as u32)),
        is_at(bytes, pos + 4, enc_seq(tv, transform_fn())),
        is_at(bytes, pos + 4 + enc_seq(tv, transform_fn()).len(), enc_metadata(mv)),
        is_at(bytes, pos + 4 + enc_seq(tv, transform_fn()).len() + enc_metadata(mv).len(), enc_provenance(pv)),
        tail_bytes(tv, mv, pv).len() == 4 + enc_seq(tv, transform_fn()).len() + enc_metadata(mv).len()
            + enc_provenance(pv).len(),
{
    let et = enc_seq(tv, transform_fn());
    let t3 = enc_metadata(mv) + enc_provenance(pv);
    lemma_is_at_split(bytes, pos, be32(tv.len() as u32), et + t3);
    lemma_is_at_split(bytes, pos + 4, et, t3);
    lemma_is_at_split(bytes, pos + 4 + et.len(), enc_metadata(mv), enc_provenance(pv));
}

/// Reads transformations, metadata and provenance, which must end the bytes.
fn parse_prior_tail(bytes: &[u8], pos: usize) -> (r: Result<
    (Vec<PriorTransform>, PriorMetadata, Vec<ProvenanceRecord>),
    ArtifactError,
>)
    ensures
        r matches Ok((ts, md, pr)) ==> {
            let tv = transform_views(ts@);
            let pv = pr@.map_values(|x: ProvenanceRecord| x@);
            &&& is_at(bytes@, pos as int, tail_bytes(tv, md@, pv))
            &&& pos + tail_bytes(tv, md@, pv).len() == bytes@.len()
            &&& tail_fits(tv, md@, pv)
        },
        forall|tv: Seq<TransformView>, mv: MetadataView, pv: Seq<ProvenanceView>|
            tail_fits(tv, mv, pv) && #[trigger] is_at(bytes@, pos as int, tail_bytes(tv, mv, pv)) && pos + tail_bytes(
                tv,
                mv,
                pv,
            ).len() == bytes@.len() ==> (r matches Ok((ts, md, pr)) && transform_views(ts@) == tv && md@ == mv
                && pr@.map_values(|x: ProvenanceRecord| x@) == pv),
{
    proof {
        assert forall|tv: Seq<TransformView>, mv: MetadataView, pv: Seq<ProvenanceView>|
            tail_fits(tv, mv, pv) && #[trigger] is_at(bytes@, pos as int, tail_bytes(tv, mv, pv)) implies is_at(
            bytes@,
            pos as int,
            be32(tv.len() as u32),
        ) && is_at(bytes@, pos + 4, enc_seq(tv, transform_fn())) && is_at(
            bytes@,
            pos + 4 + enc_seq(tv, transform_fn()).len(),
            enc_metadata(mv),
        ) && is_at(
            bytes@,
            pos + 4 + enc_seq(tv, transform_fn()).len() + enc_metadata(mv).len(),
            enc_provenance(pv),
        ) && tail_bytes(tv, mv, pv).len() == 4 + enc_seq(tv, transform_fn()).len() + enc_metadata(mv).len()
            + enc_provenance(pv).len() by {
            lemma_tail_split(bytes@, pos as int, tv, mv, pv);
        }
    }
    let (nts, p1) = match take_u32(bytes, pos) {
        Ok(x) => x,
        Err(e) => {
            return Err(e);
        },
    };
    let (transformations, p2) = match read_transforms(bytes, p1, nts as usize) {
        Ok(x) => x,
        Err(e) => {
            return Err(e);
        },
    };
    let (metadata, p3) = match read_metadata(bytes, p2) {
        Ok(x) => x,
        Err(e) => {
            return Err(e);
        },
    };
    let (provenance, p4) = match read_provenance(bytes, p3) {
        Ok(x) => x,
        Err(e) => {
            return Err(e);
        },
    };
    if p4 != bytes.len() {
        return Err(ArtifactError::TrailingBytes);
    }
    proof {
        let tv = transform_views(transformations@);
        let pv = provenance@.map_values(|x: ProvenanceRecord| x@);
        assert(tv.len() as u32 == nts);
        lemma_is_at_join(bytes@, p2 as int, enc_metadata(metadata@), enc_provenance(pv));
        lemma_is_at_join(bytes@, p1 as int, enc_seq(tv, transform_fn()), enc_metadata(metadata@) + enc_provenance(pv));
        lemma_is_at_join(
            bytes@,
            pos as int,
            be32(nts),
            enc_seq(tv, transform_fn()) + (enc_metadata(metadata@) + enc_provenance(pv)),
        );
    }
    Ok((transformations, metadata, provenance))
}

#[verifier::spinoff_prover]
#[verifier::rlimit(30)]
proof fn lemma_prior_split(bytes: Seq<u8>, v: PriorView)
    requires
        prior_bytes(v) == bytes,
    ensures
        bytes.take(8) == prior_magic(),
        is_at(bytes, 8int, be32(v.cardinality)),
        is_at(bytes, 12int, enc_string(v.name)),
        is_at(bytes, 12int + enc_string(v.name).len(), be32(v.scenarios.len() as u32)),
        is_at(bytes, 16int + enc_string(v.name).len(), enc_seq(v.scenarios, scenario_fn())),
        is_at(
            bytes,
            16int + enc_string(v.name).len() + enc_seq(v.scenarios, scenario_fn()).len(),
            tail_bytes(v.transformations, v.metadata, v.provenance),
        ),
        bytes.len() == 16int + enc_string(v.name).len() + enc_seq(v.scenarios, scenario_fn()).len() + tail_bytes(
            v.transformations,
            v.metadata,
            v.provenance,
        ).len(),
        with_units_seq(v.scenarios, units_of(v.scenarios)) == v.scenarios,
{
    let ln = enc_string(v.name).len();
    assert(bytes.subrange(0, bytes.len() as int) =~= bytes);
    assert(bytes.take(8) =~= bytes.subrange(0, 8));
    lemma_is_at_split(bytes, 0int, prior_magic(), be32(v.cardinality) + (enc_string(v.name) + prior_tail_scenarios(v)));
    lemma_is_at_split(bytes, 8int, be32(v.cardinality), enc_string(v.name) + prior_tail_scenarios(v));
    lemma_is_at_split(bytes, 12int, enc_string(v.name), prior_tail_scenarios(v));
    lemma_is_at_split(
        bytes,
        12int + ln,
        be32(v.scenarios.len() as u32),
        enc_seq(v.scenarios, scenario_fn()) + prior_tail_transforms(v),
    );
    lemma_is_at_split(bytes, 16int + ln, enc_seq(v.scenarios, scenario_fn()), prior_tail_transforms(v));
    assert(with_units_seq(v.scenarios, units_of(v.scenarios)) =~= v.scenarios);
}

proof fn lemma_prior_join(bytes: Seq<u8>, v: PriorView)
    requires
        bytes.take(8) == prior_magic(),
        is_at(bytes, 8int, be32(v.cardinality)),
        is_at(bytes, 12int, enc_string(v.name)),
        is_at(bytes, 12int + enc_string(v.name).len(), be32(v.scenarios.len() as u32)),
        is_at(bytes, 16int + enc_string(v.name).len(), enc_seq(v.scenarios, scenario_fn())),
        is_at(
            bytes,
            16int + enc_string(v.name).len() + enc_seq(v.scenarios, scenario_fn()).len(),
            tail_bytes(v.transformations, v.metadata, v.provenance),
        ),
        bytes.len() == 16int + enc_string(v.name).len() + enc_seq(v.scenarios, scenario_fn()).len() + tail_bytes(
            v.transformations,
            v.metadata,
            v.provenance,
        ).len(),
    ensures
        prior_bytes(v) == bytes,
{
    let ln = enc_string(v.name).len();
    lemma_is_at_join(bytes, 16int + ln, enc_seq(v.scenarios, scenario_fn()), prior_tail_transforms(v));
    lemma_is_at_join(
        bytes,
        12int + ln,
        be32(v.scenarios.len() as u32),
        enc_seq(v.scenarios, scenario_fn()) + prior_tail_transforms(v),
    );
    lemma_is_at_join(bytes, 12int, enc_string(v.name), prior_tail_scenarios(v));
    lemma_is_at_join(bytes, 8int, be32(v.cardinality), enc_string(v.name) + prior_tail_scenarios(v));
    assert(bytes.take(8) =~= bytes.subrange(0, 8));
    lemma_is_at_join(bytes, 0int, prior_magic(), be32(v.cardinality) + (enc_string(v.name) + prior_tail_scenarios(v)));
    assert(bytes.subrange(0, bytes.len() as int) =~= bytes);
}

/// Reads every field of a prior and nothing after them; the units of each
/// weight come back without leading zero bytes.
fn parse_prior(bytes: &[u8]) -> (r: Result<(PriorArtifact, Ghost<Seq<Seq<u8>>>), ArtifactError>)
    ensures
        bytes@.len() < 8 ==> r == Err::<(PriorArtifact, Ghost<Seq<Seq<u8>>>), ArtifactError>(
            ArtifactError::Truncated,
        ),
        bytes@.len() >= 8 && bytes@.take(8) != prior_magic() ==> r == Err::<
            (PriorArtifact, Ghost<Seq<Seq<u8>>>),
            ArtifactError,
        >(ArtifactError::BadMagic),
        r matches Ok((p, raws)) ==> prior_bytes(raw_prior(p@, raws@)) == bytes@ && raws@.len() == p@.scenarios.len()
            && forall|k: int| 0 <= k < p@.scenarios.len() ==> (#[trigger] p@.scenarios[k]).units == strip_zeros(raws@[k]),
        forall|v: PriorView|
            prior_encodable(v) && (forall|k: int| 0 <= k < v.scenarios.len() ==> units_ok(#[trigger] v.scenarios[k].units))
                && #[trigger] prior_bytes(v) == bytes@ ==> (r matches Ok((p, raws)) && p@ == v),
{
    let magic: [u8; 8] = [84u8, 69u8, 67u8, 65u8, 80u8, 82u8, 48u8, 50u8];
    proof {
        assert(magic@ =~= prior_magic());
        assert forall|v: PriorView|
            prior_encodable(v) && (forall|k: int| 0 <= k < v.scenarios.len() ==> units_ok(#[trigger] v.scenarios[k].units))
                && #[trigger] prior_bytes(v) == bytes@ implies {
            &&& bytes@.take(8) == prior_magic()
            &&& is_at(bytes@, 8int, be32(v.cardinality))
            &&& is_at(bytes@, 12int, enc_string(v.name))
            &&& is_at(bytes@, 12int + enc_string(v.name).len(), be32(v.scenarios.len() as u32))
            &&& is_at(bytes@, 16int + enc_string(v.name).len(), enc_seq(v.scenarios, scenario_fn()))
            &&& is_at(
                bytes@,
                16int + enc_string(v.name).len() + enc_seq(v.scenarios, scenario_fn()).len(),
                tail_bytes(v.transformations, v.metadata, v.provenance),
            )
            &&& bytes@.len() == 16int + enc_string(v.name).len() + enc_seq(v.scenarios, scenario_fn()).len()
                + tail_bytes(v.transformations, v.metadata, v.provenance).len()
            &&& with_units_seq(v.scenarios, units_of(v.scenarios)) == v.scenarios
        } by {
            lemma_prior_split(bytes@, v);
        }
    }
    match check_magic(bytes, &magic) {
        Ok(()) => {},
        Err(e) => {
            return Err(e);
        },
    }
    let (cardinality, p1) = match take_u32(bytes, 8) {
        Ok(x) => x,
        Err(e) => {
            return Err(e);
        },
    };
    let (name, p2) = match read_string(bytes, p1) {
        Ok(x) => x,
        Err(e) => {
            return Err(e);
        },
    };
    let (nsc, p3) = match take_u32(bytes, p2) {
        Ok(x) => x,
        Err(e) => {
            return Err(e);
        },
    };
    let (scenarios, raws, p4) = match read_scenarios(bytes, p3, nsc as usize) {
        Ok(x) => x,
        Err(e) => {
            return Err(e);
        },
    };
    let (transformations, metadata, provenance) = match parse_prior_tail(bytes, p4) {
        Ok(x) => x,
        Err(e) => {
            return Err(e);
        },
    };
    let prior = PriorArtifact {
        symbol_space: SymbolSpace { cardinality, name },
        scenarios,
        transformations,
        metadata,
        provenance,
    };
    proof {
        let pv = prior@;
        assert(pv.scenarios == scenario_views(prior.scenarios@));
        assert(pv.transformations == transform_views(prior.transformations@));
        assert(pv.provenance =~= prior.provenance@.map_values(|x: ProvenanceRecord| x@));
        let w = raw_prior(pv, raws@);
        assert(w.scenarios.len() as u32 == nsc);
        lemma_prior_join(bytes@, w);
    }
    Ok((prior, raws))
}

/// Parses a prior and checks it.
pub fn decode_prior(bytes: &[u8]) -> (r: Result<PriorArtifact, ArtifactError>)
    ensures
        bytes@.len() < 8 ==> r == Err::<PriorArtifact, ArtifactError>(ArtifactError::Truncated),
        bytes@.len() >= 8 && bytes@.take(8) != prior_magic() ==> r == Err::<PriorArtifact, ArtifactError>(
            ArtifactError::BadMagic,
        ),
        r matches Ok(p) ==> prior_ok(p@) && exists|w: PriorView| #[trigger] prior_bytes(w) == bytes@ && units_rewritten(
            w,
            p@,
        ),
        forall|v: PriorView| prior_ok(v) && prior_encodable(v) && #[trigger] prior_bytes(v) == bytes@ ==> (r matches Ok(
            p,
        ) && p@ == v),
{
    proof {
        reveal(prior_ok);
    }
    let (prior, raws) = match parse_prior(bytes) {
        Ok(x) => x,
        Err(e) => {
            return Err(e);
        },
    };
    match validate_prior(&prior) {
        Ok(()) => {},
        Err(e) => {
            return Err(e);
        },
    }
    proof {
        let w = raw_prior(prior@, raws@);
        assert(units_of(w.scenarios) =~= raws@);
        assert(units_rewritten(w, prior@));
    }
    Ok(prior)
}

} // verus!
