//! The canonical CTM-B9-D12 pair prior: shaping weighted pairs into a prior,
//! and reading the fixed-width table it is shipped as.
use crate::neighborhood::copy_bytes;
use crate::prior::{
    MetadataView, PriorArtifact, PriorMetadata, PriorTransform, PriorView, ProvenanceRecord, ProvenanceView, Scenario,
    ScenarioView, SymbolSpace, TransformView, WeightExpr,
};
use crate::prior_bytes::{
    lemma_symbols_irreflexive, lemma_symbols_total, lemma_symbols_transitive, pair_lt, strip_zeros, symbols_equal,
    symbols_less, symbols_lt, units_from_raw, units_ok,
};
use crate::scheme_bytes::{be_value, units_canonical};
use vstd::prelude::*;

verus! {

/// File name under which the canonical table is shipped.
pub const CANONICAL_B9_FILENAME: &'static str = "ctm-b9-d12-pair-prior-fp96-v1.bin";

/// Why a canonical table was refused.
#[derive(Debug)]
pub enum CtmError {
    Invalid(&'static str),
}

// ---------------------------------------------------------------------------
// Numbers as big-endian bytes
// ---------------------------------------------------------------------------

/// `BigUint::from_bytes_be(a).is_zero()`: whether the number that the
/// big-endian bytes `a` spell is zero.
#[verifier::external_body]
pub(crate) fn biguint_is_zero(a: &[u8]) -> (r: bool)
    ensures
        r == (be_value(a@) == 0),
{
    num_traits::Zero::is_zero(&num_bigint::BigUint::from_bytes_be(a))
}

/// `BigUint::from_bytes_be(a) + BigUint::from_bytes_be(b)`, written back
/// with `to_bytes_be`: big-endian bytes of the sum of the two numbers.
#[verifier::external_body]
pub(crate) fn biguint_add(a: &[u8], b: &[u8]) -> (r: Vec<u8>)
    ensures
        be_value(r@) == be_value(a@) + be_value(b@),
{
    (num_bigint::BigUint::from_bytes_be(a) + num_bigint::BigUint::from_bytes_be(b)).to_bytes_be()
}

proof fn lemma_be_value_zero_front(s: Seq<u8>)
    ensures
        be_value(seq![0u8] + s) == be_value(s),
    decreases s.len(),
{
    let t = seq![0u8] + s;
    if s.len() > 0 {
        lemma_be_value_zero_front(s.drop_last());
        assert(t.drop_last() =~= seq![0u8] + s.drop_last());
        assert(t.last() == s.last());
        assert(be_value(t) == be_value(t.drop_last()) * 256 + t.last() as nat);
    } else {
        assert(t.drop_last() =~= Seq::<u8>::empty());
        assert(be_value(t) == be_value(t.drop_last()) * 256 + t.last() as nat);
    }
}

/// Dropping leading zero bytes keeps the number.
proof fn lemma_strip_value(b: Seq<u8>)
    ensures
        be_value(strip_zeros(b)) == be_value(b),
    decreases b.len(),
{
    if b.len() > 0 && b[0] == 0 {
        lemma_strip_value(b.drop_first());
        assert(b =~= seq![0u8] + b.drop_first());
        lemma_be_value_zero_front(b.drop_first());
    }
}

proof fn lemma_strip_head(b: Seq<u8>)
    ensures
        strip_zeros(b).len() > 0 ==> strip_zeros(b)[0] != 0,
    decreases b.len(),
{
    if b.len() > 0 && b[0] == 0 {
        lemma_strip_head(b.drop_first());
    }
}

/// The canonical units of a number given as big-endian bytes: no leading
/// zero byte, zero as the empty string.
pub(crate) fn canonical_units_of(raw: &[u8]) -> (r: Vec<u8>)
    ensures
        units_canonical(r@),
        be_value(r@) == be_value(raw@),
{
    let r = units_from_raw(raw);
    proof {
        lemma_strip_value(raw@);
        lemma_strip_head(raw@);
    }
    r
}

/// The units of a nonzero number given as big-endian bytes.
fn nonzero_units(raw: &[u8]) -> (r: Vec<u8>)
    requires
        be_value(raw@) > 0,
    ensures
        units_ok(r@),
        be_value(r@) == be_value(raw@),
{
    let r = units_from_raw(raw);
    proof {
        lemma_strip_value(raw@);
        lemma_strip_head(raw@);
    }
    r
}

// ---------------------------------------------------------------------------
// Shaping weighted pairs into a prior
// ---------------------------------------------------------------------------

/// A weighted pair as plain values.
pub open spec fn triple_view(x: (Vec<u32>, Vec<u32>, Vec<u8>)) -> (Seq<u32>, Seq<u32>, Seq<u8>) {
    (x.0@, x.1@, x.2@)
}

pub open spec fn triples_view(xs: Seq<(Vec<u32>, Vec<u32>, Vec<u8>)>) -> Seq<(Seq<u32>, Seq<u32>, Seq<u8>)> {
    xs.map_values(|x: (Vec<u32>, Vec<u32>, Vec<u8>)| triple_view(x))
}

/// `(l, r)` with the smaller string first.
pub open spec fn canon_pair(l: Seq<u32>, r: Seq<u32>) -> (Seq<u32>, Seq<u32>) {
    if symbols_lt(r, l) {
        (r, l)
    } else {
        (l, r)
    }
}

/// Whether a weighted pair contributes: two different strings, nonzero
/// mass.
pub open spec fn counts(x: (Seq<u32>, Seq<u32>, Seq<u8>)) -> bool {
    x.0 != x.1 && be_value(x.2) > 0
}

/// Total mass of the pairs whose canonical form is `(l, r)`.
pub open spec fn pair_mass(xs: Seq<(Seq<u32>, Seq<u32>, Seq<u8>)>, l: Seq<u32>, r: Seq<u32>) -> nat
    decreases xs.len(),
{
    if xs.len() == 0 {
        0
    } else {
        let x = xs.last();
        pair_mass(xs.drop_last(), l, r) + if x.0 != x.1 && canon_pair(x.0, x.1) == (l, r) {
            be_value(x.2)
        } else {
            0
        }
    }
}

/// Strict pair order on plain pairs.
pub open spec fn pairs_lt(a: (Seq<u32>, Seq<u32>), b: (Seq<u32>, Seq<u32>)) -> bool {
    symbols_lt(a.0, b.0) || (a.0 == b.0 && symbols_lt(a.1, b.1))
}

/// Scenarios of the prior shaped from `xs`: in strict pair order, each a
/// pair in canonical order with nonzero canonical units holding the total
/// mass of its pair at scale `bits`, and every contributing pair present.
pub open spec fn shaped_from(
    sc: Seq<ScenarioView>,
    xs: Seq<(Seq<u32>, Seq<u32>, Seq<u8>)>,
    bits: u32,
) -> bool {
    &&& forall|a: int, b: int|
        0 <= a < b < sc.len() ==> pair_lt(#[trigger] sc[a], #[trigger] sc[b])
    &&& forall|a: int|
        0 <= a < sc.len() ==> {
            let s = #[trigger] sc[a];
            &&& symbols_lt(s.left, s.right)
            &&& units_ok(s.units)
            &&& be_value(s.units) == pair_mass(xs, s.left, s.right)
            &&& s.fractional_bits == bits
        }
    &&& forall|k: int|
        0 <= k < xs.len() && counts(#[trigger] xs[k]) ==> exists|a: int|
            0 <= a < sc.len() && (#[trigger] sc[a].left, sc[a].right) == canon_pair(xs[k].0, xs[k].1)
}

proof fn lemma_pairs_transitive(a: (Seq<u32>, Seq<u32>), b: (Seq<u32>, Seq<u32>), c: (Seq<u32>, Seq<u32>))
    requires
        pairs_lt(a, b),
        pairs_lt(b, c),
    ensures
        pairs_lt(a, c),
{
    if symbols_lt(a.0, b.0) && symbols_lt(b.0, c.0) {
        lemma_symbols_transitive(a.0, b.0, c.0);
    } else if symbols_lt(a.1, b.1) && symbols_lt(b.1, c.1) {
        lemma_symbols_transitive(a.1, b.1, c.1);
    }
}

proof fn lemma_pairs_total(a: (Seq<u32>, Seq<u32>), b: (Seq<u32>, Seq<u32>))
    requires
        a != b,
    ensures
        pairs_lt(a, b) || pairs_lt(b, a),
{
    if a.0 != b.0 {
        lemma_symbols_total(a.0, b.0);
    } else {
        if a.1 == b.1 {
            assert(a == b);
        }
        lemma_symbols_total(a.1, b.1);
    }
}

proof fn lemma_pairs_irreflexive(a: (Seq<u32>, Seq<u32>))
    ensures
        !pairs_lt(a, a),
{
    lemma_symbols_irreflexive(a.0);
    lemma_symbols_irreflexive(a.1);
}

/// One row of the aggregation: a canonical pair and its total units.
struct PairRow {
    left: Vec<u32>,
    right: Vec<u32>,
    units: Vec<u8>,
}

spec fn row_pair(r: PairRow) -> (Seq<u32>, Seq<u32>) {
    (r.left@, r.right@)
}

spec fn rows_sorted(rows: Seq<PairRow>) -> bool {
    forall|a: int, b: int| 0 <= a < b < rows.len() ==> pairs_lt(row_pair(#[trigger] rows[a]), row_pair(#[trigger] rows[b]))
}

fn pairs_less(a: &[u32], b: &[u32], c: &[u32], d: &[u32]) -> (r: bool)
    ensures
        r == pairs_lt((a@, b@), (c@, d@)),
{
    symbols_less(a, c) || (symbols_equal(a, c) && symbols_less(b, d))
}

/// Where the pair `(l, r)` is, or would go, among sorted rows.
fn locate(rows: &Vec<PairRow>, l: &[u32], r: &[u32]) -> (res: (usize, bool))
    requires
        rows_sorted(rows@),
    ensures
        res.0 <= rows@.len(),
        res.1 ==> res.0 < rows@.len() && row_pair(rows@[res.0 as int]) == (l@, r@),
        !res.1 ==> forall|a: int| 0 <= a < rows@.len() ==> (#[trigger] row_pair(rows@[a])) != (l@, r@),
        !res.1 ==> forall|a: int| 0 <= a < res.0 ==> pairs_lt(#[trigger] row_pair(rows@[a]), (l@, r@)),
        !res.1 ==> forall|a: int| res.0 <= a < rows@.len() ==> pairs_lt((l@, r@), #[trigger] row_pair(rows@[a])),
{
    let mut p: usize = 0;
    while p < rows.len() && pairs_less(rows[p].left.as_slice(), rows[p].right.as_slice(), l, r)
        invariant
            rows_sorted(rows@),
            p <= rows@.len(),
            forall|a: int| 0 <= a < p ==> pairs_lt(#[trigger] row_pair(rows@[a]), (l@, r@)),
        decreases rows@.len() - p,
    {
        p = p + 1;
    }
    if p < rows.len() && symbols_equal(rows[p].left.as_slice(), l) && symbols_equal(rows[p].right.as_slice(), r) {
        return (p, true);
    }
    proof {
        let x = (l@, r@);
        if p < rows@.len() {
            assert(!pairs_lt(row_pair(rows@[p as int]), x));
            assert(row_pair(rows@[p as int]) != x);
            lemma_pairs_total(row_pair(rows@[p as int]), x);
            assert forall|a: int| p <= a < rows@.len() implies pairs_lt(x, #[trigger] row_pair(rows@[a])) by {
                if a > p {
                    assert(pairs_lt(row_pair(rows@[p as int]), row_pair(rows@[a])));
                    lemma_pairs_transitive(x, row_pair(rows@[p as int]), row_pair(rows@[a]));
                }
            }
        }
        assert forall|a: int| 0 <= a < rows@.len() implies (#[trigger] row_pair(rows@[a])) != x by {
            if a < p {
                if row_pair(rows@[a]) == x {
                    lemma_pairs_irreflexive(x);
                }
            } else {
                if row_pair(rows@[a]) == x {
                    lemma_pairs_irreflexive(x);
                }
            }
        }
    }
    (p, false)
}

proof fn lemma_mass_zero(xs: Seq<(Seq<u32>, Seq<u32>, Seq<u8>)>, l: Seq<u32>, r: Seq<u32>)
    requires
        forall|k: int| 0 <= k < xs.len() ==> !(counts(#[trigger] xs[k]) && canon_pair(xs[k].0, xs[k].1) == (l, r)),
    ensures
        pair_mass(xs, l, r) == 0,
    decreases xs.len(),
{
    if xs.len() > 0 {
        let d = xs.drop_last();
        assert forall|k: int| 0 <= k < d.len() implies !(counts(#[trigger] d[k]) && canon_pair(d[k].0, d[k].1) == (
        l,
        r,
        )) by {
            assert(d[k] == xs[k]);
        }
        lemma_mass_zero(d, l, r);
        assert(!(counts(xs[xs.len() - 1]) && canon_pair(xs.last().0, xs.last().1) == (l, r)));
    }
}

fn copy_symbols(v: &[u32]) -> (r: Vec<u32>)
    ensures
        r@ == v@,
{
    vstd::slice::slice_to_vec(v)
}

/// Aggregation of the weighted pairs: rows in strict pair order, each with
/// its total units.
spec fn rows_ok(rows: Seq<PairRow>, xs: Seq<(Seq<u32>, Seq<u32>, Seq<u8>)>, i: int) -> bool {
    &&& rows_sorted(rows)
    &&& forall|a: int|
        0 <= a < rows.len() ==> {
            let w = #[trigger] rows[a];
            &&& symbols_lt(w.left@, w.right@)
            &&& units_ok(w.units@)
            &&& be_value(w.units@) == pair_mass(xs.take(i), w.left@, w.right@)
        }
    &&& forall|k: int|
        0 <= k < i && counts(#[trigger] xs[k]) ==> exists|a: int|
            0 <= a < rows.len() && #[trigger] row_pair(rows[a]) == canon_pair(xs[k].0, xs[k].1)
}

fn aggregate(scenarios: &Vec<(Vec<u32>, Vec<u32>, Vec<u8>)>) -> (rows: Vec<PairRow>)
    ensures
        rows_ok(rows@, triples_view(scenarios@), scenarios@.len() as int),
{
    let ghost xs = triples_view(scenarios@);
    let mut rows: Vec<PairRow> = Vec::new();
    let mut i: usize = 0;
    while i < scenarios.len()
        invariant
            xs == triples_view(scenarios@),
            i <= scenarios@.len(),
            rows_ok(rows@, xs, i as int),
        decreases scenarios@.len() - i,
    {
        let x = &scenarios[i];
        let ghost xv = xs[i as int];
        proof {
            assert(xv == triple_view(*x));
            assert(xs.take(i + 1).drop_last() =~= xs.take(i as int));
            assert(xs.take(i + 1).last() == xv);
        }
        let skip = biguint_is_zero(x.2.as_slice()) || symbols_equal(x.0.as_slice(), x.1.as_slice());
        if skip {
            proof {
                assert forall|a: int| 0 <= a < rows@.len() implies be_value((#[trigger] rows@[a]).units@) == pair_mass(
                    xs.take(i + 1),
                    rows@[a].left@,
                    rows@[a].right@,
                ) by {}
                assert forall|k: int| 0 <= k < i + 1 && counts(#[trigger] xs[k]) implies exists|a: int|
                    0 <= a < rows@.len() && #[trigger] row_pair(rows@[a]) == canon_pair(xs[k].0, xs[k].1) by {}
            }
        } else {
            let swap = symbols_less(x.1.as_slice(), x.0.as_slice());
            let (l, r) = if swap {
                (x.1.as_slice(), x.0.as_slice())
            } else {
                (x.0.as_slice(), x.1.as_slice())
            };
            proof {
                assert((l@, r@) == canon_pair(xv.0, xv.1));
                if !swap {
                    lemma_symbols_total(xv.0, xv.1);
                }
                assert(symbols_lt(l@, r@));
                assert(counts(xv));
            }
            let ghost rows0 = rows@;
            let (p, found) = locate(&rows, l, r);
            if found {
                let sum = biguint_add(rows[p].units.as_slice(), x.2.as_slice());
                let units = nonzero_units(sum.as_slice());
                let row = PairRow { left: copy_symbols(rows[p].left.as_slice()), right: copy_symbols(rows[p].right.as_slice()), units };
                rows.set(p, row);
                proof {
                    assert(row_pair(rows@[p as int]) == row_pair(rows0[p as int]));
                    assert forall|a: int, b: int| 0 <= a < b < rows@.len() implies pairs_lt(
                        row_pair(#[trigger] rows@[a]),
                        row_pair(#[trigger] rows@[b]),
                    ) by {
                        assert(row_pair(rows@[a]) == row_pair(rows0[a]));
                        assert(row_pair(rows@[b]) == row_pair(rows0[b]));
                    }
                    assert forall|a: int| 0 <= a < rows@.len() implies {
                        let w = #[trigger] rows@[a];
                        &&& symbols_lt(w.left@, w.right@)
                        &&& units_ok(w.units@)
                        &&& be_value(w.units@) == pair_mass(xs.take(i + 1), w.left@, w.right@)
                    } by {
                        if a != p {
                            assert(rows@[a] == rows0[a]);
                            if row_pair(rows0[a]) == (l@, r@) {
                                lemma_pairs_irreflexive(row_pair(rows0[a]));
                                if a < p {
                                    assert(pairs_lt(row_pair(rows0[a]), row_pair(rows0[p as int])));
                                } else {
                                    assert(pairs_lt(row_pair(rows0[p as int]), row_pair(rows0[a])));
                                }
                            }
                        }
                    }
                    assert forall|k: int| 0 <= k < i + 1 && counts(#[trigger] xs[k]) implies exists|a: int|
                        0 <= a < rows@.len() && #[trigger] row_pair(rows@[a]) == canon_pair(xs[k].0, xs[k].1) by {
                        if k < i {
                            let a = choose|a: int| 0 <= a < rows0.len() && #[trigger] row_pair(rows0[a]) == canon_pair(xs[k].0, xs[k].1);
                            assert(row_pair(rows@[a]) == row_pair(rows0[a]));
                        } else {
                            assert(row_pair(rows@[p as int]) == canon_pair(xs[k].0, xs[k].1));
                        }
                    }
                }
            } else {
                let units = nonzero_units(x.2.as_slice());
                let row = PairRow { left: copy_symbols(l), right: copy_symbols(r), units };
                proof {
                    assert forall|k: int| 0 <= k < xs.take(i as int).len() implies !(counts(#[trigger] xs.take(i as int)[k])
                        && canon_pair(xs.take(i as int)[k].0, xs.take(i as int)[k].1) == (l@, r@)) by {
                        assert(xs.take(i as int)[k] == xs[k]);
                        if counts(xs[k]) && canon_pair(xs[k].0, xs[k].1) == (l@, r@) {
                            let a = choose|a: int| 0 <= a < rows0.len() && #[trigger] row_pair(rows0[a]) == canon_pair(xs[k].0, xs[k].1);
                        }
                    }
                    lemma_mass_zero(xs.take(i as int), l@, r@);
                }
                rows.insert(p, row);
                proof {
                    assert forall|a: int| 0 <= a < rows@.len() implies #[trigger] rows@[a] == (if a < p {
                        rows0[a]
                    } else if a == p {
                        rows@[p as int]
                    } else {
                        rows0[a - 1]
                    }) by {}
                    assert forall|a: int, b: int| 0 <= a < b < rows@.len() implies pairs_lt(
                        row_pair(#[trigger] rows@[a]),
                        row_pair(#[trigger] rows@[b]),
                    ) by {
                        if b < p {
                        } else if b == p {
                            assert(pairs_lt(row_pair(rows0[a]), (l@, r@)));
                        } else if a < p {
                            assert(pairs_lt(row_pair(rows0[a]), (l@, r@)));
                            assert(pairs_lt((l@, r@), row_pair(rows0[b - 1])));
                            lemma_pairs_transitive(row_pair(rows0[a]), (l@, r@), row_pair(rows0[b - 1]));
                        } else if a == p {
                            assert(pairs_lt((l@, r@), row_pair(rows0[b - 1])));
                        } else {
                            assert(pairs_lt(row_pair(rows0[a - 1]), row_pair(rows0[b - 1])));
                        }
                    }
                    assert forall|a: int| 0 <= a < rows@.len() implies {
                        let w = #[trigger] rows@[a];
                        &&& symbols_lt(w.left@, w.right@)
                        &&& units_ok(w.units@)
                        &&& be_value(w.units@) == pair_mass(xs.take(i + 1), w.left@, w.right@)
                    } by {
                        if a != p {
                            let o = if a < p {
                                a
                            } else {
                                a - 1
                            };
                            assert(rows@[a] == rows0[o]);
                            assert(row_pair(rows0[o]) != (l@, r@));
                        }
                    }
                    assert forall|k: int| 0 <= k < i + 1 && counts(#[trigger] xs[k]) implies exists|a: int|
                        0 <= a < rows@.len() && #[trigger] row_pair(rows@[a]) == canon_pair(xs[k].0, xs[k].1) by {
                        if k < i {
                            let a = choose|a: int| 0 <= a < rows0.len() && #[trigger] row_pair(rows0[a]) == canon_pair(xs[k].0, xs[k].1);
                            if a < p {
                                assert(rows@[a] == rows0[a]);
                            } else {
                                assert(rows@[a + 1] == rows0[a]);
                            }
                        } else {
                            assert(row_pair(rows@[p as int]) == canon_pair(xs[k].0, xs[k].1));
                        }
                    }
                }
            }
        }
        i = i + 1;
    }
    proof {
        assert(xs.take(scenarios@.len() as int) =~= xs);
    }
    rows
}

/// A prior built from weighted pairs in the canonical CTM-B9 shape: the
/// nine-symbol space, its transformation and provenance, metadata naming
/// `provenance`, and scenarios shaped from `xs` at scale `bits`.
pub open spec fn ctm_prior(
    p: PriorView,
    xs: Seq<(Seq<u32>, Seq<u32>, Seq<u8>)>,
    bits: u32,
    provenance: Seq<char>,
) -> bool {
    &&& p.cardinality == 9
    &&& p.name == "CTM-B9"@
    &&& shaped_from(p.scenarios, xs, bits)
    &&& p.transformations == seq![TransformView::PairOrderCanonicalized]
    &&& p.metadata == (MetadataView::CanonicalCtmB9D12 { provenance })
    &&& p.provenance == seq![
        ProvenanceView {
            name: "CTM-B9-D12"@,
            source: "pybdm CTM-B9-D12 direct joint 6+6 table"@,
            license: "MIT (pybdm source package)"@,
        },
    ]
}

/// The canonical CTM-B9 prior of weighted pairs: pairs of equal strings and
/// pairs of zero mass are dropped, each pair is put in canonical order, and
/// the masses of equal pairs are added up.
pub fn from_fixed_point_scenarios(
    scenarios: Vec<(Vec<u32>, Vec<u32>, Vec<u8>)>,
    fractional_bits: u32,
    provenance: String,
) -> (p: PriorArtifact)
    ensures
        ctm_prior(p@, triples_view(scenarios@), fractional_bits, provenance@),
{
    let ghost xs = triples_view(scenarios@);
    let rows = aggregate(&scenarios);
    proof {
        assert(xs.take(xs.len() as int) =~= xs);
    }
    let mut out: Vec<Scenario> = Vec::new();
    let mut j: usize = 0;
    while j < rows.len()
        invariant
            rows_ok(rows@, xs, xs.len() as int),
            xs.take(xs.len() as int) == xs,
            j <= rows@.len(),
            out@.len() == j,
            forall|a: int|
                0 <= a < j ==> (#[trigger] out@[a])@ == (ScenarioView {
                    left: rows@[a].left@,
                    right: rows@[a].right@,
                    units: rows@[a].units@,
                    fractional_bits,
                }),
        decreases rows@.len() - j,
    {
        let row = &rows[j];
        let sc = Scenario {
            left: copy_symbols(row.left.as_slice()),
            right: copy_symbols(row.right.as_slice()),
            weight: WeightExpr::FixedPoint { units: copy_bytes(row.units.as_slice()), fractional_bits },
        };
        out.push(sc);
        j = j + 1;
    }
    let p = PriorArtifact {
        symbol_space: SymbolSpace { cardinality: 9, name: "CTM-B9".to_owned() },
        scenarios: out,
        transformations: vec![PriorTransform::PairOrderCanonicalized],
        metadata: PriorMetadata::CanonicalCtmB9D12 { provenance },
        provenance: vec![
            ProvenanceRecord {
                name: "CTM-B9-D12".to_owned(),
                source: "pybdm CTM-B9-D12 direct joint 6+6 table".to_owned(),
                license: "MIT (pybdm source package)".to_owned(),
            },
        ],
    };
    proof {
        let sc = p@.scenarios;
        assert(sc.len() == rows@.len());
        assert forall|a: int| 0 <= a < sc.len() implies #[trigger] sc[a] == (ScenarioView {
            left: rows@[a].left@,
            right: rows@[a].right@,
            units: rows@[a].units@,
            fractional_bits,
        }) by {}
        assert forall|a: int, b: int| 0 <= a < b < sc.len() implies pair_lt(#[trigger] sc[a], #[trigger] sc[b]) by {
            assert(pairs_lt(row_pair(rows@[a]), row_pair(rows@[b])));
        }
        assert forall|k: int| 0 <= k < xs.len() && counts(#[trigger] xs[k]) implies exists|a: int|
            0 <= a < sc.len() && (#[trigger] sc[a].left, sc[a].right) == canon_pair(xs[k].0, xs[k].1) by {
            let a = choose|a: int| 0 <= a < rows@.len() && #[trigger] row_pair(rows@[a]) == canon_pair(xs[k].0, xs[k].1);
            assert(sc[a].left == rows@[a].left@);
        }
        assert(p@.transformations =~= seq![TransformView::PairOrderCanonicalized]);
        assert(shaped_from(sc, xs, fractional_bits));
        assert(p@.provenance =~= seq![
            ProvenanceView {
                name: "CTM-B9-D12"@,
                source: "pybdm CTM-B9-D12 direct joint 6+6 table"@,
                license: "MIT (pybdm source package)"@,
            },
        ]);
        assert(p@.metadata == (MetadataView::CanonicalCtmB9D12 { provenance: provenance@ }));
        assert(p@.name == "CTM-B9"@);
    }
    p
}

// ---------------------------------------------------------------------------
// The canonical table file
// ---------------------------------------------------------------------------

/// The base-9 digits of `value`, most significant first, in exactly `width`
/// places (higher digits dropped).
pub open spec fn base9(value: nat, width: nat) -> Seq<u32>
    decreases width,
{
    if width == 0 {
        Seq::empty()
    } else {
        base9(value / 9, (width - 1) as nat).push((value % 9) as u32)
    }
}

fn digits(value: u32, width: usize) -> (r: Vec<u32>)
    ensures
        r@ == base9(value as nat, width as nat),
    decreases width,
{
    if width == 0 {
        Vec::new()
    } else {
        let mut d = digits(value / 9, width - 1);
        d.push(value % 9);
        d
    }
}

/// The unsigned big-endian number in `b[pos..pos + n]`.
pub open spec fn field(b: Seq<u8>, pos: int, n: int) -> nat {
    be_value(b.subrange(pos, pos + n))
}

proof fn lemma_be_value_bound(s: Seq<u8>)
    ensures
        be_value(s) < vstd::arithmetic::power::pow(256, s.len()),
    decreases s.len(),
{
    vstd::arithmetic::power::lemma_pow_positive(256, s.len());
    if s.len() > 0 {
        let d = s.drop_last();
        lemma_be_value_bound(d);
        vstd::arithmetic::power::lemma_pow_adds(256, d.len(), 1);
        vstd::arithmetic::power::lemma_pow1(256);
        let v = be_value(d);
        let q = vstd::arithmetic::power::pow(256, d.len());
        let l = s.last() as int;
        assert(v * 256 + l < q * 256) by (nonlinear_arith)
            requires
                v < q,
                0 <= l < 256,
        ;
    }
}

fn read_be(bytes: &[u8], pos: usize, n: usize) -> (r: u128)
    requires
        n <= 8,
        pos + n <= bytes@.len(),
    ensures
        r == field(bytes@, pos as int, n as int),
        r < vstd::arithmetic::power::pow(256, n as nat),
{
    let mut v: u128 = 0;
    let mut k: usize = 0;
    proof {
        vstd::arithmetic::power::lemma_pow0(256);
        assert(bytes@.subrange(pos as int, pos as int) =~= Seq::<u8>::empty());
    }
    while k < n
        invariant
            n <= 8,
            pos + n <= bytes@.len(),
            bytes@.len() == bytes.len(),
            k <= n,
            v == field(bytes@, pos as int, k as int),
            v < vstd::arithmetic::power::pow(256, k as nat),
        decreases n - k,
    {
        proof {
            vstd::arithmetic::power::lemma_pow_increases(256, k as nat, 8);
            assert(vstd::arithmetic::power::pow(256, 8) == 0x1_0000_0000_0000_0000) by {
                reveal_with_fuel(vstd::arithmetic::power::pow, 9);
            }
            let sub = bytes@.subrange(pos as int, pos + k + 1);
            assert(sub.drop_last() =~= bytes@.subrange(pos as int, pos + k));
            assert(sub.last() == bytes@[pos + k]);
        }
        v = v * 256 + bytes[pos + k] as u128;
        k = k + 1;
        proof {
            lemma_be_value_bound(bytes@.subrange(pos as int, pos + k));
        }
    }
    v
}

fn byte_range(bytes: &[u8], pos: usize, n: usize) -> (r: Vec<u8>)
    requires
        pos + n <= bytes@.len(),
    ensures
        r@ == bytes@.subrange(pos as int, pos + n),
{
    let mut out: Vec<u8> = Vec::new();
    let mut k: usize = 0;
    while k < n
        invariant
            pos + n <= bytes@.len(),
            bytes@.len() == bytes.len(),
            k <= n,
            out@ == bytes@.subrange(pos as int, pos + k),
        decreases n - k,
    {
        out.push(bytes[pos + k]);
        k = k + 1;
        proof {
            assert(out@ =~= bytes@.subrange(pos as int, pos + k));
        }
    }
    out
}

/// The eight bytes a canonical table starts with: `TECACTM1`.
pub open spec fn ctm_magic() -> Seq<u8> {
    seq![0x54u8, 0x45u8, 0x43u8, 0x41u8, 0x43u8, 0x54u8, 0x4du8, 0x31u8]
}

/// The number of rows a canonical table announces.
pub open spec fn ctm_count(b: Seq<u8>) -> nat {
    field(b, 40, 8)
}

/// The first fault met when `b` is read as a canonical table, if any: the
/// header is the magic and the version, scale, alphabet and width 1, 96,
/// 9 and 6 as big-endian `u32`, then three `u64` of which the third counts
/// the rows, 72 bytes of audit data, and the rows of 24 bytes each.
pub open spec fn ctm_fault(b: Seq<u8>) -> Option<Seq<char>> {
    if b.len() < 8 {
        Some("truncated"@)
    } else if b.subrange(0, 8) != ctm_magic() {
        Some("header"@)
    } else if b.len() < 12 {
        Some("truncated"@)
    } else if field(b, 8, 4) != 1 {
        Some("header"@)
    } else if b.len() < 16 {
        Some("truncated"@)
    } else if field(b, 12, 4) != 96 {
        Some("header"@)
    } else if b.len() < 20 {
        Some("truncated"@)
    } else if field(b, 16, 4) != 9 {
        Some("header"@)
    } else if b.len() < 24 {
        Some("truncated"@)
    } else if field(b, 20, 4) != 6 {
        Some("header"@)
    } else if b.len() < 120 || b.len() < 120 + 24 * ctm_count(b) {
        Some("truncated"@)
    } else if b.len() > 120 + 24 * ctm_count(b) {
        Some("trailing bytes"@)
    } else {
        None
    }
}

/// The weighted pairs of a canonical table: row `j` holds the two strings
/// as base-9 numbers of six digits in big-endian `u32`, then 16 bytes of
/// big-endian units.
pub open spec fn ctm_rows(b: Seq<u8>) -> Seq<(Seq<u32>, Seq<u32>, Seq<u8>)> {
    Seq::new(
        ctm_count(b),
        |j: int|
            (
                base9(field(b, 120 + 24 * j, 4), 6),
                base9(field(b, 124 + 24 * j, 4), 6),
                b.subrange(128 + 24 * j, 144 + 24 * j),
            ),
    )
}

fn magic_ok(bytes: &[u8]) -> (r: bool)
    requires
        bytes@.len() >= 8,
    ensures
        r == (bytes@.subrange(0, 8) == ctm_magic()),
{
    let r = bytes[0] == 0x54 && bytes[1] == 0x45 && bytes[2] == 0x43 && bytes[3] == 0x41 && bytes[4] == 0x43
        && bytes[5] == 0x54 && bytes[6] == 0x4d && bytes[7] == 0x31;
    proof {
        if r {
            assert(bytes@.subrange(0, 8) =~= ctm_magic());
        } else {
            if bytes@.subrange(0, 8) == ctm_magic() {
                assert(bytes@.subrange(0, 8)[0] == bytes@[0]);
                assert(bytes@.subrange(0, 8)[1] == bytes@[1]);
                assert(bytes@.subrange(0, 8)[2] == bytes@[2]);
                assert(bytes@.subrange(0, 8)[3] == bytes@[3]);
                assert(bytes@.subrange(0, 8)[4] == bytes@[4]);
                assert(bytes@.subrange(0, 8)[5] == bytes@[5]);
                assert(bytes@.subrange(0, 8)[6] == bytes@[6]);
                assert(bytes@.subrange(0, 8)[7] == bytes@[7]);
            }
        }
    }
    r
}

fn read_row(bytes: &[u8], pos: usize) -> (r: (Vec<u32>, Vec<u32>, Vec<u8>))
    requires
        pos + 24 <= bytes.len(),
    ensures
        triple_view(r) == (
            base9(field(bytes@, pos as int, 4), 6),
            base9(field(bytes@, pos + 4, 4), 6),
            bytes@.subrange(pos + 8, pos + 24),
        ),
{
    proof {
        assert(vstd::arithmetic::power::pow(256, 4) == 0x1_0000_0000) by {
            reveal_with_fuel(vstd::arithmetic::power::pow, 5);
        }
    }
    let l = read_be(bytes, pos, 4);
    let r = read_be(bytes, pos + 4, 4);
    let left = digits(l as u32, 6);
    let right = digits(r as u32, 6);
    let units = byte_range(bytes, pos + 8, 16);
    (left, right, units)
}

/// Reads the canonical CTM-B9-D12 pair table and shapes its rows into the
/// canonical prior at 96 fractional bits.
pub fn parse_canonical_b9(bytes: &[u8]) -> (r: Result<PriorArtifact, CtmError>)
    ensures
        match ctm_fault(bytes@) {
            Some(m) => (r matches Err(CtmError::Invalid(e)) && e@ == m),
            None => (r matches Ok(p) && ctm_prior(
                p@,
                ctm_rows(bytes@),
                96,
                "verified direct CTM-B9-D12; fixed 6+6; canonical supplied table"@,
            )),
        },
{
    let n = bytes.len();
    if n < 8 {
        return Err(CtmError::Invalid("truncated"));
    }
    if !magic_ok(bytes) {
        return Err(CtmError::Invalid("header"));
    }
    if n < 12 {
        return Err(CtmError::Invalid("truncated"));
    }
    if read_be(bytes, 8, 4) != 1 {
        return Err(CtmError::Invalid("header"));
    }
    if n < 16 {
        return Err(CtmError::Invalid("truncated"));
    }
    if read_be(bytes, 12, 4) != 96 {
        return Err(CtmError::Invalid("header"));
    }
    if n < 20 {
        return Err(CtmError::Invalid("truncated"));
    }
    if read_be(bytes, 16, 4) != 9 {
        return Err(CtmError::Invalid("header"));
    }
    if n < 24 {
        return Err(CtmError::Invalid("truncated"));
    }
    if read_be(bytes, 20, 4) != 6 {
        return Err(CtmError::Invalid("header"));
    }
    if n < 120 {
        return Err(CtmError::Invalid("truncated"));
    }
    let count = read_be(bytes, 40, 8);
    proof {
        assert(vstd::arithmetic::power::pow(256, 8) == 0x1_0000_0000_0000_0000) by {
            reveal_with_fuel(vstd::arithmetic::power::pow, 9);
        }
    }
    let need: u128 = 120 + 24 * count;
    if (n as u128) < need {
        return Err(CtmError::Invalid("truncated"));
    }
    if (n as u128) > need {
        return Err(CtmError::Invalid("trailing bytes"));
    }
    let cnt = count as usize;
    let ghost rs = ctm_rows(bytes@);
    let mut rows: Vec<(Vec<u32>, Vec<u32>, Vec<u8>)> = Vec::new();
    let mut j: usize = 0;
    while j < cnt
        invariant
            n == bytes@.len(),
            n == 120 + 24 * cnt,
            cnt == ctm_count(bytes@),
            rs == ctm_rows(bytes@),
            j <= cnt,
            rows@.len() == j,
            forall|a: int| 0 <= a < j ==> triple_view(#[trigger] rows@[a]) == rs[a],
        decreases cnt - j,
    {
        let pos = 120 + 24 * j;
        let row = read_row(bytes, pos);
        rows.push(row);
        j = j + 1;
    }
    proof {
        assert(triples_view(rows@) =~= rs);
    }
    Ok(from_fixed_point_scenarios(rows, 96, "verified direct CTM-B9-D12; fixed 6+6; canonical supplied table".to_owned()))
}

} // verus!
