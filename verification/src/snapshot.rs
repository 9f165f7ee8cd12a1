//! Byte-stable snapshots of neighborhoods: the scheme, then every entry in
//! canonical byte order with its identifier and address. Decoding rebuilds
//! the neighborhood from the rows and accepts the snapshot only when the
//! stored addresses are the canonical ones.
use crate::address::AtomId;
use crate::artifact::{
    be128, be32, check_magic, enc_bytes, fits, is_at, lemma_be128_injective, lemma_be32_injective, lemma_is_at_join, lemma_is_at_split, put_bytes,
    put_u128, put_u32, put_u8, read_bytes, read_u128, read_u32, read_u8, ArtifactError,
};
use crate::bundle::ProbeBundle;
use crate::codec::ContentCodecDescriptor;
use crate::fallback::FallbackDescriptor;
use crate::field::standardff::StandardFieldDescriptor;
use crate::probe::{FieldDescriptor, ScalarProbe};
use crate::neighborhood::{
    addresses_ok, atoms_eq, bytes_eq, copy_bytes, copy_opt, entry_rows, insert_all, lemma_canonical_determined,
    lemma_insert_all_rows, opt_bytes, row_view, row_views, rows_of, rows_ok, views, EntryView, Neighborhood,
    NeighborhoodEntry, NeighborhoodError, NeighborhoodErrorView, NeighborhoodRow, NeighborhoodView,
};
use crate::scheme::{
    bytes_ok, compiled_ok, scheme_simple, simple_view, validate_spec, DecisionNode, NodeView, Scheme, SchemeView,
};
use vstd::prelude::*;

verus! {

// ---------------------------------------------------------------------------
// Sequences laid one after the other
// ---------------------------------------------------------------------------

/// The encodings of `xs` under `f`, one after the other.
pub open spec fn enc_seq<T>(xs: Seq<T>, f: spec_fn(T) -> Seq<u8>) -> Seq<u8>
    decreases xs.len(),
{
    if xs.len() == 0 {
        Seq::empty()
    } else {
        enc_seq(xs.drop_last(), f) + f(xs.last())
    }
}

/// The encodings of `xs` from position `i` on.
pub open spec fn enc_seq_rest<T>(xs: Seq<T>, f: spec_fn(T) -> Seq<u8>, i: int) -> Seq<u8>
    decreases xs.len() - i,
{
    if i >= xs.len() {
        Seq::empty()
    } else {
        f(xs[i]) + enc_seq_rest(xs, f, i + 1)
    }
}

pub proof fn lemma_enc_seq_take<T>(xs: Seq<T>, f: spec_fn(T) -> Seq<u8>, i: int)
    requires
        0 <= i < xs.len(),
    ensures
        enc_seq(xs.take(i + 1), f) == enc_seq(xs.take(i), f) + f(xs[i]),
{
    assert(xs.take(i + 1).drop_last() =~= xs.take(i));
}

pub proof fn lemma_enc_seq_prefix<T>(xs: Seq<T>, f: spec_fn(T) -> Seq<u8>, i: int)
    requires
        0 <= i <= xs.len(),
    ensures
        enc_seq(xs, f) == enc_seq(xs.take(i), f) + enc_seq_rest(xs, f, i),
    decreases xs.len() - i,
{
    if i < xs.len() {
        lemma_enc_seq_prefix(xs, f, i + 1);
        lemma_enc_seq_take(xs, f, i);
        assert(enc_seq(xs.take(i), f) + enc_seq_rest(xs, f, i) =~= enc_seq(xs.take(i + 1), f) + enc_seq_rest(
            xs,
            f,
            i + 1,
        ));
    } else {
        assert(xs.take(i) =~= xs);
        assert(enc_seq(xs, f) + Seq::<u8>::empty() =~= enc_seq(xs, f));
    }
}

/// Element `i` of a laid-out sequence sits after the first `i`.
pub proof fn lemma_enc_seq_at<T>(bytes: Seq<u8>, pos: int, xs: Seq<T>, f: spec_fn(T) -> Seq<u8>, i: int)
    requires
        is_at(bytes, pos, enc_seq(xs, f)),
        0 <= i < xs.len(),
    ensures
        is_at(bytes, pos + enc_seq(xs.take(i), f).len(), f(xs[i])),
{
    lemma_enc_seq_take(xs, f, i);
    lemma_enc_seq_prefix(xs, f, i + 1);
    lemma_is_at_split(bytes, pos, enc_seq(xs.take(i + 1), f), enc_seq_rest(xs, f, i + 1));
    lemma_is_at_split(bytes, pos, enc_seq(xs.take(i), f), f(xs[i]));
}

/// Appending one more element to a laid-out prefix.
pub proof fn lemma_enc_seq_extend<T>(bytes: Seq<u8>, pos: int, xs: Seq<T>, x: T, f: spec_fn(T) -> Seq<u8>)
    requires
        is_at(bytes, pos, enc_seq(xs, f)),
        is_at(bytes, pos + enc_seq(xs, f).len(), f(x)),
    ensures
        is_at(bytes, pos, enc_seq(xs.push(x), f)),
        enc_seq(xs.push(x), f).len() == enc_seq(xs, f).len() + f(x).len(),
{
    assert(xs.push(x).drop_last() =~= xs);
    lemma_is_at_join(bytes, pos, enc_seq(xs, f), f(x));
}

// ---------------------------------------------------------------------------
// The scheme payload
// ---------------------------------------------------------------------------

pub open spec fn codec_tag(c: ContentCodecDescriptor) -> u8 {
    match c {
        ContentCodecDescriptor::BinaryMsb0 => 0u8,
        ContentCodecDescriptor::CtmB9 => 1u8,
    }
}

pub open spec fn enc_opt_u32(o: Option<u32>) -> Seq<u8> {
    match o {
        None => seq![0u8],
        Some(v) => seq![1u8] + be32(v),
    }
}

pub open spec fn enc_fallback(f: FallbackDescriptor) -> Seq<u8> {
    match f {
        FallbackDescriptor::DirectRadixV1 => seq![1u8],
        FallbackDescriptor::StaticPolynomialV2 { codec, field, optimized_points } => static_fallback_bytes(
            codec,
            field.characteristic,
            field.degree,
            optimized_points,
        ),
    }
}

pub open spec fn static_fallback_bytes(codec: ContentCodecDescriptor, c: u32, d: u32, pts: [u32; 4]) -> Seq<u8> {
    seq![2u8] + (seq![codec_tag(codec)] + (be32(c) + (be32(d) + (be32(pts[0]) + (be32(pts[1]) + (be32(pts[2]) + be32(
        pts[3],
    )))))))
}

pub open spec fn enc_probe(p: ScalarProbe) -> Seq<u8> {
    seq![0u8] + (be32(p.descriptor().characteristic) + (be32(p.descriptor().degree) + (be128(p.point_rank) + be32(
        p.hasse_order,
    ))))
}

pub open spec fn enc_probes(ps: Seq<ScalarProbe>) -> Seq<u8> {
    enc_seq(ps, probe_fn())
}

pub open spec fn probe_fn() -> spec_fn(ScalarProbe) -> Seq<u8> {
    |p: ScalarProbe| enc_probe(p)
}

pub open spec fn enc_branch(b: (AtomId, u32)) -> Seq<u8> {
    be32(b.0.0) + be32(b.1)
}

pub open spec fn enc_branches(bs: Seq<(AtomId, u32)>) -> Seq<u8> {
    enc_seq(bs, branch_fn())
}

pub open spec fn branch_fn() -> spec_fn((AtomId, u32)) -> Seq<u8> {
    |b: (AtomId, u32)| enc_branch(b)
}

pub open spec fn enc_node(n: NodeView) -> Seq<u8> {
    be32(n.probes.len() as u32) + (enc_probes(n.probes) + (be32(n.branches.len() as u32) + (enc_branches(n.branches)
        + enc_opt_u32(n.default_child))))
}

pub open spec fn enc_nodes(ns: Seq<NodeView>) -> Seq<u8> {
    enc_seq(ns, node_fn())
}

pub open spec fn node_fn() -> spec_fn(NodeView) -> Seq<u8> {
    |n: NodeView| enc_node(n)
}

/// The scheme as bytes.
pub open spec fn scheme_payload(s: SchemeView) -> Seq<u8> {
    be32(s.capacity) + (seq![codec_tag(s.codec)] + (enc_fallback(s.fallback) + (enc_opt_u32(s.root) + (be32(
        s.nodes.len() as u32,
    ) + enc_nodes(s.nodes)))))
}

/// Every count of the scheme fits its 32-bit prefix.
pub open spec fn scheme_encodable(s: SchemeView) -> bool {
    &&& s.nodes.len() <= u32::MAX
    &&& forall|i: int|
        0 <= i < s.nodes.len() ==> (#[trigger] s.nodes[i]).probes.len() <= u32::MAX && s.nodes[i].branches.len()
            <= u32::MAX
}

fn put_codec(out: &mut Vec<u8>, c: ContentCodecDescriptor)
    ensures
        final(out)@ == old(out)@ + seq![codec_tag(c)],
{
    match c {
        ContentCodecDescriptor::BinaryMsb0 => put_u8(out, 0),
        ContentCodecDescriptor::CtmB9 => put_u8(out, 1),
    }
}

fn put_opt_u32(out: &mut Vec<u8>, o: Option<u32>)
    ensures
        final(out)@ == old(out)@ + enc_opt_u32(o),
{
    match o {
        None => put_u8(out, 0),
        Some(v) => {
            put_u8(out, 1);
            put_u32(out, v);
            proof {
                assert(out@ =~= old(out)@ + enc_opt_u32(o));
            }
        },
    }
}

fn put_fallback(out: &mut Vec<u8>, f: FallbackDescriptor)
    ensures
        final(out)@ == old(out)@ + enc_fallback(f),
{
    match f {
        FallbackDescriptor::DirectRadixV1 => put_u8(out, 1),
        FallbackDescriptor::StaticPolynomialV2 { codec, field, optimized_points } => {
            put_u8(out, 2);
            put_codec(out, codec);
            put_u32(out, field.characteristic);
            put_u32(out, field.degree);
            put_u32(out, optimized_points[0]);
            put_u32(out, optimized_points[1]);
            put_u32(out, optimized_points[2]);
            put_u32(out, optimized_points[3]);
            proof {
                assert(out@ =~= old(out)@ + enc_fallback(f));
            }
        },
    }
}

fn put_probe(out: &mut Vec<u8>, p: &ScalarProbe)
    ensures
        final(out)@ == old(out)@ + enc_probe(*p),
{
    let d = match p.field {
        FieldDescriptor::Standard(d) => d,
    };
    put_u8(out, 0);
    put_u32(out, d.characteristic);
    put_u32(out, d.degree);
    put_u128(out, p.point_rank);
    put_u32(out, p.hasse_order);
    proof {
        assert(out@ =~= old(out)@ + enc_probe(*p));
    }
}

fn put_node(out: &mut Vec<u8>, n: &DecisionNode) -> (r: Result<(), ArtifactError>)
    ensures
        n@.probes.len() <= u32::MAX && n@.branches.len() <= u32::MAX ==> r is Ok && final(out)@ == old(out)@ + enc_node(
            n@,
        ),
        !(n@.probes.len() <= u32::MAX && n@.branches.len() <= u32::MAX) ==> r == Err::<(), ArtifactError>(
            ArtifactError::CountOverflow,
        ),
{
    let probes = &n.action.probes;
    if probes.len() > 4294967295usize || n.branches.len() > 4294967295usize {
        return Err(ArtifactError::CountOverflow);
    }
    put_u32(out, probes.len() as u32);
    let ghost mid = out@;
    let mut i: usize = 0;
    proof {
        assert(probes@.take(0) =~= Seq::<ScalarProbe>::empty());
        assert(out@ =~= mid + enc_probes(probes@.take(0)));
    }
    while i < probes.len()
        invariant
            i <= probes@.len(),
            out@ == mid + enc_probes(probes@.take(i as int)),
        decreases probes@.len() - i,
    {
        put_probe(out, &probes[i]);
        proof {
            assert(probes@.take(i + 1).drop_last() =~= probes@.take(i as int));
            assert(out@ =~= mid + enc_probes(probes@.take(i + 1)));
        }
        i = i + 1;
    }
    put_u32(out, n.branches.len() as u32);
    let ghost mid2 = out@;
    let mut j: usize = 0;
    proof {
        assert(n.branches@.take(0) =~= Seq::<(AtomId, u32)>::empty());
        assert(out@ =~= mid2 + enc_branches(n.branches@.take(0)));
    }
    while j < n.branches.len()
        invariant
            j <= n.branches@.len(),
            out@ == mid2 + enc_branches(n.branches@.take(j as int)),
        decreases n.branches@.len() - j,
    {
        let (a, c) = n.branches[j];
        put_u32(out, a.0);
        put_u32(out, c);
        proof {
            assert(n.branches@.take(j + 1).drop_last() =~= n.branches@.take(j as int));
            assert(n.branches@[j as int] == (a, c));
            assert(out@ =~= mid2 + enc_branches(n.branches@.take(j + 1)));
        }
        j = j + 1;
    }
    put_opt_u32(out, n.default_child);
    proof {
        assert(probes@.take(probes@.len() as int) =~= probes@);
        assert(n.branches@.take(n.branches@.len() as int) =~= n.branches@);
        assert(out@ =~= old(out)@ + enc_node(n@));
    }
    Ok(())
}

pub open spec fn node_views(ns: Seq<DecisionNode>) -> Seq<NodeView> {
    ns.map_values(|n: DecisionNode| n@)
}

/// Appends the node count and the nodes.
fn put_nodes(out: &mut Vec<u8>, nodes: &Vec<DecisionNode>) -> (r: Result<(), ArtifactError>)
    ensures
        ({
            let nv = node_views(nodes@);
            let ok = nv.len() <= u32::MAX && forall|i: int|
                0 <= i < nv.len() ==> (#[trigger] nv[i]).probes.len() <= u32::MAX && nv[i].branches.len() <= u32::MAX;
            &&& ok ==> r is Ok && final(out)@ == old(out)@ + (be32(nv.len() as u32) + enc_nodes(nv))
            &&& !ok ==> r == Err::<(), ArtifactError>(ArtifactError::CountOverflow)
        }),
{
    let ghost nv = node_views(nodes@);
    if nodes.len() > 4294967295usize {
        return Err(ArtifactError::CountOverflow);
    }
    put_u32(out, nodes.len() as u32);
    let ghost mid = out@;
    let mut i: usize = 0;
    proof {
        assert(nv.take(0) =~= Seq::<NodeView>::empty());
        assert(out@ =~= mid + enc_nodes(nv.take(0)));
    }
    while i < nodes.len()
        invariant
            nv == node_views(nodes@),
            i <= nodes@.len(),
            out@ == mid + enc_nodes(nv.take(i as int)),
            forall|k: int| 0 <= k < i ==> (#[trigger] nv[k]).probes.len() <= u32::MAX && nv[k].branches.len() <= u32::MAX,
        decreases nodes@.len() - i,
    {
        proof {
            assert(nv[i as int] == nodes@[i as int]@);
        }
        match put_node(out, &nodes[i]) {
            Ok(()) => {},
            Err(e) => {
                return Err(e);
            },
        }
        proof {
            assert(nv.take(i + 1).drop_last() =~= nv.take(i as int));
            assert(out@ =~= mid + enc_nodes(nv.take(i + 1)));
        }
        i = i + 1;
    }
    proof {
        assert(nv.take(nv.len() as int) =~= nv);
        assert(out@ =~= old(out)@ + (be32(nv.len() as u32) + enc_nodes(nv)));
    }
    Ok(())
}

/// Appends the scheme payload.
pub fn put_scheme_payload(out: &mut Vec<u8>, s: &Scheme) -> (r: Result<(), ArtifactError>)
    ensures
        scheme_encodable(s@) ==> r is Ok && final(out)@ == old(out)@ + scheme_payload(s@),
        !scheme_encodable(s@) ==> r == Err::<(), ArtifactError>(ArtifactError::CountOverflow),
{
    proof {
        assert(node_views(s.nodes@) == s@.nodes);
    }
    put_u32(out, s.capacity);
    put_codec(out, s.codec);
    put_fallback(out, s.fallback);
    put_opt_u32(out, s.root);
    let ghost head = out@;
    match put_nodes(out, &s.nodes) {
        Ok(()) => {},
        Err(e) => {
            return Err(e);
        },
    }
    proof {
        assert(out@ =~= old(out)@ + scheme_payload(s@));
    }
    Ok(())
}

// ---------------------------------------------------------------------------
// Reading the scheme payload back
// ---------------------------------------------------------------------------

pub(crate) proof fn lemma_is_at_one(bytes: Seq<u8>, pos: int, b: u8)
    requires
        0 <= pos < bytes.len(),
        bytes[pos] == b,
    ensures
        is_at(bytes, pos, seq![b]),
{
    assert(bytes.subrange(pos, pos + 1) =~= seq![b]);
}

pub(crate) proof fn lemma_is_at_first(bytes: Seq<u8>, pos: int, piece: Seq<u8>)
    requires
        is_at(bytes, pos, piece),
        piece.len() > 0,
    ensures
        bytes[pos] == piece[0],
{
    assert(bytes.subrange(pos, pos + piece.len())[0] == piece[0]);
}

fn read_codec(bytes: &[u8], pos: usize) -> (r: Result<(ContentCodecDescriptor, usize), ArtifactError>)
    ensures
        r matches Ok((c, p)) ==> p == pos + 1 && is_at(bytes@, pos as int, seq![codec_tag(c)]),
        forall|c: ContentCodecDescriptor|
            #[trigger] is_at(bytes@, pos as int, seq![codec_tag(c)]) ==> (r matches Ok((c2, p)) && c2 == c && p == pos + 1),
{
    let (t, p) = match read_u8(bytes, pos) {
        Ok(x) => x,
        Err(e) => {
            return Err(e);
        },
    };
    proof {
        lemma_is_at_one(bytes@, pos as int, t);
        assert forall|c: ContentCodecDescriptor| #[trigger] is_at(bytes@, pos as int, seq![codec_tag(c)]) implies t
            == codec_tag(c) by {
            lemma_is_at_first(bytes@, pos as int, seq![codec_tag(c)]);
        }
    }
    if t == 0 {
        Ok((ContentCodecDescriptor::BinaryMsb0, p))
    } else if t == 1 {
        Ok((ContentCodecDescriptor::CtmB9, p))
    } else {
        Err(ArtifactError::UnsupportedTag { what: "codec", tag: t })
    }
}

fn read_opt_u32(bytes: &[u8], pos: usize) -> (r: Result<(Option<u32>, usize), ArtifactError>)
    ensures
        r matches Ok((o, p)) ==> p == pos + enc_opt_u32(o).len() && is_at(bytes@, pos as int, enc_opt_u32(o)),
        forall|o: Option<u32>|
            #[trigger] is_at(bytes@, pos as int, enc_opt_u32(o)) ==> (r matches Ok((o2, p)) && o2 == o && p == pos
                + enc_opt_u32(o).len()),
{
    let (t, p) = match read_u8(bytes, pos) {
        Ok(x) => x,
        Err(e) => {
            proof {
                assert forall|o: Option<u32>| #[trigger] is_at(bytes@, pos as int, enc_opt_u32(o)) implies false by {}
            }
            return Err(e);
        },
    };
    proof {
        lemma_is_at_one(bytes@, pos as int, t);
        assert forall|o: Option<u32>| #[trigger] is_at(bytes@, pos as int, enc_opt_u32(o)) implies t == enc_opt_u32(o)[0] by {
            lemma_is_at_first(bytes@, pos as int, enc_opt_u32(o));
        }
    }
    if t == 0 {
        proof {
            assert(seq![t] =~= enc_opt_u32(None));
        }
        Ok((None, p))
    } else if t == 1 {
        let (v, q) = match read_u32(bytes, p) {
            Ok(x) => x,
            Err(e) => {
                proof {
                    assert forall|o: Option<u32>| #[trigger] is_at(bytes@, pos as int, enc_opt_u32(o)) implies false by {
                        assert(o is Some);
                    }
                }
                return Err(e);
            },
        };
        proof {
            assert(is_at(bytes@, p as int, be32(v)));
            lemma_is_at_join(bytes@, pos as int, seq![t], be32(v));
            assert(seq![t] + be32(v) =~= enc_opt_u32(Some(v)));
            assert forall|o: Option<u32>| #[trigger] is_at(bytes@, pos as int, enc_opt_u32(o)) implies o == Some(v) by {
                assert(o is Some);
                assert(enc_opt_u32(o) =~= seq![1u8] + be32(o->0));
                lemma_is_at_split(bytes@, pos as int, seq![1u8], be32(o->0));
                lemma_be32_injective(v, o->0);
            }
        }
        Ok((Some(v), q))
    } else {
        Err(ArtifactError::UnsupportedTag { what: "optional u32", tag: t })
    }
}

// Fixed-size pieces
pub(crate) fn take_u32(bytes: &[u8], pos: usize) -> (r: Result<(u32, usize), ArtifactError>)
    ensures
        r matches Ok((v, p)) ==> p == pos + 4 && is_at(bytes@, pos as int, be32(v)),
        r is Err ==> pos + 4 > bytes@.len() && r == Err::<(u32, usize), ArtifactError>(ArtifactError::Truncated),
        forall|w: u32| #[trigger] is_at(bytes@, pos as int, be32(w)) ==> (r matches Ok((v, p)) && v == w),
{
    let r = read_u32(bytes, pos);
    proof {
        assert forall|w: u32| #[trigger] is_at(bytes@, pos as int, be32(w)) implies (r matches Ok((v, p)) && v == w) by {
            let (v, p) = r->Ok_0;
            lemma_be32_injective(v, w);
        }
    }
    r
}

fn take_u128(bytes: &[u8], pos: usize) -> (r: Result<(u128, usize), ArtifactError>)
    ensures
        r matches Ok((v, p)) ==> p == pos + 16 && is_at(bytes@, pos as int, be128(v)),
        r is Err ==> pos + 16 > bytes@.len() && r == Err::<(u128, usize), ArtifactError>(ArtifactError::Truncated),
        forall|w: u128| #[trigger] is_at(bytes@, pos as int, be128(w)) ==> (r matches Ok((v, p)) && v == w),
{
    let r = read_u128(bytes, pos);
    proof {
        assert forall|w: u128| #[trigger] is_at(bytes@, pos as int, be128(w)) implies (r matches Ok((v, p)) && v == w) by {
            let (v, p) = r->Ok_0;
            lemma_be128_injective(v, w);
        }
    }
    r
}

proof fn lemma_static_split(
    bytes: Seq<u8>,
    pos: int,
    codec: ContentCodecDescriptor,
    c: u32,
    d: u32,
    pts: [u32; 4],
)
    requires
        is_at(bytes, pos, static_fallback_bytes(codec, c, d, pts)),
    ensures
        is_at(bytes, pos + 1, seq![codec_tag(codec)]),
        is_at(bytes, pos + 2, be32(c)),
        is_at(bytes, pos + 6, be32(d)),
        is_at(bytes, pos + 10, be32(pts[0])),
        is_at(bytes, pos + 14, be32(pts[1])),
        is_at(bytes, pos + 18, be32(pts[2])),
        is_at(bytes, pos + 22, be32(pts[3])),
{
    let t7 = be32(pts[2]) + be32(pts[3]);
    let t6 = be32(pts[1]) + t7;
    let t5 = be32(pts[0]) + t6;
    let t4 = be32(d) + t5;
    let t3 = be32(c) + t4;
    let t2 = seq![codec_tag(codec)] + t3;
    lemma_is_at_split(bytes, pos, seq![2u8], t2);
    lemma_is_at_split(bytes, pos + 1, seq![codec_tag(codec)], t3);
    lemma_is_at_split(bytes, pos + 2, be32(c), t4);
    lemma_is_at_split(bytes, pos + 6, be32(d), t5);
    lemma_is_at_split(bytes, pos + 10, be32(pts[0]), t6);
    lemma_is_at_split(bytes, pos + 14, be32(pts[1]), t7);
    lemma_is_at_split(bytes, pos + 18, be32(pts[2]), be32(pts[3]));
}

proof fn lemma_static_join(
    bytes: Seq<u8>,
    pos: int,
    codec: ContentCodecDescriptor,
    c: u32,
    d: u32,
    pts: [u32; 4],
)
    requires
        is_at(bytes, pos, seq![2u8]),
        is_at(bytes, pos + 1, seq![codec_tag(codec)]),
        is_at(bytes, pos + 2, be32(c)),
        is_at(bytes, pos + 6, be32(d)),
        is_at(bytes, pos + 10, be32(pts[0])),
        is_at(bytes, pos + 14, be32(pts[1])),
        is_at(bytes, pos + 18, be32(pts[2])),
        is_at(bytes, pos + 22, be32(pts[3])),
    ensures
        is_at(bytes, pos, static_fallback_bytes(codec, c, d, pts)),
        static_fallback_bytes(codec, c, d, pts).len() == 26,
{
    lemma_is_at_join(bytes, pos + 18, be32(pts[2]), be32(pts[3]));
    let t7 = be32(pts[2]) + be32(pts[3]);
    lemma_is_at_join(bytes, pos + 14, be32(pts[1]), t7);
    let t6 = be32(pts[1]) + t7;
    lemma_is_at_join(bytes, pos + 10, be32(pts[0]), t6);
    let t5 = be32(pts[0]) + t6;
    lemma_is_at_join(bytes, pos + 6, be32(d), t5);
    let t4 = be32(d) + t5;
    lemma_is_at_join(bytes, pos + 2, be32(c), t4);
    let t3 = be32(c) + t4;
    lemma_is_at_join(bytes, pos + 1, seq![codec_tag(codec)], t3);
    let t2 = seq![codec_tag(codec)] + t3;
    lemma_is_at_join(bytes, pos, seq![2u8], t2);
}

/// The first byte of a fallback tells its kind.
proof fn lemma_fallback_first(bytes: Seq<u8>, pos: int, f: FallbackDescriptor)
    requires
        is_at(bytes, pos, enc_fallback(f)),
    ensures
        0 <= pos < bytes.len(),
        f is DirectRadixV1 ==> bytes[pos] == 1u8,
        f is StaticPolynomialV2 ==> bytes[pos] == 2u8,
{
    lemma_is_at_first(bytes, pos, enc_fallback(f));
}

fn read_fallback(bytes: &[u8], pos: usize) -> (r: Result<(FallbackDescriptor, usize), ArtifactError>)
    ensures
        r matches Ok((f, p)) ==> p == pos + enc_fallback(f).len() && is_at(bytes@, pos as int, enc_fallback(f)),
        forall|f: FallbackDescriptor|
            #[trigger] is_at(bytes@, pos as int, enc_fallback(f)) ==> (r matches Ok((g, p)) && g == f),
{
    let (t, p) = match read_u8(bytes, pos) {
        Ok(x) => x,
        Err(e) => {
            proof {
                assert forall|f: FallbackDescriptor| #[trigger] is_at(bytes@, pos as int, enc_fallback(f)) implies false by {
                    lemma_fallback_first(bytes@, pos as int, f);
                }
            }
            return Err(e);
        },
    };
    proof {
        lemma_is_at_one(bytes@, pos as int, t);
    }
    if t == 1 {
        proof {
            assert(seq![t] =~= enc_fallback(FallbackDescriptor::DirectRadixV1));
            assert forall|f: FallbackDescriptor| #[trigger] is_at(bytes@, pos as int, enc_fallback(f)) implies f
                == FallbackDescriptor::DirectRadixV1 by {
                lemma_fallback_first(bytes@, pos as int, f);
            }
        }
        return Ok((FallbackDescriptor::DirectRadixV1, p));
    }
    if t != 2 {
        proof {
            assert forall|f: FallbackDescriptor| #[trigger] is_at(bytes@, pos as int, enc_fallback(f)) implies false by {
                lemma_fallback_first(bytes@, pos as int, f);
            }
        }
        return Err(ArtifactError::UnsupportedTag { what: "fallback", tag: t });
    }
    proof {
        assert forall|f: FallbackDescriptor| #[trigger] is_at(bytes@, pos as int, enc_fallback(f)) implies f is StaticPolynomialV2
            && is_at(bytes@, pos + 1, seq![codec_tag(f->codec)]) && is_at(bytes@, pos + 2, be32(
            f->field.characteristic,
        )) && is_at(bytes@, pos + 6, be32(f->field.degree)) && is_at(bytes@, pos + 10, be32(f->optimized_points[0]))
            && is_at(bytes@, pos + 14, be32(f->optimized_points[1])) && is_at(bytes@, pos + 18, be32(
            f->optimized_points[2],
        )) && is_at(bytes@, pos + 22, be32(f->optimized_points[3])) by {
            lemma_fallback_first(bytes@, pos as int, f);
            lemma_static_split(
                bytes@,
                pos as int,
                f->codec,
                f->field.characteristic,
                f->field.degree,
                f->optimized_points,
            );
        }
    }
    let (codec, p1) = match read_codec(bytes, p) {
        Ok(x) => x,
        Err(e) => {
            return Err(e);
        },
    };
    let (c, p2) = match take_u32(bytes, p1) {
        Ok(x) => x,
        Err(e) => {
            return Err(e);
        },
    };
    let (d, p3) = match take_u32(bytes, p2) {
        Ok(x) => x,
        Err(e) => {
            return Err(e);
        },
    };
    let (a0, p4) = match take_u32(bytes, p3) {
        Ok(x) => x,
        Err(e) => {
            return Err(e);
        },
    };
    let (a1, p5) = match take_u32(bytes, p4) {
        Ok(x) => x,
        Err(e) => {
            return Err(e);
        },
    };
    let (a2, p6) = match take_u32(bytes, p5) {
        Ok(x) => x,
        Err(e) => {
            return Err(e);
        },
    };
    let (a3, p7) = match take_u32(bytes, p6) {
        Ok(x) => x,
        Err(e) => {
            return Err(e);
        },
    };
    let points: [u32; 4] = [a0, a1, a2, a3];
    let f = FallbackDescriptor::StaticPolynomialV2 {
        codec,
        field: StandardFieldDescriptor { characteristic: c, degree: d },
        optimized_points: points,
    };
    proof {
        lemma_static_join(bytes@, pos as int, codec, c, d, points);
        assert forall|g: FallbackDescriptor| #[trigger] is_at(bytes@, pos as int, enc_fallback(g)) implies g == f by {
            assert(g->optimized_points =~= points);
        }
    }
    Ok((f, p7))
}

proof fn lemma_probe_split(bytes: Seq<u8>, pos: int, x: ScalarProbe)
    requires
        is_at(bytes, pos, enc_probe(x)),
    ensures
        is_at(bytes, pos, seq![0u8]),
        is_at(bytes, pos + 1, be32(x.descriptor().characteristic)),
        is_at(bytes, pos + 5, be32(x.descriptor().degree)),
        is_at(bytes, pos + 9, be128(x.point_rank)),
        is_at(bytes, pos + 25, be32(x.hasse_order)),
{
    let d = x.descriptor();
    let t4 = be128(x.point_rank) + be32(x.hasse_order);
    let t3 = be32(d.degree) + t4;
    let t2 = be32(d.characteristic) + t3;
    lemma_is_at_split(bytes, pos, seq![0u8], t2);
    lemma_is_at_split(bytes, pos + 1, be32(d.characteristic), t3);
    lemma_is_at_split(bytes, pos + 5, be32(d.degree), t4);
    lemma_is_at_split(bytes, pos + 9, be128(x.point_rank), be32(x.hasse_order));
}

proof fn lemma_probe_join(bytes: Seq<u8>, pos: int, x: ScalarProbe)
    requires
        is_at(bytes, pos, seq![0u8]),
        is_at(bytes, pos + 1, be32(x.descriptor().characteristic)),
        is_at(bytes, pos + 5, be32(x.descriptor().degree)),
        is_at(bytes, pos + 9, be128(x.point_rank)),
        is_at(bytes, pos + 25, be32(x.hasse_order)),
    ensures
        is_at(bytes, pos, enc_probe(x)),
        enc_probe(x).len() == 29,
{
    let d = x.descriptor();
    lemma_is_at_join(bytes, pos + 9, be128(x.point_rank), be32(x.hasse_order));
    let t4 = be128(x.point_rank) + be32(x.hasse_order);
    lemma_is_at_join(bytes, pos + 5, be32(d.degree), t4);
    let t3 = be32(d.degree) + t4;
    lemma_is_at_join(bytes, pos + 1, be32(d.characteristic), t3);
    let t2 = be32(d.characteristic) + t3;
    lemma_is_at_join(bytes, pos, seq![0u8], t2);
}

fn read_probe(bytes: &[u8], pos: usize) -> (r: Result<(ScalarProbe, usize), ArtifactError>)
    ensures
        r matches Ok((x, p)) ==> p == pos + enc_probe(x).len() && is_at(bytes@, pos as int, enc_probe(x)),
        forall|x: ScalarProbe| #[trigger] is_at(bytes@, pos as int, enc_probe(x)) ==> (r matches Ok((y, p)) && y == x),
{
    proof {
        assert forall|x: ScalarProbe| #[trigger] is_at(bytes@, pos as int, enc_probe(x)) implies is_at(
            bytes@,
            pos as int,
            seq![0u8],
        ) && is_at(bytes@, pos + 1, be32(x.descriptor().characteristic)) && is_at(
            bytes@,
            pos + 5,
            be32(x.descriptor().degree),
        ) && is_at(bytes@, pos + 9, be128(x.point_rank)) && is_at(bytes@, pos + 25, be32(x.hasse_order)) by {
            lemma_probe_split(bytes@, pos as int, x);
        }
    }
    let (t, p) = match read_u8(bytes, pos) {
        Ok(x) => x,
        Err(e) => {
            return Err(e);
        },
    };
    proof {
        lemma_is_at_one(bytes@, pos as int, t);
        assert forall|x: ScalarProbe| #[trigger] is_at(bytes@, pos as int, enc_probe(x)) implies t == 0 by {
            lemma_is_at_first(bytes@, pos as int, seq![0u8]);
        }
    }
    if t != 0 {
        return Err(ArtifactError::UnsupportedTag { what: "field", tag: t });
    }
    let (c, p1) = match take_u32(bytes, p) {
        Ok(x) => x,
        Err(e) => {
            return Err(e);
        },
    };
    let (d, p2) = match take_u32(bytes, p1) {
        Ok(x) => x,
        Err(e) => {
            return Err(e);
        },
    };
    let (rank, p3) = match take_u128(bytes, p2) {
        Ok(x) => x,
        Err(e) => {
            return Err(e);
        },
    };
    let (h, p4) = match take_u32(bytes, p3) {
        Ok(x) => x,
        Err(e) => {
            return Err(e);
        },
    };
    let x = ScalarProbe {
        field: FieldDescriptor::Standard(StandardFieldDescriptor { characteristic: c, degree: d }),
        point_rank: rank,
        hasse_order: h,
    };
    proof {
        lemma_probe_join(bytes@, pos as int, x);
        assert forall|y: ScalarProbe| #[trigger] is_at(bytes@, pos as int, enc_probe(y)) implies y == x by {
            assert(y.field == FieldDescriptor::Standard(y.descriptor()));
        }
    }
    Ok((x, p4))
}

/// Reads `n` probes laid one after the other.
fn read_probes(bytes: &[u8], pos: usize, n: usize) -> (r: Result<(Vec<ScalarProbe>, usize), ArtifactError>)
    ensures
        r matches Ok((xs, p)) ==> xs@.len() == n && p == pos + enc_probes(xs@).len() && is_at(
            bytes@,
            pos as int,
            enc_probes(xs@),
        ),
        forall|xs: Seq<ScalarProbe>|
            xs.len() == n && #[trigger] is_at(bytes@, pos as int, enc_probes(xs)) ==> (r matches Ok((ys, p)) && ys@
                == xs),
{
    if pos > bytes.len() {
        return Err(ArtifactError::Truncated);
    }
    let mut out: Vec<ScalarProbe> = Vec::new();
    let mut cur = pos;
    let mut i: usize = 0;
    proof {
        assert(bytes@.subrange(pos as int, pos as int) =~= Seq::<u8>::empty());
        assert forall|xs: Seq<ScalarProbe>| xs.len() == n && #[trigger] is_at(bytes@, pos as int, enc_probes(xs)) implies out@
            == xs.take(0) by {
            assert(xs.take(0) =~= Seq::<ScalarProbe>::empty());
        }
    }
    while i < n
        invariant
            i <= n,
            out@.len() == i,
            cur == pos + enc_probes(out@).len(),
            is_at(bytes@, pos as int, enc_probes(out@)),
            forall|xs: Seq<ScalarProbe>|
                xs.len() == n && #[trigger] is_at(bytes@, pos as int, enc_probes(xs)) ==> out@ == xs.take(i as int),
        decreases n - i,
    {
        let ghost before = out@;
        proof {
            assert forall|xs: Seq<ScalarProbe>| xs.len() == n && #[trigger] is_at(bytes@, pos as int, enc_probes(xs)) implies is_at(
                bytes@,
                cur as int,
                enc_probe(xs[i as int]),
            ) by {
                lemma_enc_seq_at(bytes@, pos as int, xs, probe_fn(), i as int);
            }
        }
        match read_probe(bytes, cur) {
            Ok((x, q)) => {
                proof {
                    lemma_enc_seq_extend(bytes@, pos as int, before, x, probe_fn());
                    assert forall|xs: Seq<ScalarProbe>| xs.len() == n && #[trigger] is_at(
                        bytes@,
                        pos as int,
                        enc_probes(xs),
                    ) implies before.push(x) == xs.take(i + 1) by {
                        assert(xs.take(i + 1) =~= xs.take(i as int).push(xs[i as int]));
                    }
                }
                out.push(x);
                cur = q;
            },
            Err(e) => {
                return Err(e);
            },
        }
        i = i + 1;
    }
    proof {
        assert forall|xs: Seq<ScalarProbe>| xs.len() == n && #[trigger] is_at(bytes@, pos as int, enc_probes(xs)) implies out@
            == xs by {
            assert(xs.take(n as int) =~= xs);
        }
    }
    Ok((out, cur))
}

fn read_branch(bytes: &[u8], pos: usize) -> (r: Result<((AtomId, u32), usize), ArtifactError>)
    ensures
        r matches Ok((x, p)) ==> p == pos + enc_branch(x).len() && is_at(bytes@, pos as int, enc_branch(x)),
        forall|x: (AtomId, u32)| #[trigger] is_at(bytes@, pos as int, enc_branch(x)) ==> (r matches Ok((y, p)) && y == x),
{
    proof {
        assert forall|x: (AtomId, u32)| #[trigger] is_at(bytes@, pos as int, enc_branch(x)) implies is_at(
            bytes@,
            pos as int,
            be32(x.0.0),
        ) && is_at(bytes@, pos + 4, be32(x.1)) by {
            lemma_is_at_split(bytes@, pos as int, be32(x.0.0), be32(x.1));
        }
    }
    let (a, p1) = match take_u32(bytes, pos) {
        Ok(x) => x,
        Err(e) => {
            return Err(e);
        },
    };
    let (c, p2) = match take_u32(bytes, p1) {
        Ok(x) => x,
        Err(e) => {
            return Err(e);
        },
    };
    proof {
        lemma_is_at_join(bytes@, pos as int, be32(a), be32(c));
    }
    Ok(((AtomId(a), c), p2))
}

/// Reads `n` branches laid one after the other.
fn read_branches(bytes: &[u8], pos: usize, n: usize) -> (r: Result<(Vec<(AtomId, u32)>, usize), ArtifactError>)
    ensures
        r matches Ok((xs, p)) ==> xs@.len() == n && p == pos + enc_branches(xs@).len() && is_at(
            bytes@,
            pos as int,
            enc_branches(xs@),
        ),
        forall|xs: Seq<(AtomId, u32)>|
            xs.len() == n && #[trigger] is_at(bytes@, pos as int, enc_branches(xs)) ==> (r matches Ok((ys, p)) && ys@
                == xs),
{
    if pos > bytes.len() {
        return Err(ArtifactError::Truncated);
    }
    let mut out: Vec<(AtomId, u32)> = Vec::new();
    let mut cur = pos;
    let mut i: usize = 0;
    proof {
        assert(bytes@.subrange(pos as int, pos as int) =~= Seq::<u8>::empty());
        assert forall|xs: Seq<(AtomId, u32)>| xs.len() == n && #[trigger] is_at(bytes@, pos as int, enc_branches(xs)) implies out@
            == xs.take(0) by {
            assert(xs.take(0) =~= Seq::<(AtomId, u32)>::empty());
        }
    }
    while i < n
        invariant
            i <= n,
            out@.len() == i,
            cur == pos + enc_branches(out@).len(),
            is_at(bytes@, pos as int, enc_branches(out@)),
            forall|xs: Seq<(AtomId, u32)>|
                xs.len() == n && #[trigger] is_at(bytes@, pos as int, enc_branches(xs)) ==> out@ == xs.take(i as int),
        decreases n - i,
    {
        let ghost before = out@;
        proof {
            assert forall|xs: Seq<(AtomId, u32)>| xs.len() == n && #[trigger] is_at(bytes@, pos as int, enc_branches(xs)) implies is_at(
                bytes@,
                cur as int,
                enc_branch(xs[i as int]),
            ) by {
                lemma_enc_seq_at(bytes@, pos as int, xs, branch_fn(), i as int);
            }
        }
        match read_branch(bytes, cur) {
            Ok((x, q)) => {
                proof {
                    lemma_enc_seq_extend(bytes@, pos as int, before, x, branch_fn());
                    assert forall|xs: Seq<(AtomId, u32)>| xs.len() == n && #[trigger] is_at(
                        bytes@,
                        pos as int,
                        enc_branches(xs),
                    ) implies before.push(x) == xs.take(i + 1) by {
                        assert(xs.take(i + 1) =~= xs.take(i as int).push(xs[i as int]));
                    }
                }
                out.push(x);
                cur = q;
            },
            Err(e) => {
                return Err(e);
            },
        }
        i = i + 1;
    }
    proof {
        assert forall|xs: Seq<(AtomId, u32)>| xs.len() == n && #[trigger] is_at(bytes@, pos as int, enc_branches(xs)) implies out@
            == xs by {
            assert(xs.take(n as int) =~= xs);
        }
    }
    Ok((out, cur))
}

/// Counts of a node that fit their 32-bit prefixes.
pub open spec fn node_fits(v: NodeView) -> bool {
    v.probes.len() <= u32::MAX && v.branches.len() <= u32::MAX
}

proof fn lemma_node_split(bytes: Seq<u8>, pos: int, v: NodeView)
    requires
        is_at(bytes, pos, enc_node(v)),
    ensures
        is_at(bytes, pos, be32(v.probes.len() as u32)),
        is_at(bytes, pos + 4, enc_probes(v.probes)),
        is_at(bytes, pos + 4 + enc_probes(v.probes).len(), be32(v.branches.len() as u32)),
        is_at(bytes, pos + 8 + enc_probes(v.probes).len(), enc_branches(v.branches)),
        is_at(
            bytes,
            pos + 8 + enc_probes(v.probes).len() + enc_branches(v.branches).len(),
            enc_opt_u32(v.default_child),
        ),
{
    let ep = enc_probes(v.probes);
    let eb = enc_branches(v.branches);
    let t4 = eb + enc_opt_u32(v.default_child);
    let t3 = be32(v.branches.len() as u32) + t4;
    let t2 = ep + t3;
    lemma_is_at_split(bytes, pos, be32(v.probes.len() as u32), t2);
    lemma_is_at_split(bytes, pos + 4, ep, t3);
    lemma_is_at_split(bytes, pos + 4 + ep.len(), be32(v.branches.len() as u32), t4);
    lemma_is_at_split(bytes, pos + 8 + ep.len(), eb, enc_opt_u32(v.default_child));
}

proof fn lemma_node_join(bytes: Seq<u8>, pos: int, v: NodeView)
    requires
        is_at(bytes, pos, be32(v.probes.len() as u32)),
        is_at(bytes, pos + 4, enc_probes(v.probes)),
        is_at(bytes, pos + 4 + enc_probes(v.probes).len(), be32(v.branches.len() as u32)),
        is_at(bytes, pos + 8 + enc_probes(v.probes).len(), enc_branches(v.branches)),
        is_at(
            bytes,
            pos + 8 + enc_probes(v.probes).len() + enc_branches(v.branches).len(),
            enc_opt_u32(v.default_child),
        ),
    ensures
        is_at(bytes, pos, enc_node(v)),
        enc_node(v).len() == 8 + enc_probes(v.probes).len() + enc_branches(v.branches).len() + enc_opt_u32(
            v.default_child,
        ).len(),
{
    let ep = enc_probes(v.probes);
    let eb = enc_branches(v.branches);
    lemma_is_at_join(bytes, pos + 8 + ep.len(), eb, enc_opt_u32(v.default_child));
    let t4 = eb + enc_opt_u32(v.default_child);
    lemma_is_at_join(bytes, pos + 4 + ep.len(), be32(v.branches.len() as u32), t4);
    let t3 = be32(v.branches.len() as u32) + t4;
    lemma_is_at_join(bytes, pos + 4, ep, t3);
    let t2 = ep + t3;
    lemma_is_at_join(bytes, pos, be32(v.probes.len() as u32), t2);
}

fn read_node(bytes: &[u8], pos: usize) -> (r: Result<(DecisionNode, usize), ArtifactError>)
    ensures
        r matches Ok((x, p)) ==> p == pos + enc_node(x@).len() && is_at(bytes@, pos as int, enc_node(x@)) && node_fits(
            x@,
        ),
        forall|v: NodeView|
            node_fits(v) && #[trigger] is_at(bytes@, pos as int, enc_node(v)) ==> (r matches Ok((y, p)) && y@ == v),
{
    proof {
        assert forall|v: NodeView| node_fits(v) && #[trigger] is_at(bytes@, pos as int, enc_node(v)) implies is_at(
            bytes@,
            pos as int,
            be32(v.probes.len() as u32),
        ) && is_at(bytes@, pos + 4, enc_probes(v.probes)) && is_at(
            bytes@,
            pos + 4 + enc_probes(v.probes).len(),
            be32(v.branches.len() as u32),
        ) && is_at(bytes@, pos + 8 + enc_probes(v.probes).len(), enc_branches(v.branches)) && is_at(
            bytes@,
            pos + 8 + enc_probes(v.probes).len() + enc_branches(v.branches).len(),
            enc_opt_u32(v.default_child),
        ) by {
            lemma_node_split(bytes@, pos as int, v);
        }
    }
    let (np, p1) = match take_u32(bytes, pos) {
        Ok(x) => x,
        Err(e) => {
            return Err(e);
        },
    };
    let (probes, p2) = match read_probes(bytes, p1, np as usize) {
        Ok(x) => x,
        Err(e) => {
            return Err(e);
        },
    };
    let (nb, p3) = match take_u32(bytes, p2) {
        Ok(x) => x,
        Err(e) => {
            return Err(e);
        },
    };
    let (branches, p4) = match read_branches(bytes, p3, nb as usize) {
        Ok(x) => x,
        Err(e) => {
            return Err(e);
        },
    };
    let (default_child, p5) = match read_opt_u32(bytes, p4) {
        Ok(x) => x,
        Err(e) => {
            return Err(e);
        },
    };
    let x = DecisionNode { action: ProbeBundle { probes }, branches, default_child };
    proof {
        lemma_node_join(bytes@, pos as int, x@);
    }
    Ok((x, p5))
}

/// Reads `n` nodes laid one after the other.
fn read_nodes(bytes: &[u8], pos: usize, n: usize) -> (r: Result<(Vec<DecisionNode>, usize), ArtifactError>)
    ensures
        r matches Ok((xs, p)) ==> xs@.len() == n && p == pos + enc_nodes(node_views(xs@)).len() && is_at(
            bytes@,
            pos as int,
            enc_nodes(node_views(xs@)),
        ) && forall|k: int| 0 <= k < n ==> node_fits(#[trigger] node_views(xs@)[k]),
        forall|vs: Seq<NodeView>|
            vs.len() == n && (forall|k: int| 0 <= k < n ==> node_fits(#[trigger] vs[k])) && #[trigger] is_at(
                bytes@,
                pos as int,
                enc_nodes(vs),
            ) ==> (r matches Ok((ys, p)) && node_views(ys@) == vs),
{
    if pos > bytes.len() {
        return Err(ArtifactError::Truncated);
    }
    let mut out: Vec<DecisionNode> = Vec::new();
    let mut cur = pos;
    let mut i: usize = 0;
    proof {
        assert(node_views(out@) =~= Seq::<NodeView>::empty());
        assert(bytes@.subrange(pos as int, pos as int) =~= Seq::<u8>::empty());
        assert forall|vs: Seq<NodeView>|
            vs.len() == n && (forall|k: int| 0 <= k < n ==> node_fits(#[trigger] vs[k])) && #[trigger] is_at(
                bytes@,
                pos as int,
                enc_nodes(vs),
            ) implies node_views(out@) == vs.take(0) by {
            assert(vs.take(0) =~= Seq::<NodeView>::empty());
        }
    }
    while i < n
        invariant
            i <= n,
            out@.len() == i,
            cur == pos + enc_nodes(node_views(out@)).len(),
            is_at(bytes@, pos as int, enc_nodes(node_views(out@))),
            forall|k: int| 0 <= k < i ==> node_fits(#[trigger] node_views(out@)[k]),
            forall|vs: Seq<NodeView>|
                vs.len() == n && (forall|k: int| 0 <= k < n ==> node_fits(#[trigger] vs[k])) && #[trigger] is_at(
                    bytes@,
                    pos as int,
                    enc_nodes(vs),
                ) ==> node_views(out@) == vs.take(i as int),
        decreases n - i,
    {
        let ghost before = node_views(out@);
        proof {
            assert forall|vs: Seq<NodeView>|
                vs.len() == n && (forall|k: int| 0 <= k < n ==> node_fits(#[trigger] vs[k])) && #[trigger] is_at(
                    bytes@,
                    pos as int,
                    enc_nodes(vs),
                ) implies is_at(bytes@, cur as int, enc_node(vs[i as int])) && node_fits(vs[i as int]) by {
                lemma_enc_seq_at(bytes@, pos as int, vs, node_fn(), i as int);
            }
        }
        match read_node(bytes, cur) {
            Ok((x, q)) => {
                let ghost xv = x@;
                proof {
                    lemma_enc_seq_extend(bytes@, pos as int, before, xv, node_fn());
                    assert forall|vs: Seq<NodeView>|
                        vs.len() == n && (forall|k: int| 0 <= k < n ==> node_fits(#[trigger] vs[k])) && #[trigger] is_at(
                            bytes@,
                            pos as int,
                            enc_nodes(vs),
                        ) implies before.push(xv) == vs.take(i + 1) by {
                        assert(vs.take(i + 1) =~= vs.take(i as int).push(vs[i as int]));
                    }
                }
                out.push(x);
                proof {
                    assert(node_views(out@) =~= before.push(xv));
                }
                cur = q;
            },
            Err(e) => {
                return Err(e);
            },
        }
        i = i + 1;
    }
    proof {
        assert forall|vs: Seq<NodeView>|
            vs.len() == n && (forall|k: int| 0 <= k < n ==> node_fits(#[trigger] vs[k])) && #[trigger] is_at(
                bytes@,
                pos as int,
                enc_nodes(vs),
            ) implies node_views(out@) == vs by {
            assert(vs.take(n as int) =~= vs);
        }
    }
    Ok((out, cur))
}

proof fn lemma_payload_split(bytes: Seq<u8>, pos: int, v: SchemeView)
    requires
        is_at(bytes, pos, scheme_payload(v)),
    ensures
        is_at(bytes, pos, be32(v.capacity)),
        is_at(bytes, pos + 4, seq![codec_tag(v.codec)]),
        is_at(bytes, pos + 5, enc_fallback(v.fallback)),
        is_at(bytes, pos + 5 + enc_fallback(v.fallback).len(), enc_opt_u32(v.root)),
        is_at(bytes, pos + 5 + enc_fallback(v.fallback).len() + enc_opt_u32(v.root).len(), be32(v.nodes.len() as u32)),
        is_at(bytes, pos + 9 + enc_fallback(v.fallback).len() + enc_opt_u32(v.root).len(), enc_nodes(v.nodes)),
{
    let ef = enc_fallback(v.fallback);
    let eo = enc_opt_u32(v.root);
    let t5 = be32(v.nodes.len() as u32) + enc_nodes(v.nodes);
    let t4 = eo + t5;
    let t3 = ef + t4;
    let t2 = seq![codec_tag(v.codec)] + t3;
    lemma_is_at_split(bytes, pos, be32(v.capacity), t2);
    lemma_is_at_split(bytes, pos + 4, seq![codec_tag(v.codec)], t3);
    lemma_is_at_split(bytes, pos + 5, ef, t4);
    lemma_is_at_split(bytes, pos + 5 + ef.len(), eo, t5);
    lemma_is_at_split(bytes, pos + 5 + ef.len() + eo.len(), be32(v.nodes.len() as u32), enc_nodes(v.nodes));
}

proof fn lemma_payload_join(bytes: Seq<u8>, pos: int, v: SchemeView)
    requires
        is_at(bytes, pos, be32(v.capacity)),
        is_at(bytes, pos + 4, seq![codec_tag(v.codec)]),
        is_at(bytes, pos + 5, enc_fallback(v.fallback)),
        is_at(bytes, pos + 5 + enc_fallback(v.fallback).len(), enc_opt_u32(v.root)),
        is_at(bytes, pos + 5 + enc_fallback(v.fallback).len() + enc_opt_u32(v.root).len(), be32(v.nodes.len() as u32)),
        is_at(bytes, pos + 9 + enc_fallback(v.fallback).len() + enc_opt_u32(v.root).len(), enc_nodes(v.nodes)),
    ensures
        is_at(bytes, pos, scheme_payload(v)),
        scheme_payload(v).len() == 9 + enc_fallback(v.fallback).len() + enc_opt_u32(v.root).len() + enc_nodes(
            v.nodes,
        ).len(),
{
    let ef = enc_fallback(v.fallback);
    let eo = enc_opt_u32(v.root);
    lemma_is_at_join(bytes, pos + 5 + ef.len() + eo.len(), be32(v.nodes.len() as u32), enc_nodes(v.nodes));
    let t5 = be32(v.nodes.len() as u32) + enc_nodes(v.nodes);
    lemma_is_at_join(bytes, pos + 5 + ef.len(), eo, t5);
    let t4 = eo + t5;
    lemma_is_at_join(bytes, pos + 5, ef, t4);
    let t3 = ef + t4;
    lemma_is_at_join(bytes, pos + 4, seq![codec_tag(v.codec)], t3);
    let t2 = seq![codec_tag(v.codec)] + t3;
    lemma_is_at_join(bytes, pos, be32(v.capacity), t2);
}

/// Reads a scheme payload.
pub fn read_scheme_payload(bytes: &[u8], pos: usize) -> (r: Result<(Scheme, usize), ArtifactError>)
    ensures
        r matches Ok((s, p)) ==> p == pos + scheme_payload(s@).len() && is_at(bytes@, pos as int, scheme_payload(s@))
            && scheme_encodable(s@),
        forall|v: SchemeView|
            scheme_encodable(v) && #[trigger] is_at(bytes@, pos as int, scheme_payload(v)) ==> (r matches Ok((s, p))
                && s@ == v),
{
    proof {
        assert forall|v: SchemeView| scheme_encodable(v) && #[trigger] is_at(bytes@, pos as int, scheme_payload(v)) implies is_at(
            bytes@,
            pos as int,
            be32(v.capacity),
        ) && is_at(bytes@, pos + 4, seq![codec_tag(v.codec)]) && is_at(bytes@, pos + 5, enc_fallback(v.fallback))
            && is_at(bytes@, pos + 5 + enc_fallback(v.fallback).len(), enc_opt_u32(v.root)) && is_at(
            bytes@,
            pos + 5 + enc_fallback(v.fallback).len() + enc_opt_u32(v.root).len(),
            be32(v.nodes.len() as u32),
        ) && is_at(bytes@, pos + 9 + enc_fallback(v.fallback).len() + enc_opt_u32(v.root).len(), enc_nodes(v.nodes))
            by {
            lemma_payload_split(bytes@, pos as int, v);
        }
    }
    let (capacity, p1) = match take_u32(bytes, pos) {
        Ok(x) => x,
        Err(e) => {
            return Err(e);
        },
    };
    let (codec, p2) = match read_codec(bytes, p1) {
        Ok(x) => x,
        Err(e) => {
            return Err(e);
        },
    };
    let (fallback, p3) = match read_fallback(bytes, p2) {
        Ok(x) => x,
        Err(e) => {
            return Err(e);
        },
    };
    let (root, p4) = match read_opt_u32(bytes, p3) {
        Ok(x) => x,
        Err(e) => {
            return Err(e);
        },
    };
    let (nn, p5) = match take_u32(bytes, p4) {
        Ok(x) => x,
        Err(e) => {
            return Err(e);
        },
    };
    let (nodes, p6) = match read_nodes(bytes, p5, nn as usize) {
        Ok(x) => x,
        Err(e) => {
            return Err(e);
        },
    };
    let s = Scheme { capacity, codec, root, nodes, fallback };
    proof {
        assert(s@.nodes == node_views(nodes@));
        lemma_payload_join(bytes@, pos as int, s@);
    }
    Ok((s, p6))
}

// ---------------------------------------------------------------------------
// Entries and the whole snapshot
// ---------------------------------------------------------------------------

pub open spec fn enc_opt_bytes(o: Option<Seq<u8>>) -> Seq<u8> {
    match o {
        None => seq![0u8],
        Some(b) => seq![1u8] + enc_bytes(b),
    }
}

pub open spec fn atom_fn() -> spec_fn(AtomId) -> Seq<u8> {
    |a: AtomId| be32(a.0)
}

pub open spec fn enc_atoms(a: Seq<AtomId>) -> Seq<u8> {
    enc_seq(a, atom_fn())
}

/// An entry as bytes: its content, its identifier, its address.
pub open spec fn enc_entry(e: EntryView) -> Seq<u8> {
    enc_bytes(e.bytes) + (enc_opt_bytes(e.identifier) + (be32(e.address.len() as u32) + enc_atoms(e.address)))
}

pub open spec fn entry_fn() -> spec_fn(EntryView) -> Seq<u8> {
    |e: EntryView| enc_entry(e)
}

pub open spec fn enc_entries(es: Seq<EntryView>) -> Seq<u8> {
    enc_seq(es, entry_fn())
}

/// An optional byte string whose length fits its 32-bit prefix.
pub open spec fn opt_fits(o: Option<Seq<u8>>) -> bool {
    o matches Some(b) ==> fits(b)
}

/// Every length of an entry fits its 32-bit prefix.
pub open spec fn entry_fits(e: EntryView) -> bool {
    &&& fits(e.bytes)
    &&& opt_fits(e.identifier)
    &&& e.address.len() <= u32::MAX
}

/// "TECANB01".
pub open spec fn snapshot_magic() -> Seq<u8> {
    seq![84u8, 69u8, 67u8, 65u8, 78u8, 66u8, 48u8, 49u8]
}

/// The snapshot of a neighborhood: magic, scheme, entry count, entries in
/// byte order.
pub open spec fn neighborhood_bytes(v: NeighborhoodView) -> Seq<u8> {
    snapshot_bytes(v.compiled.scheme, v.entries)
}

/// The snapshot of scheme `s` holding the entries `es`.
pub open spec fn snapshot_bytes(s: SchemeView, es: Seq<EntryView>) -> Seq<u8> {
    snapshot_magic() + (scheme_payload(s) + (be32(es.len() as u32) + enc_entries(es)))
}

/// A canonical neighborhood over a simple scheme, every count of which fits
/// the format: what a snapshot gives back exactly.
pub open spec fn snapshot_ok(v: NeighborhoodView) -> bool {
    &&& compiled_ok(v.compiled)
    &&& scheme_simple(v.compiled.scheme)
    &&& v.compiled == simple_view(v.compiled.scheme)
    &&& rows_ok(v.compiled, v.entries)
    &&& addresses_ok(v.compiled, v.entries)
    &&& snapshot_encodable(v)
}

/// Whether every count of the neighborhood fits its 32-bit prefix.
pub open spec fn snapshot_encodable(v: NeighborhoodView) -> bool {
    &&& scheme_encodable(v.compiled.scheme)
    &&& v.entries.len() <= u32::MAX
    &&& forall|i: int| 0 <= i < v.entries.len() ==> entry_fits(#[trigger] v.entries[i])
}

fn put_opt_bytes(out: &mut Vec<u8>, o: Option<&[u8]>) -> (r: Result<(), ArtifactError>)
    ensures
        ({
            let ov = match o {
                Some(b) => Some(b@),
                None => None::<Seq<u8>>,
            };
            &&& opt_fits(ov) ==> r is Ok && final(out)@ == old(out)@ + enc_opt_bytes(ov)
            &&& !opt_fits(ov) ==> r == Err::<(), ArtifactError>(ArtifactError::CountOverflow)
        }),
{
    match o {
        None => {
            put_u8(out, 0);
            Ok(())
        },
        Some(b) => {
            put_u8(out, 1);
            let r = put_bytes(out, b);
            proof {
                if r is Ok {
                    assert(out@ =~= old(out)@ + enc_opt_bytes(Some(b@)));
                }
            }
            r
        },
    }
}

fn put_atoms(out: &mut Vec<u8>, atoms: &[AtomId])
    ensures
        final(out)@ == old(out)@ + enc_atoms(atoms@),
{
    let ghost mid = out@;
    let mut i: usize = 0;
    proof {
        assert(atoms@.take(0) =~= Seq::<AtomId>::empty());
        assert(out@ =~= mid + enc_atoms(atoms@.take(0)));
    }
    while i < atoms.len()
        invariant
            i <= atoms@.len(),
            out@ == mid + enc_atoms(atoms@.take(i as int)),
        decreases atoms@.len() - i,
    {
        put_u32(out, atoms[i].0);
        proof {
            assert(atoms@.take(i + 1).drop_last() =~= atoms@.take(i as int));
            assert(out@ =~= mid + enc_atoms(atoms@.take(i + 1)));
        }
        i = i + 1;
    }
    proof {
        assert(atoms@.take(atoms@.len() as int) =~= atoms@);
    }
}

fn put_entry(out: &mut Vec<u8>, e: &NeighborhoodEntry) -> (r: Result<(), ArtifactError>)
    ensures
        entry_fits(e@) ==> r is Ok && final(out)@ == old(out)@ + enc_entry(e@),
        !entry_fits(e@) ==> r == Err::<(), ArtifactError>(ArtifactError::CountOverflow),
{
    let atoms = e.address().atoms();
    if atoms.len() > 4294967295usize {
        return Err(ArtifactError::CountOverflow);
    }
    match put_bytes(out, e.bytes()) {
        Ok(()) => {},
        Err(x) => {
            return Err(x);
        },
    }
    let ghost a = out@;
    match put_opt_bytes(out, e.identifier()) {
        Ok(()) => {},
        Err(x) => {
            return Err(x);
        },
    }
    let ghost b = out@;
    put_u32(out, atoms.len() as u32);
    put_atoms(out, atoms);
    proof {
        assert(out@ =~= old(out)@ + enc_entry(e@));
    }
    Ok(())
}

fn put_snapshot_magic(out: &mut Vec<u8>)
    ensures
        final(out)@ == old(out)@ + snapshot_magic(),
{
    out.push(84u8);
    out.push(69u8);
    out.push(67u8);
    out.push(65u8);
    out.push(78u8);
    out.push(66u8);
    out.push(48u8);
    out.push(49u8);
    proof {
        assert(out@ =~= old(out)@ + snapshot_magic());
    }
}

/// Encodes a neighborhood as a byte-stable snapshot.
pub fn encode_neighborhood(n: &Neighborhood) -> (r: Result<Vec<u8>, ArtifactError>)
    requires
        n.wf(),
    ensures
        snapshot_encodable(n@) ==> (r matches Ok(b) && b@ == neighborhood_bytes(n@)),
        !snapshot_encodable(n@) ==> r == Err::<Vec<u8>, ArtifactError>(ArtifactError::CountOverflow),
{
    let mut out: Vec<u8> = Vec::new();
    put_snapshot_magic(&mut out);
    match put_scheme_payload(&mut out, n.scheme()) {
        Ok(()) => {},
        Err(e) => {
            return Err(e);
        },
    }
    let entries = n.entries();
    let ghost es = n@.entries;
    if entries.len() > 4294967295usize {
        return Err(ArtifactError::CountOverflow);
    }
    put_u32(&mut out, entries.len() as u32);
    let ghost mid = out@;
    let mut i: usize = 0;
    proof {
        assert(es.take(0) =~= Seq::<EntryView>::empty());
        assert(out@ =~= mid + enc_entries(es.take(0)));
    }
    while i < entries.len()
        invariant
            es == views(entries@),
            es == n@.entries,
            i <= entries@.len(),
            out@ == mid + enc_entries(es.take(i as int)),
            forall|k: int| 0 <= k < i ==> entry_fits(#[trigger] es[k]),
        decreases entries@.len() - i,
    {
        proof {
            assert(es[i as int] == entries@[i as int]@);
        }
        match put_entry(&mut out, &entries[i]) {
            Ok(()) => {},
            Err(e) => {
                proof {
                    assert(!entry_fits(es[i as int]));
                }
                return Err(e);
            },
        }
        proof {
            assert(es.take(i + 1).drop_last() =~= es.take(i as int));
            assert(out@ =~= mid + enc_entries(es.take(i + 1)));
        }
        i = i + 1;
    }
    proof {
        assert(es.take(es.len() as int) =~= es);
        assert(out@ =~= neighborhood_bytes(n@));
    }
    Ok(out)
}

// ---------------------------------------------------------------------------
// Reading entries back
// ---------------------------------------------------------------------------

fn read_opt_bytes(bytes: &[u8], pos: usize) -> (r: Result<(Option<Vec<u8>>, usize), ArtifactError>)
    ensures
        r matches Ok((o, p)) ==> p == pos + enc_opt_bytes(opt_bytes(o)).len() && is_at(
            bytes@,
            pos as int,
            enc_opt_bytes(opt_bytes(o)),
        ) && opt_fits(opt_bytes(o)),
        forall|o: Option<Seq<u8>>|
            opt_fits(o) && #[trigger] is_at(bytes@, pos as int, enc_opt_bytes(o)) ==> (r matches Ok((x, p))
                && opt_bytes(x) == o),
{
    let (t, p) = match read_u8(bytes, pos) {
        Ok(x) => x,
        Err(e) => {
            proof {
                assert forall|o: Option<Seq<u8>>| opt_fits(o) && #[trigger] is_at(bytes@, pos as int, enc_opt_bytes(o)) implies false by {
                    lemma_is_at_first(bytes@, pos as int, enc_opt_bytes(o));
                }
            }
            return Err(e);
        },
    };
    proof {
        lemma_is_at_one(bytes@, pos as int, t);
        assert forall|o: Option<Seq<u8>>| opt_fits(o) && #[trigger] is_at(bytes@, pos as int, enc_opt_bytes(o)) implies t
            == enc_opt_bytes(o)[0] by {
            lemma_is_at_first(bytes@, pos as int, enc_opt_bytes(o));
        }
    }
    if t == 0 {
        proof {
            assert(seq![t] =~= enc_opt_bytes(None));
        }
        Ok((None, p))
    } else if t == 1 {
        proof {
            assert forall|o: Option<Seq<u8>>| opt_fits(o) && #[trigger] is_at(bytes@, pos as int, enc_opt_bytes(o)) implies o is Some
                && fits(o->0) && is_at(bytes@, p as int, enc_bytes(o->0)) by {
                lemma_is_at_split(bytes@, pos as int, seq![1u8], enc_bytes(o->0));
            }
        }
        let (v, q) = match read_bytes(bytes, p) {
            Ok(x) => x,
            Err(e) => {
                return Err(e);
            },
        };
        proof {
            lemma_is_at_join(bytes@, pos as int, seq![t], enc_bytes(v@));
            assert(seq![t] + enc_bytes(v@) =~= enc_opt_bytes(Some(v@)));
        }
        Ok((Some(v), q))
    } else {
        Err(ArtifactError::UnsupportedTag { what: "optional bytes", tag: t })
    }
}

/// Reads `n` atoms laid one after the other.
fn read_atoms(bytes: &[u8], pos: usize, n: usize) -> (r: Result<(Vec<AtomId>, usize), ArtifactError>)
    ensures
        r matches Ok((xs, p)) ==> xs@.len() == n && p == pos + enc_atoms(xs@).len() && is_at(
            bytes@,
            pos as int,
            enc_atoms(xs@),
        ),
        forall|xs: Seq<AtomId>|
            xs.len() == n && #[trigger] is_at(bytes@, pos as int, enc_atoms(xs)) ==> (r matches Ok((ys, p)) && ys@
                == xs),
{
    if pos > bytes.len() {
        return Err(ArtifactError::Truncated);
    }
    let mut out: Vec<AtomId> = Vec::new();
    let mut cur = pos;
    let mut i: usize = 0;
    proof {
        assert(bytes@.subrange(pos as int, pos as int) =~= Seq::<u8>::empty());
        assert forall|xs: Seq<AtomId>| xs.len() == n && #[trigger] is_at(bytes@, pos as int, enc_atoms(xs)) implies out@
            == xs.take(0) by {
            assert(xs.take(0) =~= Seq::<AtomId>::empty());
        }
    }
    while i < n
        invariant
            i <= n,
            out@.len() == i,
            cur == pos + enc_atoms(out@).len(),
            is_at(bytes@, pos as int, enc_atoms(out@)),
            forall|xs: Seq<AtomId>|
                xs.len() == n && #[trigger] is_at(bytes@, pos as int, enc_atoms(xs)) ==> out@ == xs.take(i as int),
        decreases n - i,
    {
        let ghost before = out@;
        proof {
            assert forall|xs: Seq<AtomId>| xs.len() == n && #[trigger] is_at(bytes@, pos as int, enc_atoms(xs)) implies is_at(
                bytes@,
                cur as int,
                be32(xs[i as int].0),
            ) by {
                lemma_enc_seq_at(bytes@, pos as int, xs, atom_fn(), i as int);
            }
        }
        match take_u32(bytes, cur) {
            Ok((v, q)) => {
                let x = AtomId(v);
                proof {
                    assert(atom_fn()(x) == be32(v));
                    lemma_enc_seq_extend(bytes@, pos as int, before, x, atom_fn());
                    assert forall|xs: Seq<AtomId>| xs.len() == n && #[trigger] is_at(bytes@, pos as int, enc_atoms(xs)) implies before.push(
                        x,
                    ) == xs.take(i + 1) by {
                        assert(xs.take(i + 1) =~= xs.take(i as int).push(xs[i as int]));
                    }
                }
                out.push(x);
                cur = q;
            },
            Err(e) => {
                return Err(e);
            },
        }
        i = i + 1;
    }
    proof {
        assert forall|xs: Seq<AtomId>| xs.len() == n && #[trigger] is_at(bytes@, pos as int, enc_atoms(xs)) implies out@
            == xs by {
            assert(xs.take(n as int) =~= xs);
        }
    }
    Ok((out, cur))
}

/// An entry as read from a snapshot, before it is checked.
struct StoredEntry {
    bytes: Vec<u8>,
    identifier: Option<Vec<u8>>,
    address: Vec<AtomId>,
}

impl View for StoredEntry {
    type V = EntryView;

    closed spec fn view(&self) -> EntryView {
        EntryView { address: self.address@, bytes: self.bytes@, identifier: opt_bytes(self.identifier) }
    }
}

spec fn stored_views(xs: Seq<StoredEntry>) -> Seq<EntryView> {
    xs.map_values(|x: StoredEntry| x@)
}

proof fn lemma_entry_split(bytes: Seq<u8>, pos: int, v: EntryView)
    requires
        is_at(bytes, pos, enc_entry(v)),
    ensures
        is_at(bytes, pos, enc_bytes(v.bytes)),
        is_at(bytes, pos + enc_bytes(v.bytes).len(), enc_opt_bytes(v.identifier)),
        is_at(
            bytes,
            pos + enc_bytes(v.bytes).len() + enc_opt_bytes(v.identifier).len(),
            be32(v.address.len() as u32),
        ),
        is_at(bytes, pos + enc_bytes(v.bytes).len() + enc_opt_bytes(v.identifier).len() + 4, enc_atoms(v.address)),
{
    let eb = enc_bytes(v.bytes);
    let eo = enc_opt_bytes(v.identifier);
    let t3 = be32(v.address.len() as u32) + enc_atoms(v.address);
    let t2 = eo + t3;
    lemma_is_at_split(bytes, pos, eb, t2);
    lemma_is_at_split(bytes, pos + eb.len(), eo, t3);
    lemma_is_at_split(bytes, pos + eb.len() + eo.len(), be32(v.address.len() as u32), enc_atoms(v.address));
}

proof fn lemma_entry_join(bytes: Seq<u8>, pos: int, v: EntryView)
    requires
        is_at(bytes, pos, enc_bytes(v.bytes)),
        is_at(bytes, pos + enc_bytes(v.bytes).len(), enc_opt_bytes(v.identifier)),
        is_at(
            bytes,
            pos + enc_bytes(v.bytes).len() + enc_opt_bytes(v.identifier).len(),
            be32(v.address.len() as u32),
        ),
        is_at(bytes, pos + enc_bytes(v.bytes).len() + enc_opt_bytes(v.identifier).len() + 4, enc_atoms(v.address)),
    ensures
        is_at(bytes, pos, enc_entry(v)),
        enc_entry(v).len() == enc_bytes(v.bytes).len() + enc_opt_bytes(v.identifier).len() + 4 + enc_atoms(
            v.address,
        ).len(),
{
    let eb = enc_bytes(v.bytes);
    let eo = enc_opt_bytes(v.identifier);
    lemma_is_at_join(bytes, pos + eb.len() + eo.len(), be32(v.address.len() as u32), enc_atoms(v.address));
    let t3 = be32(v.address.len() as u32) + enc_atoms(v.address);
    lemma_is_at_join(bytes, pos + eb.len(), eo, t3);
    let t2 = eo + t3;
    lemma_is_at_join(bytes, pos, eb, t2);
}

fn read_entry(bytes: &[u8], pos: usize) -> (r: Result<(StoredEntry, usize), ArtifactError>)
    ensures
        r matches Ok((x, p)) ==> p == pos + enc_entry(x@).len() && is_at(bytes@, pos as int, enc_entry(x@))
            && entry_fits(x@),
        forall|v: EntryView|
            entry_fits(v) && #[trigger] is_at(bytes@, pos as int, enc_entry(v)) ==> (r matches Ok((y, p)) && y@ == v),
{
    proof {
        assert forall|v: EntryView| entry_fits(v) && #[trigger] is_at(bytes@, pos as int, enc_entry(v)) implies is_at(
            bytes@,
            pos as int,
            enc_bytes(v.bytes),
        ) && is_at(bytes@, pos + enc_bytes(v.bytes).len(), enc_opt_bytes(v.identifier)) && is_at(
            bytes@,
            pos + enc_bytes(v.bytes).len() + enc_opt_bytes(v.identifier).len(),
            be32(v.address.len() as u32),
        ) && is_at(
            bytes@,
            pos + enc_bytes(v.bytes).len() + enc_opt_bytes(v.identifier).len() + 4,
            enc_atoms(v.address),
        ) by {
            lemma_entry_split(bytes@, pos as int, v);
        }
    }
    let (content, p1) = match read_bytes(bytes, pos) {
        Ok(x) => x,
        Err(e) => {
            return Err(e);
        },
    };
    let (identifier, p2) = match read_opt_bytes(bytes, p1) {
        Ok(x) => x,
        Err(e) => {
            return Err(e);
        },
    };
    let (na, p3) = match take_u32(bytes, p2) {
        Ok(x) => x,
        Err(e) => {
            return Err(e);
        },
    };
    let (address, p4) = match read_atoms(bytes, p3, na as usize) {
        Ok(x) => x,
        Err(e) => {
            return Err(e);
        },
    };
    let x = StoredEntry { bytes: content, identifier, address };
    proof {
        lemma_entry_join(bytes@, pos as int, x@);
    }
    Ok((x, p4))
}

/// Reads `n` entries laid one after the other.
fn read_entries(bytes: &[u8], pos: usize, n: usize) -> (r: Result<(Vec<StoredEntry>, usize), ArtifactError>)
    ensures
        r matches Ok((xs, p)) ==> xs@.len() == n && p == pos + enc_entries(stored_views(xs@)).len() && is_at(
            bytes@,
            pos as int,
            enc_entries(stored_views(xs@)),
        ) && forall|k: int| 0 <= k < n ==> entry_fits(#[trigger] stored_views(xs@)[k]),
        forall|vs: Seq<EntryView>|
            vs.len() == n && (forall|k: int| 0 <= k < n ==> entry_fits(#[trigger] vs[k])) && #[trigger] is_at(
                bytes@,
                pos as int,
                enc_entries(vs),
            ) ==> (r matches Ok((ys, p)) && stored_views(ys@) == vs),
{
    if pos > bytes.len() {
        return Err(ArtifactError::Truncated);
    }
    let mut out: Vec<StoredEntry> = Vec::new();
    let mut cur = pos;
    let mut i: usize = 0;
    proof {
        assert(stored_views(out@) =~= Seq::<EntryView>::empty());
        assert(bytes@.subrange(pos as int, pos as int) =~= Seq::<u8>::empty());
        assert forall|vs: Seq<EntryView>|
            vs.len() == n && (forall|k: int| 0 <= k < n ==> entry_fits(#[trigger] vs[k])) && #[trigger] is_at(
                bytes@,
                pos as int,
                enc_entries(vs),
            ) implies stored_views(out@) == vs.take(0) by {
            assert(vs.take(0) =~= Seq::<EntryView>::empty());
        }
    }
    while i < n
        invariant
            i <= n,
            out@.len() == i,
            cur == pos + enc_entries(stored_views(out@)).len(),
            is_at(bytes@, pos as int, enc_entries(stored_views(out@))),
            forall|k: int| 0 <= k < i ==> entry_fits(#[trigger] stored_views(out@)[k]),
            forall|vs: Seq<EntryView>|
                vs.len() == n && (forall|k: int| 0 <= k < n ==> entry_fits(#[trigger] vs[k])) && #[trigger] is_at(
                    bytes@,
                    pos as int,
                    enc_entries(vs),
                ) ==> stored_views(out@) == vs.take(i as int),
        decreases n - i,
    {
        let ghost before = stored_views(out@);
        proof {
            assert forall|vs: Seq<EntryView>|
                vs.len() == n && (forall|k: int| 0 <= k < n ==> entry_fits(#[trigger] vs[k])) && #[trigger] is_at(
                    bytes@,
                    pos as int,
                    enc_entries(vs),
                ) implies is_at(bytes@, cur as int, enc_entry(vs[i as int])) && entry_fits(vs[i as int]) by {
                lemma_enc_seq_at(bytes@, pos as int, vs, entry_fn(), i as int);
            }
        }
        match read_entry(bytes, cur) {
            Ok((x, q)) => {
                let ghost xv = x@;
                proof {
                    lemma_enc_seq_extend(bytes@, pos as int, before, xv, entry_fn());
                    assert forall|vs: Seq<EntryView>|
                        vs.len() == n && (forall|k: int| 0 <= k < n ==> entry_fits(#[trigger] vs[k])) && #[trigger] is_at(
                            bytes@,
                            pos as int,
                            enc_entries(vs),
                        ) implies before.push(xv) == vs.take(i + 1) by {
                        assert(vs.take(i + 1) =~= vs.take(i as int).push(vs[i as int]));
                    }
                }
                out.push(x);
                proof {
                    assert(stored_views(out@) =~= before.push(xv));
                }
                cur = q;
            },
            Err(e) => {
                return Err(e);
            },
        }
        i = i + 1;
    }
    proof {
        assert forall|vs: Seq<EntryView>|
            vs.len() == n && (forall|k: int| 0 <= k < n ==> entry_fits(#[trigger] vs[k])) && #[trigger] is_at(
                bytes@,
                pos as int,
                enc_entries(vs),
            ) implies stored_views(out@) == vs by {
            assert(vs.take(n as int) =~= vs);
        }
    }
    Ok((out, cur))
}

// ---------------------------------------------------------------------------
// Decoding
// ---------------------------------------------------------------------------

proof fn lemma_snapshot_split(bytes: Seq<u8>, s: SchemeView, es: Seq<EntryView>)
    requires
        snapshot_bytes(s, es) == bytes,
    ensures
        is_at(bytes, 8int, scheme_payload(s)),
        is_at(bytes, 8int + scheme_payload(s).len(), be32(es.len() as u32)),
        is_at(bytes, 12int + scheme_payload(s).len(), enc_entries(es)),
        bytes.len() == 12 + scheme_payload(s).len() + enc_entries(es).len(),
        bytes.take(8) == snapshot_magic(),
{
    let t3 = be32(es.len() as u32) + enc_entries(es);
    let t2 = scheme_payload(s) + t3;
    assert(bytes.subrange(0, bytes.len() as int) =~= bytes);
    lemma_is_at_split(bytes, 0int, snapshot_magic(), t2);
    lemma_is_at_split(bytes, 8int, scheme_payload(s), t3);
    lemma_is_at_split(bytes, 8int + scheme_payload(s).len(), be32(es.len() as u32), enc_entries(es));
    assert(bytes.take(8) =~= bytes.subrange(0, 8));
}

proof fn lemma_snapshot_join(bytes: Seq<u8>, s: SchemeView, es: Seq<EntryView>)
    requires
        bytes.take(8) == snapshot_magic(),
        is_at(bytes, 8int, scheme_payload(s)),
        is_at(bytes, 8int + scheme_payload(s).len(), be32(es.len() as u32)),
        is_at(bytes, 12int + scheme_payload(s).len(), enc_entries(es)),
        bytes.len() == 12 + scheme_payload(s).len() + enc_entries(es).len(),
    ensures
        snapshot_bytes(s, es) == bytes,
{
    let t3 = be32(es.len() as u32) + enc_entries(es);
    lemma_is_at_join(bytes, 8int + scheme_payload(s).len(), be32(es.len() as u32), enc_entries(es));
    let t2 = scheme_payload(s) + t3;
    lemma_is_at_join(bytes, 8int, scheme_payload(s), t3);
    assert(bytes.take(8) =~= bytes.subrange(0, 8));
    lemma_is_at_join(bytes, 0int, snapshot_magic(), t2);
    assert(bytes.subrange(0, bytes.len() as int) =~= bytes);
}

/// Reads the magic, the scheme and the entries, and nothing after them.
fn parse_snapshot(bytes: &[u8]) -> (r: Result<(Scheme, Vec<StoredEntry>), ArtifactError>)
    ensures
        bytes@.len() < 8 ==> r == Err::<(Scheme, Vec<StoredEntry>), ArtifactError>(ArtifactError::Truncated),
        bytes@.len() >= 8 && bytes@.take(8) != snapshot_magic() ==> r == Err::<
            (Scheme, Vec<StoredEntry>),
            ArtifactError,
        >(ArtifactError::BadMagic),
        r matches Ok((s, es)) ==> snapshot_bytes(s@, stored_views(es@)) == bytes@ && scheme_encodable(s@)
            && es@.len() <= u32::MAX && forall|k: int|
            0 <= k < es@.len() ==> entry_fits(#[trigger] stored_views(es@)[k]),
        forall|s: SchemeView, es: Seq<EntryView>|
            scheme_encodable(s) && es.len() <= u32::MAX && (forall|k: int|
                0 <= k < es.len() ==> entry_fits(#[trigger] es[k])) && #[trigger] snapshot_bytes(s, es) == bytes@ ==> (
            r matches Ok((x, ys)) && x@ == s && stored_views(ys@) == es),
{
    let magic: [u8; 8] = [84u8, 69u8, 67u8, 65u8, 78u8, 66u8, 48u8, 49u8];
    proof {
        assert(magic@ =~= snapshot_magic());
        assert forall|s: SchemeView, es: Seq<EntryView>|
            scheme_encodable(s) && es.len() <= u32::MAX && (forall|k: int|
                0 <= k < es.len() ==> entry_fits(#[trigger] es[k])) && #[trigger] snapshot_bytes(s, es) == bytes@ implies is_at(
            bytes@,
            8int,
            scheme_payload(s),
        ) && is_at(bytes@, 8int + scheme_payload(s).len(), be32(es.len() as u32)) && is_at(
            bytes@,
            12int + scheme_payload(s).len(),
            enc_entries(es),
        ) && bytes@.len() == 12 + scheme_payload(s).len() + enc_entries(es).len() && bytes@.take(8) == snapshot_magic() by {
            lemma_snapshot_split(bytes@, s, es);
        }
    }
    match check_magic(bytes, &magic) {
        Ok(()) => {},
        Err(e) => {
            return Err(e);
        },
    }
    let (scheme, p) = match read_scheme_payload(bytes, 8) {
        Ok(x) => x,
        Err(e) => {
            return Err(e);
        },
    };
    let (count, p2) = match take_u32(bytes, p) {
        Ok(x) => x,
        Err(e) => {
            return Err(e);
        },
    };
    let (stored, q) = match read_entries(bytes, p2, count as usize) {
        Ok(x) => x,
        Err(e) => {
            return Err(e);
        },
    };
    if q != bytes.len() {
        return Err(ArtifactError::TrailingBytes);
    }
    proof {
        let sv = stored_views(stored@);
        assert(sv.len() as u32 == count);
        lemma_snapshot_join(bytes@, scheme@, sv);
    }
    Ok((scheme, stored))
}

proof fn lemma_bytes_ok_bound(len: nat)
    requires
        len <= usize::MAX,
    ensures
        bytes_ok(len) == (len <= usize::MAX / 32),
{
    if usize::MAX == 0xffff_ffff {
        assert(bytes_ok(len) == (len <= 0x7ff_ffff));
    } else {
        assert(usize::MAX == 0xffff_ffff_ffff_ffff);
        assert(bytes_ok(len) == (len <= 0x7ff_ffff_ffff_ffff));
    }
}

/// The rows of the stored entries, each within the machine bound.
fn rows_from_stored(stored: &Vec<StoredEntry>) -> (r: Result<Vec<NeighborhoodRow>, ArtifactError>)
    ensures
        r matches Ok(rows) ==> row_views(rows@) == entry_rows(stored_views(stored@)) && forall|k: int|
            0 <= k < rows@.len() ==> bytes_ok((#[trigger] rows@[k]).bytes@.len()),
        r is Err ==> exists|k: int|
            0 <= k < stored@.len() && !bytes_ok((#[trigger] stored_views(stored@)[k]).bytes.len()),
{
    let ghost sv = stored_views(stored@);
    let mut rows: Vec<NeighborhoodRow> = Vec::new();
    let mut i: usize = 0;
    while i < stored.len()
        invariant
            sv == stored_views(stored@),
            i <= stored@.len(),
            rows@.len() == i,
            forall|k: int| 0 <= k < i ==> row_view(#[trigger] rows@[k]) == (sv[k].bytes, sv[k].identifier),
            forall|k: int| 0 <= k < i ==> bytes_ok((#[trigger] rows@[k]).bytes@.len()),
        decreases stored@.len() - i,
    {
        let e = &stored[i];
        let len = e.bytes.len();
        proof {
            assert(sv[i as int] == e@);
            lemma_bytes_ok_bound(len as nat);
        }
        if len > usize::MAX / 32 {
            return Err(ArtifactError::CountOverflow);
        }
        rows.push(NeighborhoodRow { bytes: copy_bytes(e.bytes.as_slice()), identifier: copy_opt(&e.identifier) });
        i = i + 1;
    }
    proof {
        assert(row_views(rows@) =~= entry_rows(sv));
    }
    Ok(rows)
}

/// Whether the entries are exactly the stored ones.
fn stored_matches(entries: &[NeighborhoodEntry], stored: &Vec<StoredEntry>) -> (r: bool)
    ensures
        r == (views(entries@) == stored_views(stored@)),
{
    if entries.len() != stored.len() {
        proof {
            assert(views(entries@).len() != stored_views(stored@).len());
        }
        return false;
    }
    let mut i: usize = 0;
    while i < entries.len()
        invariant
            i <= entries@.len(),
            entries@.len() == stored@.len(),
            forall|k: int| 0 <= k < i ==> (#[trigger] entries@[k])@ == stored@[k]@,
        decreases entries@.len() - i,
    {
        let a = &entries[i];
        let b = &stored[i];
        let same_id = match (a.identifier(), &b.identifier) {
            (None, None) => true,
            (Some(x), Some(y)) => bytes_eq(x, y.as_slice()),
            _ => false,
        };
        if !bytes_eq(a.bytes(), b.bytes.as_slice()) || !same_id || !atoms_eq(a.address().atoms(), b.address.as_slice()) {
            proof {
                assert(views(entries@)[i as int] == a@);
                assert(stored_views(stored@)[i as int] == b@);
            }
            return false;
        }
        i = i + 1;
    }
    proof {
        assert(views(entries@) =~= stored_views(stored@));
    }
    true
}

/// Decodes a snapshot, rebuilding the neighborhood from its rows and
/// accepting it only when the stored entries are the canonical ones.
pub fn decode_neighborhood(bytes: &[u8]) -> (r: Result<Neighborhood, ArtifactError>)
    ensures
        bytes@.len() < 8 ==> r == Err::<Neighborhood, ArtifactError>(ArtifactError::Truncated),
        bytes@.len() >= 8 && bytes@.take(8) != snapshot_magic() ==> r == Err::<Neighborhood, ArtifactError>(
            ArtifactError::BadMagic,
        ),
        r matches Ok(n) ==> n.wf() && neighborhood_bytes(n@) == bytes@,
        forall|v: NeighborhoodView| snapshot_ok(v) && #[trigger] neighborhood_bytes(v) == bytes@ ==> (r matches Ok(n)
            && n@ == v),
{
    let (scheme, stored) = match parse_snapshot(bytes) {
        Ok(x) => x,
        Err(e) => {
            proof {
                assert forall|v: NeighborhoodView| snapshot_ok(v) && #[trigger] neighborhood_bytes(v) == bytes@ implies false by {
                    assert(snapshot_bytes(v.compiled.scheme, v.entries) == bytes@);
                }
            }
            return Err(e);
        },
    };
    let ghost sv = stored_views(stored@);
    let ghost s = scheme@;
    proof {
        assert forall|v: NeighborhoodView| snapshot_ok(v) && #[trigger] neighborhood_bytes(v) == bytes@ implies v.compiled.scheme
            == s && v.entries == sv by {
            assert(snapshot_bytes(v.compiled.scheme, v.entries) == bytes@);
        }
    }
    let rows = match rows_from_stored(&stored) {
        Ok(x) => x,
        Err(e) => {
            return Err(e);
        },
    };
    let n = match Neighborhood::from_rows(scheme, rows) {
        Ok(n) => n,
        Err(e) => {
            proof {
                assert forall|v: NeighborhoodView| snapshot_ok(v) && #[trigger] neighborhood_bytes(v) == bytes@ implies false by {
                    lemma_insert_all_rows(v.compiled, v.entries);
                }
            }
            return match e {
                NeighborhoodError::InvalidScheme(x) => Err(ArtifactError::InvalidScheme(x)),
                other => Err(ArtifactError::InvalidNeighborhood(other)),
            };
        },
    };
    proof {
        n.lemma_wf();
    }
    if !stored_matches(n.entries(), &stored) {
        proof {
            assert forall|v: NeighborhoodView| snapshot_ok(v) && #[trigger] neighborhood_bytes(v) == bytes@ implies false by {
                lemma_insert_all_rows(v.compiled, v.entries);
                lemma_canonical_determined(v.compiled, n@.entries, v.entries);
            }
        }
        return Err(
            ArtifactError::InvalidNeighborhood(
                NeighborhoodError::InvalidState("snapshot entries are not the canonical ones"),
            ),
        );
    }
    proof {
        assert(n@.entries == sv);
        assert forall|v: NeighborhoodView| snapshot_ok(v) && #[trigger] neighborhood_bytes(v) == bytes@ implies n@ == v by {
            lemma_insert_all_rows(v.compiled, v.entries);
        }
    }
    Ok(n)
}

/// Snapshots depend only on the scheme and the rows held: neighborhoods that
/// hold the same rows over the same compiled scheme, however they were built,
/// have byte-identical snapshots.
pub proof fn lemma_snapshot_determined(v1: NeighborhoodView, v2: NeighborhoodView)
    requires
        v1.compiled == v2.compiled,
        rows_ok(v1.compiled, v1.entries),
        addresses_ok(v1.compiled, v1.entries),
        rows_ok(v2.compiled, v2.entries),
        addresses_ok(v2.compiled, v2.entries),
        rows_of(v1.entries) == rows_of(v2.entries),
    ensures
        neighborhood_bytes(v1) == neighborhood_bytes(v2),
{
    lemma_canonical_determined(v1.compiled, v1.entries, v2.entries);
}

} // verus!
