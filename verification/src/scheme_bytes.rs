//! Cooked scheme artifacts: the scheme with its objective, status and cook
//! certificate, as byte-stable files.
use crate::artifact::{
    be32, check_magic, enc_string, fits, is_at, lemma_is_at_join, lemma_is_at_split, put_string, put_u32, put_u8,
    read_bytes, read_string, read_u8, ArtifactError, CookObjectiveDescriptor, CookStatus,
};
use crate::prior::WeightExpr;
use crate::bundle::BundleError;
use crate::fallback::FallbackDescriptor;
use crate::prior_bytes::{enc_weight, strip_zeros, units_from_raw};
use crate::probe::FieldDescriptor;
use crate::scheme::{scheme_simple, validate_spec, Scheme, SchemeError, SchemeView};
use crate::snapshot::{
    lemma_is_at_first, lemma_is_at_one, put_scheme_payload, read_scheme_payload, scheme_encodable, scheme_payload,
    take_u32,
};
use vstd::prelude::*;

pub use crate::fallback::be_value;
use vstd::utf8::encode_utf8;

verus! {

// ---------------------------------------------------------------------------
// Certificates
// ---------------------------------------------------------------------------

/// Exact weights the cooker certified, as fixed-point numbers.
#[derive(Clone, Debug, PartialEq, Eq)]
pub struct CookCertificateArtifact {
    pub total_weight: WeightExpr,
    pub objective_cost: WeightExpr,
    pub root_lower_bound: WeightExpr,
    pub explored_states: u64,
    pub memoized_states: u64,
}

/// A weight as plain values: its units' big-endian bytes and its scale.
pub open spec fn weight_view(w: WeightExpr) -> (Seq<u8>, u32) {
    match w {
        WeightExpr::FixedPoint { units, fractional_bits } => (units@, fractional_bits),
    }
}

/// Mathematical content of a certificate.
pub struct CertificateView {
    pub total: (Seq<u8>, u32),
    pub objective: (Seq<u8>, u32),
    pub lower: (Seq<u8>, u32),
    pub explored: u64,
    pub memoized: u64,
}

impl View for CookCertificateArtifact {
    type V = CertificateView;

    open spec fn view(&self) -> CertificateView {
        CertificateView {
            total: weight_view(self.total_weight),
            objective: weight_view(self.objective_cost),
            lower: weight_view(self.root_lower_bound),
            explored: self.explored_states,
            memoized: self.memoized_states,
        }
    }
}


/// Units written without a leading zero byte, zero as the empty string.
pub open spec fn units_canonical(u: Seq<u8>) -> bool {
    u.len() == 0 || u[0] != 0
}

/// A certificate of one scale whose bounds are ordered:
/// total weight <= root lower bound <= objective cost.
pub open spec fn cert_ok(c: CertificateView) -> bool {
    &&& units_canonical(c.total.0)
    &&& units_canonical(c.objective.0)
    &&& units_canonical(c.lower.0)
    &&& c.total.1 == c.objective.1
    &&& c.total.1 == c.lower.1
    &&& be_value(c.total.0) <= be_value(c.lower.0)
    &&& be_value(c.lower.0) <= be_value(c.objective.0)
}

/// `BigUint::from_bytes_be(a) <= BigUint::from_bytes_be(b)`: whether the
/// number that the big-endian bytes `a` spell is at most that of `b`.
#[verifier::external_body]
pub(crate) fn biguint_le(a: &[u8], b: &[u8]) -> (r: bool)
    ensures
        r == (be_value(a@) <= be_value(b@)),
{
    num_bigint::BigUint::from_bytes_be(a) <= num_bigint::BigUint::from_bytes_be(b)
}

fn canonical_units(u: &Vec<u8>) -> (r: bool)
    ensures
        r == units_canonical(u@),
{
    u.len() == 0 || u[0] != 0
}

/// Checks a certificate: canonical units, one scale, ordered bounds.
pub fn validate_certificate_kind(cert: &CookCertificateArtifact) -> (r: Result<(), ArtifactError>)
    ensures
        r is Ok == cert_ok(cert@),
        r is Err ==> r->Err_0 is InvalidPrior,
{
    match (&cert.total_weight, &cert.objective_cost, &cert.root_lower_bound) {
        (
            WeightExpr::FixedPoint { units: total, fractional_bits: a },
            WeightExpr::FixedPoint { units: objective, fractional_bits: b },
            WeightExpr::FixedPoint { units: lower, fractional_bits: c },
        ) => {
            if !canonical_units(total) || !canonical_units(objective) || !canonical_units(lower) {
                return Err(
                    ArtifactError::InvalidPrior("certificate weight units must have no leading zero byte"),
                );
            }
            if *a != *b || *a != *c {
                return Err(ArtifactError::InvalidPrior("certificate fixed-point scales differ"));
            }
            if biguint_le(total.as_slice(), lower.as_slice()) && biguint_le(lower.as_slice(), objective.as_slice()) {
                Ok(())
            } else {
                Err(
                    ArtifactError::InvalidPrior(
                        "certificate must satisfy total_weight <= root_lower_bound <= objective_cost",
                    ),
                )
            }
        },
    }
}

// ---------------------------------------------------------------------------
// The artifact
// ---------------------------------------------------------------------------

#[derive(Clone, Debug, PartialEq, Eq)]
pub struct SchemeArtifact {
    pub scheme: Scheme,
    pub objective: CookObjectiveDescriptor,
    pub cook_status: CookStatus,
    pub certificate: CookCertificateArtifact,
    pub spec_revision: String,
    pub cooker_revision: String,
}

/// Mathematical content of a scheme artifact.
pub struct SchemeArtifactView {
    pub scheme: SchemeView,
    pub objective: CookObjectiveDescriptor,
    pub cook_status: CookStatus,
    pub certificate: CertificateView,
    pub spec_revision: Seq<char>,
    pub cooker_revision: Seq<char>,
}

impl View for SchemeArtifact {
    type V = SchemeArtifactView;

    open spec fn view(&self) -> SchemeArtifactView {
        SchemeArtifactView {
            scheme: self.scheme@,
            objective: self.objective,
            cook_status: self.cook_status,
            certificate: self.certificate@,
            spec_revision: self.spec_revision@,
            cooker_revision: self.cooker_revision@,
        }
    }
}

/// "TECASM02".
pub open spec fn scheme_magic() -> Seq<u8> {
    seq![84u8, 69u8, 67u8, 65u8, 83u8, 77u8, 48u8, 50u8]
}

/// `v` as eight big-endian bytes.
pub open spec fn be64(v: u64) -> Seq<u8> {
    be32((v >> 32u64) as u32) + be32((v & 0xffff_ffffu64) as u32)
}

pub open spec fn status_tag(s: CookStatus) -> u8 {
    match s {
        CookStatus::ExactRelativeToPrior => 0u8,
        CookStatus::ApproximateRelativeToPrior => 1u8,
    }
}

pub open spec fn enc_certificate(c: CertificateView) -> Seq<u8> {
    enc_weight(c.total.0, c.total.1) + (enc_weight(c.objective.0, c.objective.1) + (enc_weight(c.lower.0, c.lower.1)
        + (be64(c.explored) + be64(c.memoized))))
}

/// Magic, objective, status and revisions.
pub open spec fn scheme_artifact_head(a: SchemeArtifactView) -> Seq<u8> {
    scheme_magic() + seq![0u8] + seq![status_tag(a.cook_status)] + enc_string(a.spec_revision) + enc_string(
        a.cooker_revision,
    )
}

/// The encoding of a scheme artifact.
pub open spec fn scheme_artifact_bytes(a: SchemeArtifactView) -> Seq<u8> {
    scheme_artifact_head(a) + (enc_certificate(a.certificate) + scheme_payload(a.scheme))
}

/// Every length of the artifact fits its 32-bit prefix.
pub open spec fn scheme_artifact_encodable(a: SchemeArtifactView) -> bool {
    &&& fits(encode_utf8(a.spec_revision))
    &&& fits(encode_utf8(a.cooker_revision))
    &&& fits(a.certificate.total.0)
    &&& fits(a.certificate.objective.0)
    &&& fits(a.certificate.lower.0)
    &&& scheme_encodable(a.scheme)
}

fn put_u64(out: &mut Vec<u8>, v: u64)
    ensures
        final(out)@ == old(out)@ + be64(v),
{
    put_u32(out, (v >> 32u64) as u32);
    put_u32(out, (v & 0xffff_ffffu64) as u32);
    proof {
        assert(out@ =~= old(out)@ + be64(v));
    }
}

fn put_weight(out: &mut Vec<u8>, w: &WeightExpr) -> (r: Result<(), ArtifactError>)
    ensures
        fits(weight_view(*w).0) ==> r is Ok && final(out)@ == old(out)@ + enc_weight(
            weight_view(*w).0,
            weight_view(*w).1,
        ),
        !fits(weight_view(*w).0) ==> r == Err::<(), ArtifactError>(ArtifactError::CountOverflow),
{
    match w {
        WeightExpr::FixedPoint { units, fractional_bits } => {
            put_u8(out, 0);
            match crate::artifact::put_bytes(out, units.as_slice()) {
                Ok(()) => {},
                Err(e) => {
                    return Err(e);
                },
            }
            put_u32(out, *fractional_bits);
            proof {
                assert(out@ =~= old(out)@ + enc_weight(units@, *fractional_bits));
            }
            Ok(())
        },
    }
}

fn put_certificate(out: &mut Vec<u8>, c: &CookCertificateArtifact) -> (r: Result<(), ArtifactError>)
    ensures
        fits(c@.total.0) && fits(c@.objective.0) && fits(c@.lower.0) ==> r is Ok && final(out)@ == old(out)@
            + enc_certificate(c@),
        !(fits(c@.total.0) && fits(c@.objective.0) && fits(c@.lower.0)) ==> r == Err::<(), ArtifactError>(
            ArtifactError::CountOverflow,
        ),
{
    match put_weight(out, &c.total_weight) {
        Ok(()) => {},
        Err(e) => {
            return Err(e);
        },
    }
    match put_weight(out, &c.objective_cost) {
        Ok(()) => {},
        Err(e) => {
            return Err(e);
        },
    }
    match put_weight(out, &c.root_lower_bound) {
        Ok(()) => {},
        Err(e) => {
            return Err(e);
        },
    }
    put_u64(out, c.explored_states);
    put_u64(out, c.memoized_states);
    proof {
        assert(out@ =~= old(out)@ + enc_certificate(c@));
    }
    Ok(())
}

fn put_scheme_magic(out: &mut Vec<u8>)
    ensures
        final(out)@ == old(out)@ + scheme_magic(),
{
    out.push(84u8);
    out.push(69u8);
    out.push(67u8);
    out.push(65u8);
    out.push(83u8);
    out.push(77u8);
    out.push(48u8);
    out.push(50u8);
    proof {
        assert(out@ =~= old(out)@ + scheme_magic());
    }
}

fn put_scheme_artifact(artifact: &SchemeArtifact) -> (r: Result<Vec<u8>, ArtifactError>)
    ensures
        scheme_artifact_encodable(artifact@) ==> (r matches Ok(b) && b@ == scheme_artifact_bytes(artifact@)),
        !scheme_artifact_encodable(artifact@) ==> r == Err::<Vec<u8>, ArtifactError>(ArtifactError::CountOverflow),
{
    let ghost v = artifact@;
    let mut out: Vec<u8> = Vec::new();
    put_scheme_magic(&mut out);
    match artifact.objective {
        CookObjectiveDescriptor::ExpectedDistinguishingAtoms => put_u8(&mut out, 0),
    }
    match artifact.cook_status {
        CookStatus::ExactRelativeToPrior => put_u8(&mut out, 0),
        CookStatus::ApproximateRelativeToPrior => put_u8(&mut out, 1),
    }
    match put_string(&mut out, &artifact.spec_revision) {
        Ok(()) => {},
        Err(e) => {
            return Err(e);
        },
    }
    match put_string(&mut out, &artifact.cooker_revision) {
        Ok(()) => {},
        Err(e) => {
            return Err(e);
        },
    }
    let ghost head = out@;
    proof {
        assert(head == scheme_artifact_head(v));
    }
    match put_certificate(&mut out, &artifact.certificate) {
        Ok(()) => {},
        Err(e) => {
            return Err(e);
        },
    }
    let ghost mid = out@;
    match put_scheme_payload(&mut out, &artifact.scheme) {
        Ok(()) => {},
        Err(e) => {
            return Err(e);
        },
    }
    proof {
        let c = enc_certificate(v.certificate);
        let sp = scheme_payload(v.scheme);
        assert(mid == head + c);
        assert(out@ == mid + sp);
        assert(out@ =~= head + (c + sp));
    }
    Ok(out)
}

/// Encodes a scheme artifact whose scheme validates and whose certificate
/// is well formed.
pub fn encode_scheme(artifact: &SchemeArtifact) -> (r: Result<Vec<u8>, ArtifactError>)
    ensures
        r matches Ok(b) ==> crate::scheme::validate_spec(artifact@.scheme) is Ok && cert_ok(artifact@.certificate)
            && b@ == scheme_artifact_bytes(artifact@),
        crate::scheme::scheme_simple(artifact@.scheme) && crate::scheme::validate_spec(artifact@.scheme) is Err ==> r
            == Err::<Vec<u8>, ArtifactError>(
            ArtifactError::InvalidScheme(crate::scheme::validate_spec(artifact@.scheme)->Err_0),
        ),
        crate::scheme::scheme_simple(artifact@.scheme) && crate::scheme::validate_spec(artifact@.scheme) is Ok
            && !cert_ok(artifact@.certificate) ==> (r matches Err(e) && e is InvalidPrior),
        crate::scheme::scheme_simple(artifact@.scheme) && crate::scheme::validate_spec(artifact@.scheme) is Ok
            && cert_ok(artifact@.certificate) && scheme_artifact_encodable(artifact@) ==> r is Ok,
        crate::scheme::validate_spec(artifact@.scheme) is Ok && cert_ok(artifact@.certificate)
            && !scheme_artifact_encodable(artifact@) ==> r is Err,
{
    match artifact.scheme.validate() {
        Ok(()) => {},
        Err(e) => {
            return Err(ArtifactError::InvalidScheme(e));
        },
    }
    match validate_certificate_kind(&artifact.certificate) {
        Ok(()) => {},
        Err(e) => {
            return Err(e);
        },
    }
    put_scheme_artifact(artifact)
}

// ---------------------------------------------------------------------------
// Reading a scheme artifact back
// ---------------------------------------------------------------------------

fn take_u64(bytes: &[u8], pos: usize) -> (r: Result<(u64, usize), ArtifactError>)
    ensures
        r matches Ok((v, p)) ==> p == pos + 8 && is_at(bytes@, pos as int, be64(v)),
        forall|w: u64| #[trigger] is_at(bytes@, pos as int, be64(w)) ==> (r matches Ok((v, p)) && v == w),
{
    proof {
        assert forall|w: u64| #[trigger] is_at(bytes@, pos as int, be64(w)) implies is_at(
            bytes@,
            pos as int,
            be32((w >> 32u64) as u32),
        ) && is_at(bytes@, pos + 4, be32((w & 0xffff_ffffu64) as u32)) by {
            lemma_is_at_split(bytes@, pos as int, be32((w >> 32u64) as u32), be32((w & 0xffff_ffffu64) as u32));
        }
    }
    let (hi, p1) = match take_u32(bytes, pos) {
        Ok(x) => x,
        Err(e) => {
            return Err(e);
        },
    };
    let (lo, p2) = match take_u32(bytes, p1) {
        Ok(x) => x,
        Err(e) => {
            return Err(e);
        },
    };
    let v: u64 = ((hi as u64) << 32u64) | (lo as u64);
    proof {
        assert((v >> 32u64) as u32 == hi && (v & 0xffff_ffffu64) as u32 == lo) by (bit_vector)
            requires
                v == ((hi as u64) << 32u64) | (lo as u64),
        ;
        lemma_is_at_join(bytes@, pos as int, be32(hi), be32(lo));
        assert forall|w: u64| #[trigger] is_at(bytes@, pos as int, be64(w)) implies v == w by {
            let h = (w >> 32u64) as u32;
            let l = (w & 0xffff_ffffu64) as u32;
            assert(hi == h && lo == l);
            assert(((h as u64) << 32u64) | (l as u64) == w) by (bit_vector)
                requires
                    h == (w >> 32u64) as u32,
                    l == (w & 0xffff_ffffu64) as u32,
            ;
        }
    }
    Ok((v, p2))
}

proof fn lemma_canonical_strip(u: Seq<u8>)
    requires
        units_canonical(u),
    ensures
        strip_zeros(u) == u,
{
}

/// Reads a weight, and gives its units as they were written.
fn read_weight(bytes: &[u8], pos: usize) -> (r: Result<(WeightExpr, Ghost<Seq<u8>>, usize), ArtifactError>)
    ensures
        r matches Ok((w, raw, p)) ==> p == pos + enc_weight(raw@, weight_view(w).1).len() && is_at(
            bytes@,
            pos as int,
            enc_weight(raw@, weight_view(w).1),
        ) && weight_view(w).0 == strip_zeros(raw@) && fits(raw@),
        forall|u: Seq<u8>, f: u32|
            fits(u) && units_canonical(u) && #[trigger] is_at(bytes@, pos as int, enc_weight(u, f)) ==> (r matches Ok(
                (w, raw, p),
            ) && weight_view(w) == (u, f) && raw@ == u),
{
    proof {
        assert forall|u: Seq<u8>, f: u32| fits(u) && units_canonical(u) && #[trigger] is_at(bytes@, pos as int, enc_weight(u, f)) implies is_at(
            bytes@,
            pos as int,
            seq![0u8],
        ) && is_at(bytes@, pos + 1, enc_bytes_of(u)) && is_at(bytes@, pos + 1 + enc_bytes_of(u).len(), be32(f)) by {
            lemma_is_at_split(bytes@, pos as int, seq![0u8], enc_bytes_of(u) + be32(f));
            lemma_is_at_split(bytes@, pos + 1, enc_bytes_of(u), be32(f));
        }
    }
    let (t, p1) = match read_u8(bytes, pos) {
        Ok(x) => x,
        Err(e) => {
            return Err(e);
        },
    };
    proof {
        lemma_is_at_one(bytes@, pos as int, t);
        assert forall|u: Seq<u8>, f: u32| fits(u) && units_canonical(u) && #[trigger] is_at(bytes@, pos as int, enc_weight(u, f)) implies t
            == 0 by {
            lemma_is_at_first(bytes@, pos as int, seq![0u8]);
        }
    }
    if t != 0 {
        return Err(ArtifactError::UnsupportedTag { what: "weight", tag: t });
    }
    let (raw, p2) = match read_bytes(bytes, p1) {
        Ok(x) => x,
        Err(e) => {
            return Err(e);
        },
    };
    let (fractional_bits, p3) = match take_u32(bytes, p2) {
        Ok(x) => x,
        Err(e) => {
            return Err(e);
        },
    };
    let units = units_from_raw(raw.as_slice());
    let ghost rv = raw@;
    proof {
        lemma_is_at_join(bytes@, p1 as int, enc_bytes_of(rv), be32(fractional_bits));
        lemma_is_at_join(bytes@, pos as int, seq![t], enc_bytes_of(rv) + be32(fractional_bits));
        assert(seq![t] + (enc_bytes_of(rv) + be32(fractional_bits)) =~= enc_weight(rv, fractional_bits));
        assert forall|u: Seq<u8>, f: u32| fits(u) && units_canonical(u) && #[trigger] is_at(bytes@, pos as int, enc_weight(u, f)) implies units@
            == u && fractional_bits == f && rv == u by {
            lemma_canonical_strip(u);
        }
    }
    Ok((WeightExpr::FixedPoint { units, fractional_bits }, Ghost(rv), p3))
}

pub open spec fn enc_bytes_of(u: Seq<u8>) -> Seq<u8> {
    crate::artifact::enc_bytes(u)
}

pub open spec fn cert_fits(c: CertificateView) -> bool {
    fits(c.total.0) && fits(c.objective.0) && fits(c.lower.0)
}

/// `c` with the units of its weights written as in `raws`.
pub open spec fn raw_cert(c: CertificateView, raws: (Seq<u8>, Seq<u8>, Seq<u8>)) -> CertificateView {
    CertificateView {
        total: (raws.0, c.total.1),
        objective: (raws.1, c.objective.1),
        lower: (raws.2, c.lower.1),
        explored: c.explored,
        memoized: c.memoized,
    }
}

proof fn lemma_certificate_split(bytes: Seq<u8>, pos: int, c: CertificateView)
    requires
        is_at(bytes, pos, enc_certificate(c)),
    ensures
        is_at(bytes, pos, enc_weight(c.total.0, c.total.1)),
        is_at(bytes, pos + enc_weight(c.total.0, c.total.1).len(), enc_weight(c.objective.0, c.objective.1)),
        is_at(
            bytes,
            pos + enc_weight(c.total.0, c.total.1).len() + enc_weight(c.objective.0, c.objective.1).len(),
            enc_weight(c.lower.0, c.lower.1),
        ),
        is_at(
            bytes,
            pos + enc_weight(c.total.0, c.total.1).len() + enc_weight(c.objective.0, c.objective.1).len()
                + enc_weight(c.lower.0, c.lower.1).len(),
            be64(c.explored),
        ),
        is_at(
            bytes,
            pos + enc_weight(c.total.0, c.total.1).len() + enc_weight(c.objective.0, c.objective.1).len()
                + enc_weight(c.lower.0, c.lower.1).len() + 8,
            be64(c.memoized),
        ),
{
    let e1 = enc_weight(c.total.0, c.total.1);
    let e2 = enc_weight(c.objective.0, c.objective.1);
    let e3 = enc_weight(c.lower.0, c.lower.1);
    let t4 = be64(c.explored) + be64(c.memoized);
    lemma_is_at_split(bytes, pos, e1, e2 + (e3 + t4));
    lemma_is_at_split(bytes, pos + e1.len(), e2, e3 + t4);
    lemma_is_at_split(bytes, pos + e1.len() + e2.len(), e3, t4);
    lemma_is_at_split(bytes, pos + e1.len() + e2.len() + e3.len(), be64(c.explored), be64(c.memoized));
}

proof fn lemma_certificate_join(bytes: Seq<u8>, pos: int, c: CertificateView)
    requires
        is_at(bytes, pos, enc_weight(c.total.0, c.total.1)),
        is_at(bytes, pos + enc_weight(c.total.0, c.total.1).len(), enc_weight(c.objective.0, c.objective.1)),
        is_at(
            bytes,
            pos + enc_weight(c.total.0, c.total.1).len() + enc_weight(c.objective.0, c.objective.1).len(),
            enc_weight(c.lower.0, c.lower.1),
        ),
        is_at(
            bytes,
            pos + enc_weight(c.total.0, c.total.1).len() + enc_weight(c.objective.0, c.objective.1).len()
                + enc_weight(c.lower.0, c.lower.1).len(),
            be64(c.explored),
        ),
        is_at(
            bytes,
            pos + enc_weight(c.total.0, c.total.1).len() + enc_weight(c.objective.0, c.objective.1).len()
                + enc_weight(c.lower.0, c.lower.1).len() + 8,
            be64(c.memoized),
        ),
    ensures
        is_at(bytes, pos, enc_certificate(c)),
        enc_certificate(c).len() == enc_weight(c.total.0, c.total.1).len() + enc_weight(c.objective.0, c.objective.1).len()
            + enc_weight(c.lower.0, c.lower.1).len() + 16,
{
    let e1 = enc_weight(c.total.0, c.total.1);
    let e2 = enc_weight(c.objective.0, c.objective.1);
    let e3 = enc_weight(c.lower.0, c.lower.1);
    lemma_is_at_join(bytes, pos + e1.len() + e2.len() + e3.len(), be64(c.explored), be64(c.memoized));
    let t4 = be64(c.explored) + be64(c.memoized);
    lemma_is_at_join(bytes, pos + e1.len() + e2.len(), e3, t4);
    lemma_is_at_join(bytes, pos + e1.len(), e2, e3 + t4);
    lemma_is_at_join(bytes, pos, e1, e2 + (e3 + t4));
}

fn read_certificate(bytes: &[u8], pos: usize) -> (r: Result<
    (CookCertificateArtifact, Ghost<(Seq<u8>, Seq<u8>, Seq<u8>)>, usize),
    ArtifactError,
>)
    ensures
        r matches Ok((c, raws, p)) ==> p == pos + enc_certificate(raw_cert(c@, raws@)).len() && is_at(
            bytes@,
            pos as int,
            enc_certificate(raw_cert(c@, raws@)),
        ) && cert_fits(raw_cert(c@, raws@)) && c@.total.0 == strip_zeros(raws@.0) && c@.objective.0 == strip_zeros(
            raws@.1,
        ) && c@.lower.0 == strip_zeros(raws@.2),
        forall|cv: CertificateView|
            cert_fits(cv) && units_canonical(cv.total.0) && units_canonical(cv.objective.0) && units_canonical(
                cv.lower.0,
            ) && #[trigger] is_at(bytes@, pos as int, enc_certificate(cv)) ==> (r matches Ok((c, raws, p)) && c@ == cv
                && raws@ == (cv.total.0, cv.objective.0, cv.lower.0)),
{
    proof {
        assert forall|cv: CertificateView|
            cert_fits(cv) && units_canonical(cv.total.0) && units_canonical(cv.objective.0) && units_canonical(
                cv.lower.0,
            ) && #[trigger] is_at(bytes@, pos as int, enc_certificate(cv)) implies is_at(
            bytes@,
            pos as int,
            enc_weight(cv.total.0, cv.total.1),
        ) && is_at(bytes@, pos + enc_weight(cv.total.0, cv.total.1).len(), enc_weight(cv.objective.0, cv.objective.1))
            && is_at(
            bytes@,
            pos + enc_weight(cv.total.0, cv.total.1).len() + enc_weight(cv.objective.0, cv.objective.1).len(),
            enc_weight(cv.lower.0, cv.lower.1),
        ) && is_at(
            bytes@,
            pos + enc_weight(cv.total.0, cv.total.1).len() + enc_weight(cv.objective.0, cv.objective.1).len()
                + enc_weight(cv.lower.0, cv.lower.1).len(),
            be64(cv.explored),
        ) && is_at(
            bytes@,
            pos + enc_weight(cv.total.0, cv.total.1).len() + enc_weight(cv.objective.0, cv.objective.1).len()
                + enc_weight(cv.lower.0, cv.lower.1).len() + 8,
            be64(cv.memoized),
        ) by {
            lemma_certificate_split(bytes@, pos as int, cv);
        }
    }
    let (total_weight, r1, p1) = match read_weight(bytes, pos) {
        Ok(x) => x,
        Err(e) => {
            return Err(e);
        },
    };
    let (objective_cost, r2, p2) = match read_weight(bytes, p1) {
        Ok(x) => x,
        Err(e) => {
            return Err(e);
        },
    };
    let (root_lower_bound, r3, p3) = match read_weight(bytes, p2) {
        Ok(x) => x,
        Err(e) => {
            return Err(e);
        },
    };
    let (explored_states, p4) = match take_u64(bytes, p3) {
        Ok(x) => x,
        Err(e) => {
            return Err(e);
        },
    };
    let (memoized_states, p5) = match take_u64(bytes, p4) {
        Ok(x) => x,
        Err(e) => {
            return Err(e);
        },
    };
    let c = CookCertificateArtifact { total_weight, objective_cost, root_lower_bound, explored_states, memoized_states };
    let ghost raws = (r1@, r2@, r3@);
    proof {
        lemma_certificate_join(bytes@, pos as int, raw_cert(c@, raws));
    }
    Ok((c, Ghost(raws), p5))
}

/// Valid field descriptors for the fallback and every probe, and no empty
/// bundle.
pub open spec fn scheme_fields_ok(s: SchemeView) -> bool {
    &&& s.fallback matches FallbackDescriptor::StaticPolynomialV2 { field, .. } ==> field.validate_spec() is Ok
    &&& forall|n: int, i: int|
        0 <= n < s.nodes.len() && 0 <= i < s.nodes[n].probes.len() ==> (
        #[trigger] s.nodes[n].probes[i]).descriptor().validate_spec() is Ok
    &&& forall|n: int| 0 <= n < s.nodes.len() ==> (#[trigger] s.nodes[n]).probes.len() > 0
}

/// The checks made on a scheme as it is read: field descriptors (else
/// `InvalidField`) and nonempty bundles.
fn check_scheme_fields(s: &Scheme) -> (r: Result<(), ArtifactError>)
    ensures
        r is Ok == scheme_fields_ok(s@),
        r matches Err(e) ==> e is InvalidField || e == ArtifactError::InvalidScheme(SchemeError::Bundle(BundleError::Empty)),
{
    let ghost sv = s@;
    match s.fallback {
        FallbackDescriptor::StaticPolynomialV2 { field, .. } => {
            if field.validate().is_err() {
                return Err(ArtifactError::InvalidField);
            }
        },
        FallbackDescriptor::DirectRadixV1 => {},
    }
    let mut n: usize = 0;
    while n < s.nodes.len()
        invariant
            sv == s@,
            n <= sv.nodes.len(),
            sv.nodes.len() == s.nodes@.len(),
            forall|a: int, i: int|
                0 <= a < n && 0 <= i < sv.nodes[a].probes.len() ==> (
                #[trigger] sv.nodes[a].probes[i]).descriptor().validate_spec() is Ok,
            forall|a: int| 0 <= a < n ==> (#[trigger] sv.nodes[a]).probes.len() > 0,
        decreases sv.nodes.len() - n,
    {
        let probes = &s.nodes[n].action.probes;
        proof {
            assert(sv.nodes[n as int].probes == probes@);
        }
        let mut i: usize = 0;
        while i < probes.len()
            invariant
                sv == s@,
                n < sv.nodes.len(),
                probes@ == sv.nodes[n as int].probes,
                i <= probes@.len(),
                forall|k: int| 0 <= k < i ==> (#[trigger] probes@[k]).descriptor().validate_spec() is Ok,
            decreases probes@.len() - i,
        {
            let d = match probes[i].field {
                FieldDescriptor::Standard(d) => d,
            };
            if d.validate().is_err() {
                proof {
                    assert(sv.nodes[n as int].probes[i as int].descriptor().validate_spec() is Err);
                }
                return Err(ArtifactError::InvalidField);
            }
            i = i + 1;
        }
        if probes.len() == 0 {
            return Err(ArtifactError::InvalidScheme(SchemeError::Bundle(BundleError::Empty)));
        }
        n = n + 1;
    }
    Ok(())
}

/// `a` with the units of its certificate's weights written as in `raws`.
pub open spec fn raw_artifact(a: SchemeArtifactView, raws: (Seq<u8>, Seq<u8>, Seq<u8>)) -> SchemeArtifactView {
    SchemeArtifactView {
        scheme: a.scheme,
        objective: a.objective,
        cook_status: a.cook_status,
        certificate: raw_cert(a.certificate, raws),
        spec_revision: a.spec_revision,
        cooker_revision: a.cooker_revision,
    }
}

/// `a` as read from the encoding of `w`: the same artifact, except that `w`
/// may write the units of a certificate weight with leading zero bytes.
pub open spec fn cert_units_rewritten(w: SchemeArtifactView, a: SchemeArtifactView) -> bool {
    &&& w == raw_artifact(a, (w.certificate.total.0, w.certificate.objective.0, w.certificate.lower.0))
    &&& a.certificate.total.0 == strip_zeros(w.certificate.total.0)
    &&& a.certificate.objective.0 == strip_zeros(w.certificate.objective.0)
    &&& a.certificate.lower.0 == strip_zeros(w.certificate.lower.0)
}

/// An artifact over a simple valid scheme with checked fields and a well
/// formed certificate.
pub open spec fn scheme_artifact_ok(a: SchemeArtifactView) -> bool {
    &&& scheme_simple(a.scheme)
    &&& validate_spec(a.scheme) is Ok
    &&& scheme_fields_ok(a.scheme)
    &&& cert_ok(a.certificate)
}

proof fn lemma_artifact_split(bytes: Seq<u8>, v: SchemeArtifactView)
    requires
        scheme_artifact_bytes(v) == bytes,
    ensures
        bytes.take(8) == scheme_magic(),
        is_at(bytes, 8int, seq![0u8]),
        is_at(bytes, 9int, seq![status_tag(v.cook_status)]),
        is_at(bytes, 10int, enc_string(v.spec_revision)),
        is_at(bytes, 10int + enc_string(v.spec_revision).len(), enc_string(v.cooker_revision)),
        is_at(
            bytes,
            10int + enc_string(v.spec_revision).len() + enc_string(v.cooker_revision).len(),
            enc_certificate(v.certificate),
        ),
        is_at(
            bytes,
            10int + enc_string(v.spec_revision).len() + enc_string(v.cooker_revision).len() + enc_certificate(
                v.certificate,
            ).len(),
            scheme_payload(v.scheme),
        ),
        bytes.len() == 10int + enc_string(v.spec_revision).len() + enc_string(v.cooker_revision).len()
            + enc_certificate(v.certificate).len() + scheme_payload(v.scheme).len(),
{
    let m1 = scheme_magic() + seq![0u8];
    let m2 = m1 + seq![status_tag(v.cook_status)];
    let m3 = m2 + enc_string(v.spec_revision);
    let head = m3 + enc_string(v.cooker_revision);
    let c = enc_certificate(v.certificate);
    assert(bytes.subrange(0, bytes.len() as int) =~= bytes);
    lemma_is_at_split(bytes, 0int, head, c + scheme_payload(v.scheme));
    lemma_is_at_split(bytes, 0int, m3, enc_string(v.cooker_revision));
    lemma_is_at_split(bytes, 0int, m2, enc_string(v.spec_revision));
    lemma_is_at_split(bytes, 0int, m1, seq![status_tag(v.cook_status)]);
    lemma_is_at_split(bytes, 0int, scheme_magic(), seq![0u8]);
    lemma_is_at_split(bytes, head.len() as int, c, scheme_payload(v.scheme));
    assert(bytes.take(8) =~= bytes.subrange(0, 8));
}

proof fn lemma_artifact_join(bytes: Seq<u8>, v: SchemeArtifactView)
    requires
        bytes.take(8) == scheme_magic(),
        is_at(bytes, 8int, seq![0u8]),
        is_at(bytes, 9int, seq![status_tag(v.cook_status)]),
        is_at(bytes, 10int, enc_string(v.spec_revision)),
        is_at(bytes, 10int + enc_string(v.spec_revision).len(), enc_string(v.cooker_revision)),
        is_at(
            bytes,
            10int + enc_string(v.spec_revision).len() + enc_string(v.cooker_revision).len(),
            enc_certificate(v.certificate),
        ),
        is_at(
            bytes,
            10int + enc_string(v.spec_revision).len() + enc_string(v.cooker_revision).len() + enc_certificate(
                v.certificate,
            ).len(),
            scheme_payload(v.scheme),
        ),
        bytes.len() == 10int + enc_string(v.spec_revision).len() + enc_string(v.cooker_revision).len()
            + enc_certificate(v.certificate).len() + scheme_payload(v.scheme).len(),
    ensures
        scheme_artifact_bytes(v) == bytes,
{
    let m1 = scheme_magic() + seq![0u8];
    let m2 = m1 + seq![status_tag(v.cook_status)];
    let m3 = m2 + enc_string(v.spec_revision);
    let head = m3 + enc_string(v.cooker_revision);
    let c = enc_certificate(v.certificate);
    assert(bytes.take(8) =~= bytes.subrange(0, 8));
    lemma_is_at_join(bytes, 0int, scheme_magic(), seq![0u8]);
    lemma_is_at_join(bytes, 0int, m1, seq![status_tag(v.cook_status)]);
    lemma_is_at_join(bytes, 0int, m2, enc_string(v.spec_revision));
    lemma_is_at_join(bytes, 0int, m3, enc_string(v.cooker_revision));
    lemma_is_at_join(bytes, head.len() as int, c, scheme_payload(v.scheme));
    lemma_is_at_join(bytes, 0int, head, c + scheme_payload(v.scheme));
    assert(bytes.subrange(0, bytes.len() as int) =~= bytes);
}

/// Reads every field of a scheme artifact and nothing after them, checking
/// the certificate before the scheme.
fn parse_scheme_artifact(bytes: &[u8]) -> (r: Result<
    (SchemeArtifact, Ghost<(Seq<u8>, Seq<u8>, Seq<u8>)>),
    ArtifactError,
>)
    ensures
        bytes@.len() < 8 ==> r == Err::<(SchemeArtifact, Ghost<(Seq<u8>, Seq<u8>, Seq<u8>)>), ArtifactError>(
            ArtifactError::Truncated,
        ),
        bytes@.len() >= 8 && bytes@.take(8) != scheme_magic() ==> r == Err::<
            (SchemeArtifact, Ghost<(Seq<u8>, Seq<u8>, Seq<u8>)>),
            ArtifactError,
        >(ArtifactError::BadMagic),
        r matches Ok((a, raws)) ==> scheme_artifact_bytes(raw_artifact(a@, raws@)) == bytes@ && cert_ok(
            a@.certificate,
        ) && a@.certificate.total.0 == strip_zeros(raws@.0) && a@.certificate.objective.0 == strip_zeros(raws@.1)
            && a@.certificate.lower.0 == strip_zeros(raws@.2),
        forall|v: SchemeArtifactView|
            cert_ok(v.certificate) && scheme_artifact_encodable(v) && #[trigger] scheme_artifact_bytes(v) == bytes@ ==> (
            r matches Ok((a, raws)) && a@ == v),
{
    let magic: [u8; 8] = [84u8, 69u8, 67u8, 65u8, 83u8, 77u8, 48u8, 50u8];
    proof {
        assert(magic@ =~= scheme_magic());
        assert forall|v: SchemeArtifactView|
            cert_ok(v.certificate) && scheme_artifact_encodable(v) && #[trigger] scheme_artifact_bytes(v) == bytes@ implies {
            &&& bytes@.take(8) == scheme_magic()
            &&& is_at(bytes@, 8int, seq![0u8])
            &&& is_at(bytes@, 9int, seq![status_tag(v.cook_status)])
            &&& is_at(bytes@, 10int, enc_string(v.spec_revision))
            &&& is_at(bytes@, 10int + enc_string(v.spec_revision).len(), enc_string(v.cooker_revision))
            &&& is_at(
                bytes@,
                10int + enc_string(v.spec_revision).len() + enc_string(v.cooker_revision).len(),
                enc_certificate(v.certificate),
            )
            &&& is_at(
                bytes@,
                10int + enc_string(v.spec_revision).len() + enc_string(v.cooker_revision).len() + enc_certificate(
                    v.certificate,
                ).len(),
                scheme_payload(v.scheme),
            )
            &&& bytes@.len() == 10int + enc_string(v.spec_revision).len() + enc_string(v.cooker_revision).len()
                + enc_certificate(v.certificate).len() + scheme_payload(v.scheme).len()
        } by {
            lemma_artifact_split(bytes@, v);
        }
    }
    match check_magic(bytes, &magic) {
        Ok(()) => {},
        Err(e) => {
            return Err(e);
        },
    }
    let (o, p1) = match read_u8(bytes, 8) {
        Ok(x) => x,
        Err(e) => {
            return Err(e);
        },
    };
    proof {
        lemma_is_at_one(bytes@, 8int, o);
        assert forall|v: SchemeArtifactView|
            cert_ok(v.certificate) && scheme_artifact_encodable(v) && #[trigger] scheme_artifact_bytes(v) == bytes@ implies o
            == 0 by {
            lemma_is_at_first(bytes@, 8int, seq![0u8]);
        }
    }
    if o != 0 {
        return Err(ArtifactError::UnsupportedTag { what: "cook objective", tag: o });
    }
    let (t, p2) = match read_u8(bytes, p1) {
        Ok(x) => x,
        Err(e) => {
            return Err(e);
        },
    };
    proof {
        lemma_is_at_one(bytes@, 9int, t);
        assert forall|v: SchemeArtifactView|
            cert_ok(v.certificate) && scheme_artifact_encodable(v) && #[trigger] scheme_artifact_bytes(v) == bytes@ implies t
            == status_tag(v.cook_status) by {
            lemma_is_at_first(bytes@, 9int, seq![status_tag(v.cook_status)]);
        }
    }
    let cook_status = if t == 0 {
        CookStatus::ExactRelativeToPrior
    } else if t == 1 {
        CookStatus::ApproximateRelativeToPrior
    } else {
        return Err(ArtifactError::UnsupportedTag { what: "cook status", tag: t });
    };
    let (spec_revision, p3) = match read_string(bytes, p2) {
        Ok(x) => x,
        Err(e) => {
            return Err(e);
        },
    };
    let (cooker_revision, p4) = match read_string(bytes, p3) {
        Ok(x) => x,
        Err(e) => {
            return Err(e);
        },
    };
    let (certificate, raws, p5) = match read_certificate(bytes, p4) {
        Ok(x) => x,
        Err(e) => {
            return Err(e);
        },
    };
    match validate_certificate_kind(&certificate) {
        Ok(()) => {},
        Err(e) => {
            return Err(e);
        },
    }
    let (scheme, p6) = match read_scheme_payload(bytes, p5) {
        Ok(x) => x,
        Err(e) => {
            return Err(e);
        },
    };
    if p6 != bytes.len() {
        return Err(ArtifactError::TrailingBytes);
    }
    let a = SchemeArtifact {
        scheme,
        objective: CookObjectiveDescriptor::ExpectedDistinguishingAtoms,
        cook_status,
        certificate,
        spec_revision,
        cooker_revision,
    };
    proof {
        assert(seq![t] == seq![status_tag(cook_status)]);
        lemma_artifact_join(bytes@, raw_artifact(a@, raws@));
    }
    Ok((a, raws))
}

/// Parses a scheme artifact and checks it.
pub fn decode_scheme(bytes: &[u8]) -> (r: Result<SchemeArtifact, ArtifactError>)
    ensures
        bytes@.len() < 8 ==> r == Err::<SchemeArtifact, ArtifactError>(ArtifactError::Truncated),
        bytes@.len() >= 8 && bytes@.take(8) != scheme_magic() ==> r == Err::<SchemeArtifact, ArtifactError>(
            ArtifactError::BadMagic,
        ),
        r matches Ok(a) ==> validate_spec(a@.scheme) is Ok && scheme_fields_ok(a@.scheme) && cert_ok(a@.certificate)
            && exists|w: SchemeArtifactView| #[trigger] scheme_artifact_bytes(w) == bytes@ && cert_units_rewritten(
            w,
            a@,
        ),
        forall|v: SchemeArtifactView|
            scheme_artifact_ok(v) && scheme_artifact_encodable(v) && #[trigger] scheme_artifact_bytes(v) == bytes@ ==> (
            r matches Ok(a) && a@ == v),
{
    let (a, raws) = match parse_scheme_artifact(bytes) {
        Ok(x) => x,
        Err(e) => {
            return Err(e);
        },
    };
    match check_scheme_fields(&a.scheme) {
        Ok(()) => {},
        Err(e) => {
            return Err(e);
        },
    }
    match a.scheme.validate() {
        Ok(()) => {},
        Err(e) => {
            return Err(ArtifactError::InvalidScheme(e));
        },
    }
    proof {
        let w = raw_artifact(a@, raws@);
        assert(cert_units_rewritten(w, a@));
    }
    Ok(a)
}

} // verus!
