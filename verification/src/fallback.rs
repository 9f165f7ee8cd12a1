//! Universal exact continuation of an address after the cooked decision tree:
//! the direct-radix stream (Elias-gamma length, then 15-byte blocks in the
//! capacity radix, then zeros) or the static Hasse-probe stream.
use crate::address::AtomId;
use crate::codec::{is_min_width, lemma_min_width_unique, min_width, monic_prime_spec, ContentCodecDescriptor};
use crate::field::element::{checked_pow, checked_pow_spec, ExplicitField, FieldSpec};
use crate::field::standardff::StandardFieldDescriptor;
use crate::probe::{prime_field_spec, probe_value, FieldDescriptor, ScalarProbe};
use vstd::arithmetic::div_mod::*;
use vstd::arithmetic::mul::*;
use vstd::arithmetic::power::*;
use vstd::prelude::*;

verus! {

/// Universal exact continuation after the cooked structural tree has no
/// custom branch.
#[derive(Clone, Copy, Debug, PartialEq, Eq)]
pub enum FallbackDescriptor {
    DirectRadixV1,
    /// Infinite, corpus-independent Hasse-probe stream. The first four points
    /// are cooked for the active prior; the rest is ascending field-point order
    /// with those points removed.
    StaticPolynomialV2 {
        codec: ContentCodecDescriptor,
        field: StandardFieldDescriptor,
        optimized_points: [u32; 4],
    },
}

#[derive(Clone, Debug, PartialEq, Eq, Structural)]
pub enum FallbackError {
    CapacityTooSmall(u32),
    CapacityMathOverflow,
    LengthOverflow,
    Infinite,
    InvalidStaticField,
    StaticCapacityTooSmall { field_order: u128, capacity: u32 },
}

/// Bytes per radix block: 120 bits, so every block value and radix power fits
/// in u128.
pub const BLOCK_BYTES: usize = 15;

// ---------------------------------------------------------------------------
// The direct-radix stream
// ---------------------------------------------------------------------------

/// Number of binary digits of `v`.
pub open spec fn bit_len(v: nat) -> nat
    decreases v,
{
    if v == 0 {
        0
    } else {
        1 + bit_len(v / 2)
    }
}

/// Length of the Elias-gamma code of `len + 1`.
pub open spec fn gamma_len(len: nat) -> nat {
    (2 * bit_len(len + 1) - 1) as nat
}

/// Atom `i` of the Elias-gamma code of `len + 1`: `bits - 1` zeros, then the
/// bits of `len + 1`, most significant first.
pub open spec fn gamma_atom(len: nat, i: nat) -> u32 {
    let bits = bit_len(len + 1);
    if i + 1 < bits {
        0
    } else {
        (((len + 1) / (pow(2, (2 * bits - 2 - i) as nat) as nat)) % 2) as u32
    }
}

/// Big-endian value of a byte string.
pub open spec fn be_value(s: Seq<u8>) -> nat
    decreases s.len(),
{
    if s.len() == 0 {
        0
    } else {
        be_value(s.drop_last()) * 256 + s.last() as nat
    }
}

/// Radix digits needed for `n` bytes: the least `d` with `base^d >= 256^n`.
pub open spec fn radix_width(base: nat, n: nat) -> nat {
    if n == 0 {
        0
    } else {
        min_width(pow(256, n) as nat, base)
    }
}

/// Digit `pos` (most significant first) of the `width`-digit base-`base`
/// representation of `value`.
pub open spec fn radix_digit(value: nat, base: nat, width: nat, pos: nat) -> u32 {
    ((value / (pow(base as int, (width - 1 - pos) as nat) as nat)) % base) as u32
}

/// Atom `i` of the direct-radix stream of `bytes` over `base` atoms.
pub open spec fn v1_atom(bytes: Seq<u8>, base: nat, i: nat) -> u32 {
    let len = bytes.len();
    let g = gamma_len(len);
    if i < g {
        gamma_atom(len, i)
    } else {
        let k = (i - g) as nat;
        let full = len / 15;
        let fw = radix_width(base, 15);
        if k < full * fw {
            let b = k / fw;
            radix_digit(be_value(bytes.subrange((15 * b) as int, (15 * b + 15) as int)), base, fw, k % fw)
        } else {
            let rw = radix_width(base, len % 15);
            let kk = (k - full * fw) as nat;
            if kk < rw {
                radix_digit(be_value(bytes.subrange((15 * full) as int, len as int)), base, rw, kk)
            } else {
                0
            }
        }
    }
}

/// Number of informative (non-tail) atoms of the direct-radix stream.
pub open spec fn v1_finite_len(len: nat, base: nat) -> nat {
    gamma_len(len) + (len / 15) * radix_width(base, 15) + radix_width(base, len % 15)
}

// ---------------------------------------------------------------------------
// The static polynomial stream
// ---------------------------------------------------------------------------

/// `c` moved past each of the first `n` blocked points in turn.
pub open spec fn skip_blocked(c: nat, points: Seq<u32>, n: nat) -> nat
    decreases n,
{
    if n == 0 {
        c
    } else {
        let c2 = skip_blocked(c, points, (n - 1) as nat);
        if c2 >= points[n - 1] {
            c2 + 1
        } else {
            c2
        }
    }
}

/// Field point of `slot` within one Hasse order: the four optimized points
/// first, then ascending nonzero points with those removed.
pub open spec fn static_point(points: Seq<u32>, slot: nat) -> nat {
    if slot < 4 {
        points[slot as int] as nat
    } else {
        skip_blocked((slot - 3) as nat, points, 4)
    }
}

/// Atom `depth` of the static stream in field `f` on coefficients `c`.
pub open spec fn static_atom(f: FieldSpec, c: Seq<u32>, points: Seq<u32>, depth: nat) -> u32 {
    let count = (f.card - 1) as nat;
    probe_value(f, c, ((depth / count) as u32) as nat, static_point(points, depth % count)) as u32
}

proof fn lemma_skip_blocked_bound(c: nat, points: Seq<u32>, n: nat)
    ensures
        c <= skip_blocked(c, points, n) <= c + n,
    decreases n,
{
    if n > 0 {
        lemma_skip_blocked_bound(c, points, (n - 1) as nat);
    }
}

/// `x` is one of the four optimized points.
pub open spec fn is_optimized(points: Seq<u32>, x: nat) -> bool {
    points[0] == x || points[1] == x || points[2] == x || points[3] == x
}

/// How many nonzero values below `p` are not optimized points.
pub open spec fn free_below(points: Seq<u32>, p: nat) -> nat
    decreases p,
{
    if p <= 1 {
        0
    } else {
        free_below(points, (p - 1) as nat) + if is_optimized(points, (p - 1) as nat) {
            0nat
        } else {
            1nat
        }
    }
}

/// How many optimized points lie below `p`.
spec fn optimized_below(points: Seq<u32>, p: nat) -> nat {
    (if points[0] < p { 1nat } else { 0nat }) + (if points[1] < p { 1nat } else { 0nat }) + (if points[2]
        < p { 1nat } else { 0nat }) + (if points[3] < p { 1nat } else { 0nat })
}

proof fn lemma_free_below_count(points: Seq<u32>, p: nat)
    requires
        p >= 1,
        forall|i: int| 0 <= i < 4 ==> 0 < #[trigger] points[i],
        forall|i: int, j: int| 0 <= i < j < 4 ==> points[i] != points[j],
    ensures
        free_below(points, p) + optimized_below(points, p) == p - 1,
    decreases p,
{
    if p > 1 {
        lemma_free_below_count(points, (p - 1) as nat);
        assert(points[0] > 0 && points[1] > 0 && points[2] > 0 && points[3] > 0);
        assert(points[0] != points[1] && points[0] != points[2] && points[0] != points[3]);
        assert(points[1] != points[2] && points[1] != points[3] && points[2] != points[3]);
    } else {
        assert(points[0] > 0 && points[1] > 0 && points[2] > 0 && points[3] > 0);
    }
}

/// Past the four optimized points, each slot uses a nonzero point that lies
/// between `slot - 3` and `slot + 1`: the slot's rank among the nonzero
/// points, moved up past at most four blocked ones.
pub proof fn lemma_static_point_near_rank(points: Seq<u32>, slot: nat)
    requires
        slot >= 4,
    ensures
        1 <= slot - 3 <= static_point(points, slot) <= slot + 1,
{
    lemma_skip_blocked_bound((slot - 3) as nat, points, 4);
}

/// With the optimized points nonzero and ascending, slot `4 + k` uses the
/// `(k + 1)`-th smallest nonzero point that is not optimized: that point is
/// nonzero, is not an optimized point, and exactly `k` nonzero points below it
/// are not optimized either.
pub proof fn lemma_static_point_is_next_free(points: Seq<u32>, slot: nat)
    requires
        slot >= 4,
        points.len() == 4,
        0 < points[0] < points[1] < points[2] < points[3],
    ensures
        static_point(points, slot) >= 1,
        !is_optimized(points, static_point(points, slot)),
        free_below(points, static_point(points, slot)) == slot - 4,
{
    let c = (slot - 3) as nat;
    let q = static_point(points, slot);
    reveal_with_fuel(skip_blocked, 5);
    let q1 = skip_blocked(c, points, 1);
    let q2 = skip_blocked(c, points, 2);
    let q3 = skip_blocked(c, points, 3);
    assert(q == skip_blocked(c, points, 4));
    assert(q1 == if c >= points[0] { c + 1 } else { c });
    assert(q2 == if q1 >= points[1] { q1 + 1 } else { q1 });
    assert(q3 == if q2 >= points[2] { q2 + 1 } else { q2 });
    assert(q == if q3 >= points[3] { q3 + 1 } else { q3 });
    assert(!is_optimized(points, q));
    assert(q == c + optimized_below(points, q));
    assert forall|i: int| 0 <= i < 4 implies 0 < #[trigger] points[i] by {}
    assert forall|i: int, j: int| 0 <= i < j < 4 implies points[i] != points[j] by {}
    lemma_free_below_count(points, q);
}

// ---------------------------------------------------------------------------
// Validation
// ---------------------------------------------------------------------------

/// The optimized points are nonzero, below `order`, and distinct.
pub open spec fn points_ok(points: Seq<u32>, order: nat) -> bool {
    &&& forall|i: int| 0 <= i < 4 ==> 0 < #[trigger] points[i] < order
    &&& forall|i: int, j: int| 0 <= i < j < 4 ==> points[i] != points[j]
}

impl FallbackDescriptor {
    pub open spec fn validate_spec(self, capacity: u32) -> Result<(), FallbackError> {
        match self {
            FallbackDescriptor::DirectRadixV1 => Ok(()),
            FallbackDescriptor::StaticPolynomialV2 { field, optimized_points, .. } => {
                if field.validate_spec() is Err {
                    Err(FallbackError::InvalidStaticField)
                } else if field.order_spec() > capacity {
                    Err(
                        FallbackError::StaticCapacityTooSmall {
                            field_order: field.order_spec() as u128,
                            capacity,
                        },
                    )
                } else if !points_ok(optimized_points@, field.order_spec()) {
                    Err(FallbackError::InvalidStaticField)
                } else {
                    Ok(())
                }
            },
        }
    }

    pub fn validate(self, capacity: u32) -> (r: Result<(), FallbackError>)
        ensures
            r == self.validate_spec(capacity),
    {
        if let FallbackDescriptor::StaticPolynomialV2 { field, optimized_points, .. } = self {
            let order = match field.order() {
                Ok(o) => o,
                Err(_) => {
                    return Err(FallbackError::InvalidStaticField);
                },
            };
            if order > capacity as u128 {
                return Err(FallbackError::StaticCapacityTooSmall { field_order: order, capacity });
            }
            let mut i: usize = 0;
            while i < 4
                invariant
                    i <= 4,
                    self is StaticPolynomialV2,
                    self->field == field,
                    self->optimized_points == optimized_points,
                    field.validate_spec() is Ok,
                    order <= capacity,
                    order == field.order_spec(),
                    forall|k: int| 0 <= k < i ==> 0 < #[trigger] optimized_points@[k] < order,
                    forall|a: int, b: int| 0 <= a < b < i ==> optimized_points@[a] != optimized_points@[b],
                decreases 4 - i,
            {
                let p = optimized_points[i];
                if p == 0 || p as u128 >= order {
                    proof {
                        assert(optimized_points@[i as int] == p);
                        assert(!points_ok(optimized_points@, field.order_spec()));
                    }
                    return Err(FallbackError::InvalidStaticField);
                }
                let mut j: usize = 0;
                while j < i
                    invariant
                        j <= i,
                        i < 4,
                        self is StaticPolynomialV2,
                        self->field == field,
                        self->optimized_points == optimized_points,
                        field.validate_spec() is Ok,
                        order <= capacity,
                        order == field.order_spec(),
                        p == optimized_points@[i as int],
                        forall|a: int| 0 <= a < j ==> optimized_points@[a] != p,
                    decreases i - j,
                {
                    if optimized_points[j] == p {
                        proof {
                            assert(optimized_points@[j as int] == optimized_points@[i as int]);
                            assert(!points_ok(optimized_points@, field.order_spec()));
                        }
                        return Err(FallbackError::InvalidStaticField);
                    }
                    j = j + 1;
                }
                i = i + 1;
            }
            proof {
                assert(points_ok(optimized_points@, field.order_spec()));
            }
        }
        Ok(())
    }

    /// Error (if any) of starting the continuation of `len` bytes.
    pub open spec fn start_spec(self, len: nat, capacity: u32) -> Result<(), FallbackError> {
        match self {
            FallbackDescriptor::DirectRadixV1 => if capacity < 2 {
                Err(FallbackError::CapacityTooSmall(capacity))
            } else if len >= usize::MAX {
                Err(FallbackError::LengthOverflow)
            } else {
                Ok(())
            },
            FallbackDescriptor::StaticPolynomialV2 { .. } => self.validate_spec(capacity),
        }
    }

    /// The fields of the descriptor can always be built.
    pub open spec fn simple(self) -> bool {
        match self {
            FallbackDescriptor::DirectRadixV1 => true,
            FallbackDescriptor::StaticPolynomialV2 { field, .. } => field.degree == 1,
        }
    }

    /// Start the continuation stream of `bytes`.
    pub fn address<'a>(self, bytes: &'a [u8], capacity: u32) -> (r: Result<
        FallbackAddress<'a>,
        FallbackError,
    >)
        requires
            bytes@.len() * 8 < usize::MAX,
        ensures
            self.start_spec(bytes@.len(), capacity) matches Err(e) ==> r == Err::<
                FallbackAddress<'a>,
                FallbackError,
            >(e),
            r matches Ok(a) ==> self.start_spec(bytes@.len(), capacity) is Ok && a.wf() && a.depth()
                == 0 && a.bytes() == bytes@ && a.stream_of(self, capacity),
            self.start_spec(bytes@.len(), capacity) is Ok && self.simple() ==> r is Ok,
    {
        match self {
            FallbackDescriptor::DirectRadixV1 => FallbackAddress::new(bytes, capacity),
            FallbackDescriptor::StaticPolynomialV2 { codec, field, optimized_points } => {
                FallbackAddress::new_static(bytes, capacity, codec, field, optimized_points)
            },
        }
    }
}

// ---------------------------------------------------------------------------
// The stream state
// ---------------------------------------------------------------------------

pub struct FallbackAddress<'a> {
    state: FallbackState<'a>,
}

enum FallbackState<'a> {
    V1 { bytes: &'a [u8], base: u32, depth: usize },
    Static {
        bytes: &'a [u8],
        descriptor: StandardFieldDescriptor,
        field: ExplicitField,
        coefficients: Vec<u32>,
        optimized_points: [u32; 4],
        depth: usize,
    },
}

impl<'a> FallbackAddress<'a> {
    /// Atoms emitted so far.
    pub closed spec fn depth(&self) -> nat {
        match &self.state {
            FallbackState::V1 { depth, .. } => *depth as nat,
            FallbackState::Static { depth, .. } => *depth as nat,
        }
    }

    pub closed spec fn bytes(&self) -> Seq<u8> {
        match &self.state {
            FallbackState::V1 { bytes, .. } => bytes@,
            FallbackState::Static { bytes, .. } => bytes@,
        }
    }

    /// Atom `k` of this stream.
    pub closed spec fn atom_at(&self, k: nat) -> u32 {
        match &self.state {
            FallbackState::V1 { bytes, base, .. } => v1_atom(bytes@, *base as nat, k),
            FallbackState::Static { field, coefficients, optimized_points, .. } => static_atom(
                field@,
                coefficients@,
                optimized_points@,
                k,
            ),
        }
    }

    /// The field of a static stream.
    pub closed spec fn static_field(&self) -> Option<FieldSpec> {
        match &self.state {
            FallbackState::V1 { .. } => None,
            FallbackState::Static { field, .. } => Some(field@),
        }
    }

    pub closed spec fn wf(&self) -> bool {
        match &self.state {
            FallbackState::V1 { bytes, base, .. } => *base >= 2 && bytes@.len() < usize::MAX,
            FallbackState::Static { field, optimized_points, .. } => {
                &&& field.wf()
                &&& field@.card >= 3
                &&& points_ok(optimized_points@, field@.card)
            },
        }
    }

    /// This is the continuation `descriptor` gives `bytes()` at `capacity`.
    pub open spec fn stream_of(&self, descriptor: FallbackDescriptor, capacity: u32) -> bool {
        match descriptor {
            FallbackDescriptor::DirectRadixV1 => forall|k: nat|
                #[trigger] self.atom_at(k) == v1_atom(self.bytes(), capacity as nat, k),
            FallbackDescriptor::StaticPolynomialV2 { codec, field, optimized_points } => {
                &&& self.static_field() matches Some(f)
                &&& f.p == field.characteristic && f.degree == field.degree && f.card
                    == field.order_spec()
                &&& (field.degree == 1 ==> f == prime_field_spec(field.characteristic as nat))
                &&& forall|k: nat|
                    #[trigger] self.atom_at(k) == static_atom(
                        f,
                        monic_prime_spec(codec, self.bytes(), f.p),
                        optimized_points@,
                        k,
                    )
            },
        }
    }

    /// The direct-radix continuation of `bytes` over `capacity` atoms.
    pub fn new(bytes: &'a [u8], capacity: u32) -> (r: Result<Self, FallbackError>)
        ensures
            capacity < 2 ==> r == Err::<Self, FallbackError>(FallbackError::CapacityTooSmall(capacity)),
            capacity >= 2 && bytes@.len() == usize::MAX ==> r == Err::<Self, FallbackError>(
                FallbackError::LengthOverflow,
            ),
            capacity >= 2 && bytes@.len() < usize::MAX ==> (r matches Ok(a) && a.wf() && a.depth()
                == 0 && a.bytes() == bytes@ && a.stream_of(
                FallbackDescriptor::DirectRadixV1,
                capacity,
            )),
    {
        if capacity < 2 {
            return Err(FallbackError::CapacityTooSmall(capacity));
        }
        if bytes.len() == usize::MAX {
            return Err(FallbackError::LengthOverflow);
        }
        Ok(FallbackAddress { state: FallbackState::V1 { bytes, base: capacity, depth: 0 } })
    }

    /// The static Hasse-probe continuation of `bytes`.
    pub fn new_static(
        bytes: &'a [u8],
        capacity: u32,
        codec: ContentCodecDescriptor,
        field: StandardFieldDescriptor,
        optimized_points: [u32; 4],
    ) -> (r: Result<Self, FallbackError>)
        requires
            bytes@.len() * 8 < usize::MAX,
        ensures
            ({
                let d = FallbackDescriptor::StaticPolynomialV2 { codec, field, optimized_points };
                &&& d.validate_spec(capacity) matches Err(e) ==> r == Err::<Self, FallbackError>(e)
                &&& r matches Ok(a) ==> d.validate_spec(capacity) is Ok && a.wf() && a.depth() == 0
                    && a.bytes() == bytes@ && a.stream_of(d, capacity)
                &&& d.validate_spec(capacity) is Ok && field.degree == 1 ==> r is Ok
            }),
    {
        let descriptor = FallbackDescriptor::StaticPolynomialV2 { codec, field, optimized_points };
        match descriptor.validate(capacity) {
            Ok(()) => {},
            Err(e) => {
                return Err(e);
            },
        }
        let f = match field.instantiate() {
            Ok(f) => f,
            Err(_) => {
                return Err(FallbackError::InvalidStaticField);
            },
        };
        proof {
            f.lemma_wf_facts();
            if field.degree == 1 {
                lemma_pow1(field.characteristic as int);
            }
            // four distinct nonzero points below the order need at least five elements
            let pts = optimized_points@;
            if f@.card < 5 {
                assert(false) by {
                    lemma_four_distinct(pts, f@.card);
                }
            }
        }
        let coefficients = match codec.monic_prime_coefficients(bytes, f.characteristic()) {
            Ok(c) => c,
            Err(_) => {
                proof {
                    assert(false);
                }
                return Err(FallbackError::InvalidStaticField);
            },
        };
        Ok(
            FallbackAddress {
                state: FallbackState::Static {
                    bytes,
                    descriptor: field,
                    field: f,
                    coefficients,
                    optimized_points,
                    depth: 0,
                },
            },
        )
    }

    /// The static Hasse-probe continuation of `bytes` in an already
    /// constructed field.
    pub fn with_field(
        bytes: &'a [u8],
        codec: ContentCodecDescriptor,
        descriptor: StandardFieldDescriptor,
        field: ExplicitField,
        optimized_points: [u32; 4],
    ) -> (r: Self)
        requires
            bytes@.len() * 8 < usize::MAX,
            field.wf(),
            field@.card >= 3,
            points_ok(optimized_points@, field@.card),
        ensures
            r.wf(),
            r.depth() == 0,
            r.bytes() == bytes@,
            r.static_field() == Some(field@),
            forall|k: nat|
                #[trigger] r.atom_at(k) == static_atom(
                    field@,
                    monic_prime_spec(codec, bytes@, field@.p),
                    optimized_points@,
                    k,
                ),
    {
        proof {
            field.lemma_wf_facts();
        }
        let coefficients = match codec.monic_prime_coefficients(bytes, field.characteristic()) {
            Ok(c) => c,
            Err(_) => {
                proof {
                    assert(false);
                }
                Vec::new()
            },
        };
        FallbackAddress {
            state: FallbackState::Static {
                bytes,
                descriptor,
                field,
                coefficients,
                optimized_points,
                depth: 0,
            },
        }
    }

    /// Emit the next atom.
    pub fn next_atom(&mut self) -> (r: AtomId)
        requires
            old(self).wf(),
            old(self).depth() < usize::MAX,
        ensures
            r.0 == old(self).atom_at(old(self).depth()),
            final(self).wf(),
            final(self).depth() == old(self).depth() + 1,
            final(self).bytes() == old(self).bytes(),
            forall|k: nat| #[trigger] final(self).atom_at(k) == old(self).atom_at(k),
            final(self).static_field() == old(self).static_field(),
    {
        match &mut self.state {
            FallbackState::V1 { bytes, base, depth } => {
                let a = v1_atom_at(bytes, *base, *depth);
                *depth = *depth + 1;
                AtomId(a)
            },
            FallbackState::Static { bytes, descriptor, field, coefficients, optimized_points, depth } => {
                let a = static_atom_at(*descriptor, field, coefficients, optimized_points, *depth);
                *depth = *depth + 1;
                AtomId(a)
            },
        }
    }

    /// Number of informative atoms of a direct-radix stream.
    pub fn finite_len(&self) -> (r: Result<usize, FallbackError>)
        requires
            self.wf(),
        ensures
            self.static_field() is Some ==> r == Err::<usize, FallbackError>(FallbackError::Infinite),
            self.static_field() is None ==> r == v1_len_result(self.bytes().len(), self.base()),
    {
        match &self.state {
            FallbackState::V1 { bytes, base, .. } => direct_radix_v1_finite_len(bytes.len(), *base),
            FallbackState::Static { .. } => Err(FallbackError::Infinite),
        }
    }

    pub closed spec fn base(&self) -> u32 {
        match &self.state {
            FallbackState::V1 { base, .. } => *base,
            FallbackState::Static { .. } => 0,
        }
    }
}

// ---------------------------------------------------------------------------
// Stream arithmetic
// ---------------------------------------------------------------------------

/// Outcome of `direct_radix_v1_finite_len`.
pub open spec fn v1_len_result(len: nat, capacity: u32) -> Result<usize, FallbackError> {
    if capacity < 2 {
        Err(FallbackError::CapacityTooSmall(capacity))
    } else if len >= usize::MAX {
        Err(FallbackError::LengthOverflow)
    } else if v1_finite_len(len, capacity as nat) > usize::MAX {
        Err(FallbackError::LengthOverflow)
    } else {
        Ok(v1_finite_len(len, capacity as nat) as usize)
    }
}

pub proof fn lemma_four_distinct(pts: Seq<u32>, card: nat)
    requires
        points_ok(pts, card),
    ensures
        card >= 5,
{
    assert(0 < pts[0] < card);
    assert(0 < pts[1] < card);
    assert(0 < pts[2] < card);
    assert(0 < pts[3] < card);
    assert(pts[0] != pts[1] && pts[0] != pts[2] && pts[0] != pts[3]);
    assert(pts[1] != pts[2] && pts[1] != pts[3] && pts[2] != pts[3]);
}

proof fn lemma_bit_len_bound(v: nat, b: nat)
    requires
        v < pow(2, b),
    ensures
        bit_len(v) <= b,
    decreases v,
{
    if v > 0 {
        reveal(pow);
        if b == 0 {
            assert(false);
        } else {
            lemma_div_is_ordered(v as int, (pow(2, b) - 1) as int, 2);
            assert(pow(2, b) == 2 * pow(2, (b - 1) as nat));
            lemma_bit_len_bound(v / 2, (b - 1) as nat);
        }
    }
}

/// `v` lies between `2^(bits-1)` and `2^bits`.
proof fn lemma_bit_len_range(v: nat)
    requires
        v >= 1,
    ensures
        bit_len(v) >= 1,
        pow(2, (bit_len(v) - 1) as nat) <= v < pow(2, bit_len(v)),
    decreases v,
{
    reveal_with_fuel(pow, 2);
    lemma_fundamental_div_mod(v as int, 2);
    if v / 2 >= 1 {
        lemma_bit_len_range(v / 2);
        let b = bit_len(v / 2);
        assert(pow(2, b) == 2 * pow(2, (b - 1) as nat));
        assert(pow(2, b + 1) == 2 * pow(2, b));
        assert(bit_len(v) == b + 1);
    } else {
        assert(v == 1);
        assert(bit_len(v) == 1 + bit_len(0));
    }
}

/// Number of binary digits of `v`.
fn bit_length(v: u128) -> (r: u32)
    ensures
        r == bit_len(v as nat),
        r <= 128,
{
    let ghost v0 = v as nat;
    let mut v = v;
    let mut bits: u32 = 0;
    proof {
        reveal(pow);
        lemma_mul_basics(v as int);
    }
    while v != 0
        invariant
            bits + bit_len(v as nat) == bit_len(v0),
            bits <= 128,
            v as nat * pow(2, bits as nat) <= v0,
            v0 < 0x1_0000_0000_0000_0000_0000_0000_0000_0000,
        decreases v,
    {
        proof {
            reveal(pow);
            lemma_pow_positive(2, bits as nat);
            assert(bits < 128) by {
                if bits >= 128 {
                    lemma_pow_increases(2, 128, bits as nat);
                    vstd::arithmetic::power2::lemma_pow2(128);
                    vstd::arithmetic::power2::lemma_pow2_adds(64, 64);
                    vstd::arithmetic::power2::lemma_pow2(64);
                    vstd::arithmetic::power2::lemma2_to64();
                    lemma_mul_increases(v as int, pow(2, bits as nat));
                    lemma_mul_is_commutative(v as int, pow(2, bits as nat));
                }
            }
            lemma_fundamental_div_mod(v as int, 2);
            assert((v / 2) * pow(2, (bits + 1) as nat) <= v * pow(2, bits as nat)) by {
                assert(pow(2, (bits + 1) as nat) == 2 * pow(2, bits as nat));
                lemma_mul_is_associative((v / 2) as int, 2, pow(2, bits as nat));
                lemma_mul_is_commutative((v / 2) as int, 2);
                lemma_mul_inequality(2 * (v / 2), v as int, pow(2, bits as nat));
            }
        }
        v = v / 2;
        bits = bits + 1;
    }
    bits
}

/// Big-endian value of `bytes[start..end]`.
fn be_value_of(bytes: &[u8], start: usize, end: usize) -> (r: u128)
    requires
        start <= end <= bytes@.len(),
        end - start <= 15,
    ensures
        r == be_value(bytes@.subrange(start as int, end as int)),
        r < pow(256, (end - start) as nat),
{
    let mut value: u128 = 0;
    let mut i: usize = start;
    proof {
        reveal(pow);
        assert(bytes@.subrange(start as int, start as int) =~= Seq::<u8>::empty());
        lemma_pow256_bound(0);
    }
    while i < end
        invariant
            start <= i <= end <= bytes@.len(),
            end - start <= 15,
            value == be_value(bytes@.subrange(start as int, i as int)),
            value < pow(256, (i - start) as nat),
            pow(256, (i - start) as nat) <= pow(256, 15),
        decreases end - i,
    {
        proof {
            let s = bytes@.subrange(start as int, (i + 1) as int);
            assert(s.drop_last() =~= bytes@.subrange(start as int, i as int));
            reveal(pow);
            assert(pow(256, (i + 1 - start) as nat) == 256 * pow(256, (i - start) as nat));
            lemma_pow256_bound((i + 1 - start) as nat);
            assert(value * 256 + bytes@[i as int] < 256 * pow(256, (i - start) as nat)) by (nonlinear_arith)
                requires
                    value < pow(256, (i - start) as nat),
                    bytes@[i as int] < 256,
            ;
        }
        value = value * 256 + bytes[i] as u128;
        i = i + 1;
    }
    value
}

/// Least `d` with `base^d >= target`.
fn radix_digits_for_target(base: u32, target: u128) -> (r: usize)
    requires
        base >= 2,
        target >= 2,
    ensures
        r == min_width(target as nat, base as nat),
        is_min_width(target as nat, base as nat, r as nat),
        r <= 128,
{
    let mut represented: u128 = 1;
    let mut digits: usize = 0;
    proof {
        reveal(pow);
    }
    while represented < target
        invariant
            base >= 2,
            target >= 2,
            represented >= 1,
            represented as int == pow(base as int, digits as nat),
            digits >= 1 ==> pow(base as int, (digits - 1) as nat) < target,
            digits <= 127,
        decreases 128 - digits,
    {
        digits = digits + 1;
        match represented.checked_mul(base as u128) {
            Some(next) => {
                proof {
                    reveal(pow);
                    lemma_mul_is_commutative(represented as int, base as int);
                    lemma_mul_strictly_increases(base as int, represented as int);
                    assert(pow(base as int, digits as nat) == next);
                    assert(next > represented);
                    if digits > 127 {
                        lemma_pow2_128();
                        lemma_pow_increases(2, 128, digits as nat);
                        lemma_pow_increases_base(2, base as nat, digits as nat);
                    }
                }
                represented = next;
            },
            None => {
                proof {
                    reveal(pow);
                    lemma_mul_is_commutative(represented as int, base as int);
                    assert(pow(base as int, digits as nat) >= target);
                    lemma_min_width_unique(target as nat, base as nat, digits as nat);
                }
                return digits;
            },
        }
    }
    proof {
        if digits == 0 {
            assert(false);
        }
        lemma_min_width_unique(target as nat, base as nat, digits as nat);
    }
    digits
}

proof fn lemma_pow2_128()
    ensures
        pow(2, 128) == 0x1_0000_0000_0000_0000_0000_0000_0000_0000,
{
    vstd::arithmetic::power2::lemma_pow2(128);
    vstd::arithmetic::power2::lemma_pow2_adds(64, 64);
    vstd::arithmetic::power2::lemma_pow2(64);
    vstd::arithmetic::power2::lemma2_to64();
}

/// Values of up to 15 bytes fit comfortably in u128.
proof fn lemma_pow256_bound(n: nat)
    requires
        n <= 15,
    ensures
        0 < pow(256, n) <= pow(256, 15),
        pow(256, 15) < 0x1_0000_0000_0000_0000_0000_0000_0000_0000,
{
    lemma_pow_increases(256, n, 15);
    lemma_pow_positive(256, n);
    vstd::arithmetic::power2::lemma_pow2(8);
    vstd::arithmetic::power2::lemma2_to64();
    lemma_pow_multiplies(2, 8, 15);
    lemma_pow_strictly_increases(2, 120, 128);
    lemma_pow2_128();
}

proof fn lemma_pow_increases_base(a: nat, b: nat, e: nat)
    requires
        1 <= a <= b,
    ensures
        pow(a as int, e) <= pow(b as int, e),
    decreases e,
{
    reveal(pow);
    if e > 0 {
        lemma_pow_increases_base(a, b, (e - 1) as nat);
        lemma_pow_positive(a as int, (e - 1) as nat);
        lemma_mul_upper_bound(a as int, b as int, pow(a as int, (e - 1) as nat), pow(b as int, (e - 1) as nat));
    }
}

/// Radix digits needed for `bytes` bytes over `base` atoms.
pub fn radix_digits_for_bytes(base: u32, bytes: usize) -> (r: usize)
    requires
        base >= 2,
        bytes <= 15,
    ensures
        r == radix_width(base as nat, bytes as nat),
        bytes > 0 ==> r >= 1 && pow(base as int, (r - 1) as nat) < pow(256, bytes as nat),
        r <= 128,
{
    if bytes == 0 {
        return 0;
    }
    proof {
        lemma_pow256_bound(bytes as nat);
    }
    let target = match checked_pow(256, bytes as u32) {
        Some(t) => t,
        None => {
            proof {
                assert((bytes as u32) as nat == bytes as nat);
            }
            return 0;
        },
    };
    proof {
        assert((bytes as u32) as nat == bytes as nat);
        assert(target == pow(256, bytes as nat));
        lemma_pow_increases(256, 1, bytes as nat);
        lemma_pow1(256);
    }
    let r = radix_digits_for_target(base, target);
    proof {
        lemma_pow0(base as int);
    }
    r
}

/// Digit `pos` of the `width`-digit base-`base` representation of `value`.
fn radix_digit_at(value: u128, base: u32, width: usize, pos: usize) -> (r: u32)
    requires
        base >= 2,
        pos < width <= 128,
        pow(base as int, (width - 1) as nat) < 0x1_0000_0000_0000_0000_0000_0000_0000_0000,
    ensures
        r == radix_digit(value as nat, base as nat, width as nat, pos as nat),
{
    proof {
        lemma_pow_increases(base as nat, (width - 1 - pos) as nat, (width - 1) as nat);
        lemma_pow_positive(base as int, (width - 1 - pos) as nat);
    }
    let pw = match checked_pow(base as u128, (width - 1 - pos) as u32) {
        Some(v) => v,
        None => {
            proof {
                assert(((base as u128) as nat) as int == base as int);
                assert(((width - 1 - pos) as u32) as nat == (width - 1 - pos) as nat);
            }
            return 0;
        },
    };
    proof {
        assert(((base as u128) as nat) as int == base as int);
        assert(((width - 1 - pos) as u32) as nat == (width - 1 - pos) as nat);
        lemma_mod_bound((value / pw) as int, base as int);
    }
    ((value / pw) % base as u128) as u32
}

/// Atom `depth` of the direct-radix stream.
fn v1_atom_at(bytes: &[u8], base: u32, depth: usize) -> (r: u32)
    requires
        base >= 2,
        bytes@.len() < usize::MAX,
    ensures
        r == v1_atom(bytes@, base as nat, depth as nat),
{
    let len = bytes.len();
    let value = len + 1;
    let bits = bit_length(value as u128);
    proof {
        lemma_bit_len_range(value as nat);
        if bits as int > usize::BITS {
            lemma_pow_increases(2, usize::BITS as nat, (bits - 1) as nat);
            vstd::arithmetic::power2::lemma_pow2(usize::BITS as nat);
            vstd::arithmetic::power2::lemma2_to64();
            assert(false);
        }
    }
    let g: usize = 2 * (bits as usize) - 1;
    if depth < g {
        if depth + 1 < bits as usize {
            return 0;
        }
        let shift = 2 * (bits as usize) - 2 - depth;
        let pw = match checked_pow(2, shift as u32) {
            Some(v) => v,
            None => {
                proof {
                    lemma_pow_increases(2, shift as nat, (bits - 1) as nat);
                    assert(((shift as u32) as nat) == shift as nat);
                }
                return 0;
            },
        };
        proof {
            assert(((shift as u32) as nat) == shift as nat);
            lemma_pow_positive(2, shift as nat);
            lemma_mod_bound((value as u128 / pw) as int, 2);
        }
        return ((value as u128 / pw) % 2) as u32;
    }
    let k = depth - g;
    let full = len / 15;
    let fw = radix_digits_for_bytes(base, 15);
    proof {
        lemma_pow256_bound(15);
        lemma_fundamental_div_mod(k as int, fw as int);
    }
    if k / fw < full {
        let b = k / fw;
        let pos = k % fw;
        proof {
            assert(k < full * fw) by (nonlinear_arith)
                requires
                    k / fw < full,
                    k == fw * (k / fw) + k % fw,
                    k % fw < fw,
                    fw >= 1,
            ;
            assert(15 * b + 15 <= len) by (nonlinear_arith)
                requires
                    b < full,
                    full == len / 15,
            ;
            lemma_fundamental_div_mod(len as int, 15);
        }
        let start = 15 * b;
        let block = be_value_of(bytes, start, start + 15);
        return radix_digit_at(block, base, fw, pos);
    }
    proof {
        assert(k >= full * fw) by (nonlinear_arith)
            requires
                k / fw >= full,
                k == fw * (k / fw) + k % fw,
                k % fw >= 0,
                fw >= 1,
        ;
        lemma_fundamental_div_mod(len as int, 15);
    }
    let rem = len % 15;
    let rw = radix_digits_for_bytes(base, rem);
    let kk = k - full * fw;
    if kk < rw {
        proof {
            lemma_pow256_bound(rem as nat);
        }
        let block = be_value_of(bytes, 15 * full, len);
        return radix_digit_at(block, base, rw, kk);
    }
    0
}

/// Atom `depth` of the static stream.
fn static_atom_at(
    descriptor: StandardFieldDescriptor,
    field: &ExplicitField,
    coefficients: &Vec<u32>,
    points: &[u32; 4],
    depth: usize,
) -> (r: u32)
    requires
        field.wf(),
        field@.card >= 3,
        points_ok(points@, field@.card),
    ensures
        r == static_atom(field@, coefficients@, points@, depth as nat),
{
    let order = field.cardinality();
    let count = order - 1;
    let slot = depth as u128 % count;
    let hasse_order = (depth as u128 / count) as u32;
    let point: u128 = if slot < 4 {
        points[slot as usize] as u128
    } else {
        let mut c: u128 = slot - 3;
        let mut i: usize = 0;
        proof {
            lemma_mod_bound(depth as int, count as int);
        }
        while i < 4
            invariant
                i <= 4,
                4 <= slot < count,
                c == skip_blocked((slot - 3) as nat, points@, i as nat),
                c <= slot - 3 + i,
            decreases 4 - i,
        {
            if c >= points[i] as u128 {
                c = c + 1;
            }
            i = i + 1;
        }
        c
    };
    proof {
        lemma_mod_bound(depth as int, count as int);
        assert(point == static_point(points@, slot as nat));
        assert(point < order);
    }
    let probe = ScalarProbe {
        field: FieldDescriptor::Standard(descriptor),
        point_rank: point,
        hasse_order,
    };
    match probe.evaluate_in(field, coefficients.as_slice()) {
        Ok((value, _)) => value as u32,
        Err(_) => {
            proof {
                assert(false);
            }
            0
        },
    }
}

/// Exact number of non-tail atoms of the direct-radix stream of `byte_len`
/// bytes over `capacity` atoms.
pub fn direct_radix_v1_finite_len(byte_len: usize, capacity: u32) -> (r: Result<usize, FallbackError>)
    ensures
        r == v1_len_result(byte_len as nat, capacity),
{
    if capacity < 2 {
        return Err(FallbackError::CapacityTooSmall(capacity));
    }
    if byte_len == usize::MAX {
        return Err(FallbackError::LengthOverflow);
    }
    let value = byte_len + 1;
    let bits = bit_length(value as u128);
    proof {
        lemma_bit_len_range(value as nat);
        if bits as int > usize::BITS {
            lemma_pow_increases(2, usize::BITS as nat, (bits - 1) as nat);
            vstd::arithmetic::power2::lemma_pow2(usize::BITS as nat);
            vstd::arithmetic::power2::lemma2_to64();
            assert(false);
        }
    }
    let gamma: usize = 2 * (bits as usize) - 1;
    let full_blocks = byte_len / 15;
    let remainder = byte_len % 15;
    let full_width = radix_digits_for_bytes(capacity, 15);
    let remainder_width = if remainder == 0 {
        0
    } else {
        radix_digits_for_bytes(capacity, remainder)
    };
    let payload = match full_blocks.checked_mul(full_width) {
        Some(v) => match v.checked_add(remainder_width) {
            Some(w) => w,
            None => {
                return Err(FallbackError::LengthOverflow);
            },
        },
        None => {
            proof {
                lemma_mul_is_commutative(full_blocks as int, full_width as int);
            }
            return Err(FallbackError::LengthOverflow);
        },
    };
    match gamma.checked_add(payload) {
        Some(v) => Ok(v),
        None => Err(FallbackError::LengthOverflow),
    }
}

/// Reference finite length of a bundled binary-Hasse-at-zero tail: a bundle
/// carries `floor(log2(capacity))` coefficient bits and the monic coefficient
/// ends the stream, so `8 * byte_len + 1` bits are informative.
pub open spec fn binary_hasse_len_spec(byte_len: nat, capacity: u32) -> Result<usize, FallbackError> {
    if capacity < 2 {
        Err(FallbackError::CapacityTooSmall(capacity))
    } else {
        let per_atom = (bit_len(capacity as nat) - 1) as nat;
        if byte_len * 8 + 1 > usize::MAX || byte_len * 8 + 1 + per_atom - 1 > usize::MAX {
            Err(FallbackError::LengthOverflow)
        } else {
            Ok((((byte_len * 8 + 1 + per_atom - 1) as nat) / per_atom) as usize)
        }
    }
}

pub fn binary_hasse_zero_finite_len(byte_len: usize, capacity: u32) -> (r: Result<usize, FallbackError>)
    ensures
        r == binary_hasse_len_spec(byte_len as nat, capacity),
{
    if capacity < 2 {
        return Err(FallbackError::CapacityTooSmall(capacity));
    }
    let b = bit_length(capacity as u128);
    proof {
        lemma_bit_len_range(capacity as nat);
        if b < 2 {
            reveal(pow);
            assert(false);
        }
        vstd::arithmetic::power2::lemma_pow2(32);
        vstd::arithmetic::power2::lemma2_to64();
        lemma_bit_len_bound(capacity as nat, 32);
    }
    let bits_per_atom = (b - 1) as usize;
    let bits = match byte_len.checked_mul(8) {
        Some(v) => match v.checked_add(1) {
            Some(w) => w,
            None => {
                return Err(FallbackError::LengthOverflow);
            },
        },
        None => {
            return Err(FallbackError::LengthOverflow);
        },
    };
    match bits.checked_add(bits_per_atom - 1) {
        Some(n) => Ok(n / bits_per_atom),
        None => Err(FallbackError::LengthOverflow),
    }
}

} // verus!
