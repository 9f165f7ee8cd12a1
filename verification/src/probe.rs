//! Scalar probes: the rank of a Hasse derivative of the content polynomial at
//! a field point.
use crate::codec::{
    all_in_range, min_width, monic_prime_spec, monic_symbol_coefficients,
    symbol_coefficients_spec, CodecError, ContentCodecDescriptor,
};
use crate::field::element::{from_rank_spec, rank_spec, ExplicitField, FieldError, FieldSpec, ModelSpec};
use crate::field::polynomial::{evaluate_hasse, hasse_spec};
use crate::field::standardff::{StandardFfError, StandardFieldDescriptor};
use vstd::prelude::*;

verus! {

#[derive(Clone, Copy, Debug, PartialEq, Eq, Structural)]
pub enum FieldDescriptor {
    Standard(StandardFieldDescriptor),
}

#[derive(Clone, Copy, Debug, PartialEq, Eq, Structural)]
pub struct ScalarProbe {
    pub field: FieldDescriptor,
    pub point_rank: u128,
    pub hasse_order: u32,
}

#[derive(Clone, Debug, PartialEq, Eq)]
pub enum ProbeError {
    Codec(CodecError),
    Field(FieldError),
    StandardFf(StandardFfError),
    PointRankOutOfRange { point_rank: u128, cardinality: u128 },
}

/// The prime field F_p as built for a degree-1 descriptor.
pub open spec fn prime_field_spec(p: nat) -> FieldSpec {
    FieldSpec { p, degree: 1, card: p, model: ModelSpec::Poly { modulus: seq![0u32, 1u32] } }
}

/// Steinitz number of the order-`order` Hasse derivative, at the point of
/// Steinitz number `point`, of the polynomial with coefficients `c` over `f`.
pub open spec fn probe_value(f: FieldSpec, c: Seq<u32>, order: nat, point: nat) -> nat {
    rank_spec(hasse_spec(f, c, order, from_rank_spec(f, point)), f.p)
}

impl ScalarProbe {
    pub open spec fn descriptor(self) -> StandardFieldDescriptor {
        match self.field {
            FieldDescriptor::Standard(d) => d,
        }
    }

    /// Field order, checked against the descriptor and the point.
    pub open spec fn field_cardinality_spec(self) -> Result<u128, ProbeError> {
        match self.descriptor().validate_spec() {
            Err(e) => Err(ProbeError::StandardFf(e)),
            Ok(_) => if self.point_rank >= self.descriptor().order_spec() {
                Err(
                    ProbeError::PointRankOutOfRange {
                        point_rank: self.point_rank,
                        cardinality: self.descriptor().order_spec() as u128,
                    },
                )
            } else {
                Ok(self.descriptor().order_spec() as u128)
            },
        }
    }

    pub fn field_cardinality(&self) -> (r: Result<u128, ProbeError>)
        ensures
            r == self.field_cardinality_spec(),
    {
        let cardinality = match &self.field {
            FieldDescriptor::Standard(desc) => match desc.order() {
                Ok(c) => c,
                Err(e) => {
                    return Err(ProbeError::StandardFf(e));
                },
            },
        };
        if self.point_rank >= cardinality {
            return Err(
                ProbeError::PointRankOutOfRange { point_rank: self.point_rank, cardinality },
            );
        }
        Ok(cardinality)
    }

    /// Full validation: the checks of `field_cardinality`, and that the
    /// standardized field can be constructed.
    pub fn validate(&self) -> (r: Result<u128, ProbeError>)
        ensures
            self.field_cardinality_spec() matches Err(e) ==> r == Err::<u128, ProbeError>(e),
            r matches Ok(c) ==> self.field_cardinality_spec() == Ok::<u128, ProbeError>(c),
            self.field_cardinality_spec() is Ok && self.descriptor().degree == 1 ==> r is Ok,
            self.field_cardinality_spec() is Ok && r is Err ==> (r matches Err(ProbeError::StandardFf(_))),
    {
        let cardinality = match self.field_cardinality() {
            Ok(c) => c,
            Err(e) => {
                return Err(e);
            },
        };
        let FieldDescriptor::Standard(desc) = &self.field;
        match desc.instantiate() {
            Ok(_) => Ok(cardinality),
            Err(e) => Err(ProbeError::StandardFf(e)),
        }
    }

    /// Evaluate the probe in an already constructed field, on the given
    /// coefficients: `(value, field order)`.
    pub fn evaluate_in(&self, field: &ExplicitField, coefficients: &[u32]) -> (r: Result<
        (u128, u128),
        ProbeError,
    >)
        requires
            field.wf(),
        ensures
            self.point_rank >= field@.card ==> r == Err::<(u128, u128), ProbeError>(
                ProbeError::Field(
                    FieldError::RankOutOfRange {
                        rank: self.point_rank,
                        cardinality: field@.card as u128,
                    },
                ),
            ),
            self.point_rank < field@.card ==> r == Ok::<(u128, u128), ProbeError>(
                (
                    probe_value(
                        field@,
                        coefficients@,
                        self.hasse_order as nat,
                        self.point_rank as nat,
                    ) as u128,
                    field@.card as u128,
                ),
            ) && probe_value(field@, coefficients@, self.hasse_order as nat, self.point_rank as nat)
                < field@.card,
    {
        let point = match field.from_rank(self.point_rank) {
            Ok(p) => p,
            Err(e) => {
                return Err(ProbeError::Field(e));
            },
        };
        let value = match evaluate_hasse(field, coefficients, self.hasse_order as usize, &point) {
            Ok(v) => v,
            Err(e) => {
                proof {
                    assert(false);
                }
                return Err(ProbeError::Field(e));
            },
        };
        proof {
            field.lemma_wf_facts();
            if self.hasse_order as nat >= coefficients@.len() {
                crate::field::element::lemma_zero_ok(field@);
            }
        }
        match field.rank(&value) {
            Ok(v) => Ok((v, field.cardinality())),
            Err(e) => {
                proof {
                    assert(false);
                }
                Err(ProbeError::Field(e))
            },
        }
    }

    /// `(value, field order)` of the probe on `bytes` under `codec`.
    pub fn evaluate(&self, bytes: &[u8], codec: ContentCodecDescriptor) -> (r: Result<
        (u128, u128),
        ProbeError,
    >)
        requires
            bytes@.len() * 8 < usize::MAX,
        ensures
            self.field_cardinality_spec() matches Err(e) ==> r == Err::<(u128, u128), ProbeError>(
                e,
            ),
            r matches Ok((v, q)) ==> q == self.descriptor().order_spec() && v < q && (
            self.descriptor().degree == 1 ==> v == probe_value(
                prime_field_spec(self.descriptor().characteristic as nat),
                monic_prime_spec(codec, bytes@, self.descriptor().characteristic as nat),
                self.hasse_order as nat,
                self.point_rank as nat,
            )),
            self.field_cardinality_spec() is Ok && self.descriptor().degree == 1 ==> r is Ok,
    {
        match self.validate() {
            Ok(_) => {},
            Err(e) => {
                return Err(e);
            },
        }
        let field = match &self.field {
            FieldDescriptor::Standard(desc) => match desc.instantiate() {
                Ok(f) => f,
                Err(e) => {
                    return Err(ProbeError::StandardFf(e));
                },
            },
        };
        proof {
            field.lemma_wf_facts();
            if self.descriptor().degree == 1 {
                vstd::arithmetic::power::lemma_pow1(self.descriptor().characteristic as int);
                assert(field@ == prime_field_spec(self.descriptor().characteristic as nat));
            }
        }
        let coefficients = match codec.monic_prime_coefficients(bytes, field.characteristic()) {
            Ok(c) => c,
            Err(e) => {
                return Err(ProbeError::Codec(e));
            },
        };
        self.evaluate_in(&field, coefficients.as_slice())
    }

    /// `(value, field order)` of the probe on an abstract symbol string.
    pub fn evaluate_symbols(&self, symbols: &[u32], symbol_cardinality: u32) -> (r: Result<
        (u128, u128),
        ProbeError,
    >)
        ensures
            self.field_cardinality_spec() matches Err(e) ==> r == Err::<(u128, u128), ProbeError>(
                e,
            ),
            r matches Ok((v, q)) ==> q == self.descriptor().order_spec() && v < q && (
            self.descriptor().degree == 1 ==> v == probe_value(
                prime_field_spec(self.descriptor().characteristic as nat),
                symbol_coefficients_spec(
                    symbols@,
                    symbol_cardinality as nat,
                    self.descriptor().characteristic as nat,
                ),
                self.hasse_order as nat,
                self.point_rank as nat,
            )),
            self.field_cardinality_spec() is Ok && self.descriptor().degree == 1
                && symbol_cardinality >= 2 && all_in_range(symbols@, symbol_cardinality)
                && symbols@.len() * min_width(
                symbol_cardinality as nat,
                self.descriptor().characteristic as nat,
            ) + 1 <= usize::MAX ==> r is Ok,
    {
        match self.validate() {
            Ok(_) => {},
            Err(e) => {
                return Err(e);
            },
        }
        let field = match &self.field {
            FieldDescriptor::Standard(desc) => match desc.instantiate() {
                Ok(f) => f,
                Err(e) => {
                    return Err(ProbeError::StandardFf(e));
                },
            },
        };
        proof {
            field.lemma_wf_facts();
            if self.descriptor().degree == 1 {
                vstd::arithmetic::power::lemma_pow1(self.descriptor().characteristic as int);
                assert(field@ == prime_field_spec(self.descriptor().characteristic as nat));
            }
        }
        let coefficients = match monic_symbol_coefficients(
            symbols,
            symbol_cardinality,
            field.characteristic(),
        ) {
            Ok(c) => c,
            Err(e) => {
                return Err(ProbeError::Codec(e));
            },
        };
        self.evaluate_in(&field, coefficients.as_slice())
    }
}

} // verus!
