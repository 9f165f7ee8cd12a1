//! Probe bundles: a mixed-radix combination of scalar probes into one atom.
use crate::address::AtomId;
use crate::codec::{
    all_in_range, codec_cardinality, codec_symbols, lemma_codec_symbols_in_range,
    lemma_min_width_le, min_width, monic_symbol_coefficients, symbol_coefficients_spec,
    ContentCodecDescriptor,
};
use crate::field::element::{fs_wf, ExplicitField, FieldSpec};
use crate::probe::{prime_field_spec, probe_value, ProbeError, ScalarProbe};
use vstd::arithmetic::mul::*;
use vstd::prelude::*;

verus! {

#[derive(Clone, Debug, PartialEq, Eq)]
pub struct ProbeBundle {
    pub probes: Vec<ScalarProbe>,
}

#[derive(Clone, Debug, PartialEq, Eq)]
pub enum BundleError {
    Empty,
    Probe(ProbeError),
    OutcomeOverflow,
    CapacityExceeded { outcomes: u128, capacity: u32 },
}

/// Every probe of a nonempty degree-1 bundle evaluates on `symbols` (an
/// alphabet of at least two, symbols in it, coefficient lists that fit) and
/// the product of the field orders fits the capacity.
pub open spec fn symbols_fit(probes: Seq<ScalarProbe>, symbols: Seq<u32>, m: u32, capacity: u32) -> bool {
    &&& probes.len() > 0
    &&& all_degree_one(probes)
    &&& capacity_fold(probes, capacity, probes.len()) is Ok
    &&& m >= 2
    &&& all_in_range(symbols, m)
    &&& forall|i: int|
        0 <= i < probes.len() ==> symbols.len() * min_width(m as nat, (#[trigger] probes[i]).descriptor().characteristic as nat)
            + 1 <= usize::MAX
}

/// Product of the orders of the first `n` fields.
pub open spec fn bundle_card(fields: Seq<FieldSpec>, n: nat) -> nat
    decreases n,
{
    if n == 0 {
        1
    } else {
        bundle_card(fields, (n - 1) as nat) * fields[n - 1].card
    }
}

/// Mixed-radix rank of the first `n` probe values: probe `i` is evaluated in
/// `fields[i]` on the symbol coefficients, and is a digit of radix
/// `fields[i].card`, most significant first.
pub open spec fn bundle_rank(
    fields: Seq<FieldSpec>,
    probes: Seq<ScalarProbe>,
    symbols: Seq<u32>,
    m: nat,
    n: nat,
) -> nat
    decreases n,
{
    if n == 0 {
        0
    } else {
        let f = fields[n - 1];
        let pr = probes[n - 1];
        bundle_rank(fields, probes, symbols, m, (n - 1) as nat) * f.card + probe_value(
            f,
            symbol_coefficients_spec(symbols, m, f.p),
            pr.hasse_order as nat,
            pr.point_rank as nat,
        )
    }
}

/// The prime fields of degree-1 probes.
pub open spec fn prime_fields(probes: Seq<ScalarProbe>) -> Seq<FieldSpec> {
    probes.map_values(|pr: ScalarProbe| prime_field_spec(pr.descriptor().characteristic as nat))
}

pub open spec fn field_views(fields: Seq<ExplicitField>) -> Seq<FieldSpec> {
    fields.map_values(|f: ExplicitField| f@)
}

/// Fields constructed for each probe of a bundle whose combined outcome
/// space fits `capacity`.
pub open spec fn fields_match(fields: Seq<ExplicitField>, probes: Seq<ScalarProbe>, capacity: nat) -> bool {
    &&& fields.len() == probes.len()
    &&& probes.len() >= 1
    &&& forall|i: int| 0 <= i < fields.len() ==> (#[trigger] fields[i]).wf()
    &&& forall|i: int|
        0 <= i < fields.len() ==> probes[i].point_rank < (#[trigger] fields[i])@.card
    &&& bundle_card(field_views(fields), fields.len()) <= capacity
}

/// Outcome cardinality of the first `n` probes, by their descriptors.
pub open spec fn outcome_fold(probes: Seq<ScalarProbe>, n: nat) -> Result<u128, BundleError>
    decreases n,
{
    if n == 0 {
        Ok(1)
    } else {
        match outcome_fold(probes, (n - 1) as nat) {
            Err(e) => Err(e),
            Ok(o) => match probes[n - 1].field_cardinality_spec() {
                Err(e) => Err(BundleError::Probe(e)),
                Ok(q) => if o * q > u128::MAX {
                    Err(BundleError::OutcomeOverflow)
                } else {
                    Ok((o * q) as u128)
                },
            },
        }
    }
}

/// Outcome cardinality of the first `n` probes, refused as soon as it
/// exceeds `capacity`.
pub open spec fn capacity_fold(probes: Seq<ScalarProbe>, capacity: u32, n: nat) -> Result<
    u128,
    BundleError,
>
    decreases n,
{
    if n == 0 {
        Ok(1)
    } else {
        match capacity_fold(probes, capacity, (n - 1) as nat) {
            Err(e) => Err(e),
            Ok(o) => match probes[n - 1].field_cardinality_spec() {
                Err(e) => Err(BundleError::Probe(e)),
                Ok(q) => if o * q > u128::MAX {
                    Err(BundleError::OutcomeOverflow)
                } else if o * q > capacity {
                    Err(BundleError::CapacityExceeded { outcomes: (o * q) as u128, capacity })
                } else {
                    Ok((o * q) as u128)
                },
            },
        }
    }
}

proof fn lemma_outcome_fold_err(probes: Seq<ScalarProbe>, k: nat, n: nat)
    requires
        k <= n,
        outcome_fold(probes, k) is Err,
    ensures
        outcome_fold(probes, n) == outcome_fold(probes, k),
    decreases n - k,
{
    if k < n {
        lemma_outcome_fold_err(probes, k, (n - 1) as nat);
    }
}

proof fn lemma_capacity_fold_err(probes: Seq<ScalarProbe>, capacity: u32, k: nat, n: nat)
    requires
        k <= n,
        capacity_fold(probes, capacity, k) is Err,
    ensures
        capacity_fold(probes, capacity, n) == capacity_fold(probes, capacity, k),
    decreases n - k,
{
    if k < n {
        lemma_capacity_fold_err(probes, capacity, k, (n - 1) as nat);
    }
}

pub open spec fn all_degree_one(probes: Seq<ScalarProbe>) -> bool {
    forall|i: int| 0 <= i < probes.len() ==> (#[trigger] probes[i]).descriptor().degree == 1
}

proof fn lemma_capacity_fold_bound(probes: Seq<ScalarProbe>, capacity: u32, n: nat)
    requires
        n <= probes.len(),
    ensures
        capacity_fold(probes, capacity, n) matches Ok(o) ==> 1 <= o && (n > 0 ==> o <= capacity),
    decreases n,
{
    if n > 0 {
        lemma_capacity_fold_bound(probes, capacity, (n - 1) as nat);
        if let Ok(o) = capacity_fold(probes, capacity, (n - 1) as nat) {
            if let Ok(q) = probes[n - 1].field_cardinality_spec() {
                assert(q >= 1) by {
                    let d = probes[n - 1].descriptor();
                    vstd::arithmetic::power::lemma_pow_positive(d.characteristic as int, d.degree as nat);
                }
                lemma_mul_increases(q as int, o as int);
                lemma_mul_is_commutative(q as int, o as int);
            }
        }
    }
}

proof fn lemma_bundle_card_positive(fields: Seq<FieldSpec>, n: nat)
    requires
        n <= fields.len(),
        forall|i: int| 0 <= i < n ==> (#[trigger] fields[i]).card >= 1,
    ensures
        bundle_card(fields, n) >= 1,
    decreases n,
{
    if n > 0 {
        lemma_bundle_card_positive(fields, (n - 1) as nat);
        lemma_mul_increases(fields[n - 1].card as int, bundle_card(fields, (n - 1) as nat) as int);
        lemma_mul_is_commutative(fields[n - 1].card as int, bundle_card(fields, (n - 1) as nat) as int);
    }
}

proof fn lemma_bundle_card_mono(fields: Seq<FieldSpec>, k: nat, n: nat)
    requires
        k <= n <= fields.len(),
        forall|i: int| 0 <= i < n ==> (#[trigger] fields[i]).card >= 1,
    ensures
        bundle_card(fields, k) <= bundle_card(fields, n),
    decreases n - k,
{
    if k < n {
        lemma_bundle_card_mono(fields, k, (n - 1) as nat);
        lemma_bundle_card_positive(fields, (n - 1) as nat);
        lemma_mul_increases(fields[n - 1].card as int, bundle_card(fields, (n - 1) as nat) as int);
        lemma_mul_is_commutative(fields[n - 1].card as int, bundle_card(fields, (n - 1) as nat) as int);
    }
}

/// The mixed-radix rank stays below the product of the radices.
proof fn lemma_bundle_rank_bound(
    fields: Seq<FieldSpec>,
    probes: Seq<ScalarProbe>,
    symbols: Seq<u32>,
    m: nat,
    n: nat,
    value: nat,
)
    requires
        n < fields.len(),
        value < fields[n as int].card,
        bundle_rank(fields, probes, symbols, m, n) < bundle_card(fields, n),
    ensures
        bundle_rank(fields, probes, symbols, m, n) * fields[n as int].card + value < bundle_card(
            fields,
            n,
        ) * fields[n as int].card,
{
    let r = bundle_rank(fields, probes, symbols, m, n);
    let c = bundle_card(fields, n);
    let q = fields[n as int].card;
    assert(r * q + value < c * q) by (nonlinear_arith)
        requires
            r < c,
            value < q,
            r >= 0,
    ;
}

impl ProbeBundle {
    pub fn new(probes: Vec<ScalarProbe>) -> (r: Result<Self, BundleError>)
        ensures
            probes@.len() == 0 ==> r == Err::<Self, BundleError>(BundleError::Empty),
            probes@.len() > 0 ==> (r matches Ok(b) && b.probes@ == probes@),
    {
        if probes.len() == 0 {
            return Err(BundleError::Empty);
        }
        Ok(ProbeBundle { probes })
    }

    /// The atom of `bytes` under `codec`: the bundle evaluated on the codec's
    /// symbols.
    pub fn evaluate(&self, bytes: &[u8], codec: ContentCodecDescriptor, capacity: u32) -> (r: Result<
        AtomId,
        BundleError,
    >)
        requires
            bytes@.len() * 8 <= usize::MAX,
        ensures
            self.probes@.len() == 0 ==> r == Err::<AtomId, BundleError>(BundleError::Empty),
            symbols_fit(self.probes@, codec_symbols(codec, bytes@), codec_cardinality(codec), capacity) ==> r is Ok,
            r matches Ok(a) ==> a.0 < capacity && (all_degree_one(self.probes@) ==> a.0
                == bundle_rank(
                prime_fields(self.probes@),
                self.probes@,
                codec_symbols(codec, bytes@),
                codec_cardinality(codec) as nat,
                self.probes@.len(),
            )),
    {
        let symbols = codec.symbols(bytes);
        self.evaluate_symbols(symbols.as_slice(), codec.symbol_cardinality(), capacity)
    }

    /// The atom of an abstract symbol string over `symbol_cardinality` symbols.
    pub fn evaluate_symbols(&self, symbols: &[u32], symbol_cardinality: u32, capacity: u32) -> (r:
        Result<AtomId, BundleError>)
        ensures
            self.probes@.len() == 0 ==> r == Err::<AtomId, BundleError>(BundleError::Empty),
            symbols_fit(self.probes@, symbols@, symbol_cardinality, capacity) ==> r is Ok,
            r matches Ok(a) ==> a.0 < capacity && (all_degree_one(self.probes@) ==> a.0
                == bundle_rank(
                prime_fields(self.probes@),
                self.probes@,
                symbols@,
                symbol_cardinality as nat,
                self.probes@.len(),
            )),
    {
        if self.probes.len() == 0 {
            return Err(BundleError::Empty);
        }
        let ghost probes = self.probes@;
        let ghost pf = prime_fields(probes);
        let mut rank: u128 = 0;
        let mut outcomes: u128 = 1;
        let mut i: usize = 0;
        while i < self.probes.len()
            invariant
                probes == self.probes@,
                pf == prime_fields(probes),
                i <= probes.len(),
                probes.len() >= 1,
                rank < outcomes,
                i > 0 ==> outcomes <= capacity,
                all_degree_one(probes) ==> outcomes == bundle_card(pf, i as nat) && rank
                    == bundle_rank(pf, probes, symbols@, symbol_cardinality as nat, i as nat),
                symbols_fit(probes, symbols@, symbol_cardinality, capacity) ==> capacity_fold(probes, capacity, i as nat)
                    == Ok::<u128, BundleError>(outcomes),
            decreases probes.len() - i,
        {
            let probe = &self.probes[i];
            proof {
                if symbols_fit(probes, symbols@, symbol_cardinality, capacity) {
                    if capacity_fold(probes, capacity, (i + 1) as nat) is Err {
                        lemma_capacity_fold_err(probes, capacity, (i + 1) as nat, probes.len());
                    }
                    assert(probes[i as int].descriptor().degree == 1);
                }
            }
            let (value, q) = match probe.evaluate_symbols(symbols, symbol_cardinality) {
                Ok(v) => v,
                Err(e) => {
                    return Err(BundleError::Probe(e));
                },
            };
            let ghost old_outcomes = outcomes;
            outcomes = match outcomes.checked_mul(q) {
                Some(o) => o,
                None => {
                    return Err(BundleError::OutcomeOverflow);
                },
            };
            if outcomes > capacity as u128 {
                return Err(BundleError::CapacityExceeded { outcomes, capacity });
            }
            proof {
                assert(rank * q + value < outcomes) by (nonlinear_arith)
                    requires
                        rank < old_outcomes,
                        outcomes == old_outcomes * q,
                        value < q,
                ;
            }
            rank = rank * q + value;
            proof {
                if all_degree_one(probes) {
                    assert(probes[i as int].descriptor().degree == 1);
                    vstd::arithmetic::power::lemma_pow1(
                        probes[i as int].descriptor().characteristic as int,
                    );
                    assert(pf[i as int] == prime_field_spec(
                        probes[i as int].descriptor().characteristic as nat,
                    ));
                }
            }
            i = i + 1;
        }
        Ok(AtomId(rank as u32))
    }

    /// Product of the probe field orders.
    pub fn outcome_cardinality(&self) -> (r: Result<u128, BundleError>)
        ensures
            self.probes@.len() == 0 ==> r == Err::<u128, BundleError>(BundleError::Empty),
            self.probes@.len() > 0 ==> r == outcome_fold(self.probes@, self.probes@.len()),
    {
        if self.probes.len() == 0 {
            return Err(BundleError::Empty);
        }
        let mut outcomes: u128 = 1;
        let mut i: usize = 0;
        while i < self.probes.len()
            invariant
                i <= self.probes@.len(),
                outcome_fold(self.probes@, i as nat) == Ok::<u128, BundleError>(outcomes),
            decreases self.probes@.len() - i,
        {
            let q = match self.probes[i].field_cardinality() {
                Ok(q) => q,
                Err(e) => {
                    proof {
                        lemma_outcome_fold_err(self.probes@, (i + 1) as nat, self.probes@.len());
                    }
                    return Err(BundleError::Probe(e));
                },
            };
            outcomes = match outcomes.checked_mul(q) {
                Some(o) => o,
                None => {
                    proof {
                        lemma_outcome_fold_err(self.probes@, (i + 1) as nat, self.probes@.len());
                    }
                    return Err(BundleError::OutcomeOverflow);
                },
            };
            i = i + 1;
        }
        Ok(outcomes)
    }

    /// Full validation, including StandardFF construction and point bounds,
    /// with the resulting mixed-radix capacity.
    pub fn validate(&self, capacity: u32) -> (r: Result<u128, BundleError>)
        ensures
            self.probes@.len() == 0 ==> r == Err::<u128, BundleError>(BundleError::Empty),
            r matches Ok(o) ==> capacity_fold(self.probes@, capacity, self.probes@.len()) == Ok::<
                u128,
                BundleError,
            >(o) && self.probes@.len() > 0,
            self.probes@.len() > 0 && all_degree_one(self.probes@) ==> r == capacity_fold(
                self.probes@,
                capacity,
                self.probes@.len(),
            ),
            self.probes@.len() > 0 ==> (r == capacity_fold(self.probes@, capacity, self.probes@.len()) || (r matches Err(
                BundleError::Probe(ProbeError::StandardFf(_)),
            ))),
    {
        if self.probes.len() == 0 {
            return Err(BundleError::Empty);
        }
        let mut outcomes: u128 = 1;
        let mut i: usize = 0;
        while i < self.probes.len()
            invariant
                i <= self.probes@.len(),
                capacity_fold(self.probes@, capacity, i as nat) == Ok::<u128, BundleError>(outcomes),
            decreases self.probes@.len() - i,
        {
            let q = match self.probes[i].validate() {
                Ok(q) => q,
                Err(e) => {
                    proof {
                        if all_degree_one(self.probes@) {
                            assert(self.probes@[i as int].descriptor().degree == 1);
                            lemma_capacity_fold_err(self.probes@, capacity, (i + 1) as nat, self.probes@.len());
                        }
                        if self.probes@[i as int].field_cardinality_spec() is Err {
                            lemma_capacity_fold_err(self.probes@, capacity, (i + 1) as nat, self.probes@.len());
                        }
                    }
                    return Err(BundleError::Probe(e));
                },
            };
            outcomes = match outcomes.checked_mul(q) {
                Some(o) => o,
                None => {
                    proof {
                        lemma_capacity_fold_err(self.probes@, capacity, (i + 1) as nat, self.probes@.len());
                    }
                    return Err(BundleError::OutcomeOverflow);
                },
            };
            if outcomes > capacity as u128 {
                proof {
                    lemma_capacity_fold_err(self.probes@, capacity, (i + 1) as nat, self.probes@.len());
                }
                return Err(BundleError::CapacityExceeded { outcomes, capacity });
            }
            i = i + 1;
        }
        Ok(outcomes)
    }

    /// The atom of the bundle on `symbols`, with each probe evaluated in its
    /// already constructed field.
    pub fn evaluate_compiled(
        &self,
        fields: &Vec<ExplicitField>,
        symbols: &[u32],
        symbol_cardinality: u32,
        capacity: u32,
    ) -> (r: u32)
        requires
            fields_match(fields@, self.probes@, capacity as nat),
            symbol_cardinality >= 2,
            all_in_range(symbols@, symbol_cardinality),
            symbols@.len() * symbol_cardinality + 1 <= usize::MAX,
        ensures
            r == bundle_rank(
                field_views(fields@),
                self.probes@,
                symbols@,
                symbol_cardinality as nat,
                self.probes@.len(),
            ),
            r < capacity,
    {
        let ghost fv = field_views(fields@);
        let ghost probes = self.probes@;
        let ghost n = probes.len();
        proof {
            assert forall|i: int| 0 <= i < n implies (#[trigger] fv[i]).card >= 1 by {
                fields@[i].lemma_wf_facts();
            }
            lemma_bundle_card_mono(fv, 0, n);
        }
        let mut rank: u128 = 0;
        let mut i: usize = 0;
        while i < self.probes.len()
            invariant
                fv == field_views(fields@),
                probes == self.probes@,
                n == probes.len(),
                fields_match(fields@, probes, capacity as nat),
                forall|k: int| 0 <= k < n ==> (#[trigger] fv[k]).card >= 1,
                symbol_cardinality >= 2,
                all_in_range(symbols@, symbol_cardinality),
                symbols@.len() * symbol_cardinality + 1 <= usize::MAX,
                i <= n,
                rank == bundle_rank(fv, probes, symbols@, symbol_cardinality as nat, i as nat),
                rank < bundle_card(fv, i as nat),
            decreases n - i,
        {
            let field = &fields[i];
            proof {
                field.lemma_wf_facts();
                lemma_min_width_le(symbol_cardinality as nat, field@.p);
                lemma_mul_upper_bound(
                    symbols@.len() as int,
                    symbols@.len() as int,
                    min_width(symbol_cardinality as nat, field@.p) as int,
                    symbol_cardinality as int,
                );
            }
            let coefficients = match monic_symbol_coefficients(
                symbols,
                symbol_cardinality,
                field.characteristic(),
            ) {
                Ok(c) => c,
                Err(_) => {
                    proof {
                        assert(false);
                    }
                    return 0;
                },
            };
            let (value, q) = match self.probes[i].evaluate_in(field, coefficients.as_slice()) {
                Ok(v) => v,
                Err(_) => {
                    proof {
                        assert(false);
                    }
                    return 0;
                },
            };
            proof {
                assert(fv[i as int] == field@);
                lemma_bundle_rank_bound(fv, probes, symbols@, symbol_cardinality as nat, i as nat, value as nat);
                lemma_bundle_card_mono(fv, (i + 1) as nat, n);
                assert(bundle_card(fv, (i + 1) as nat) <= capacity);
            }
            rank = rank * q + value;
            i = i + 1;
        }
        rank as u32
    }
}

} // verus!
