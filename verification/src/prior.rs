//! Plain records of the offline prior: provenance, symbol spaces, and the
//! transformations and metadata a prior was built with.
use vstd::prelude::*;

pub use crate::ctm::{from_fixed_point_scenarios, CtmError, CANONICAL_B9_FILENAME};

verus! {

/// Where one input of an artifact came from.
#[derive(Clone, Debug, PartialEq, Eq)]
pub struct ProvenanceRecord {
    pub name: String,
    pub source: String,
    pub license: String,
}

/// Mathematical content of a provenance record.
pub struct ProvenanceView {
    pub name: Seq<char>,
    pub source: Seq<char>,
    pub license: Seq<char>,
}

impl View for ProvenanceRecord {
    type V = ProvenanceView;

    open spec fn view(&self) -> ProvenanceView {
        ProvenanceView { name: self.name@, source: self.source@, license: self.license@ }
    }
}

#[derive(Clone, Debug, PartialEq, Eq, PartialOrd, Ord)]
pub enum PriorTransform {
    PairOrderCanonicalized,
    GlobalBinaryComplementAggregated,
    Named(String),
}

#[derive(Clone, Debug, PartialEq, Eq)]
pub struct SymbolSpace {
    pub cardinality: u32,
    pub name: String,
}

#[derive(Clone, Debug, PartialEq, Eq)]
pub enum PriorMetadata {
    CanonicalCtmB9D12 { provenance: String },
    ExternalFinite {
        model_identity: String,
        builder_identity: String,
        budget: Option<String>,
        uncertainty_note: String,
    },
}

/// Mathematical content of a transformation.
pub enum TransformView {
    PairOrderCanonicalized,
    GlobalBinaryComplementAggregated,
    Named(Seq<char>),
}

impl View for PriorTransform {
    type V = TransformView;

    open spec fn view(&self) -> TransformView {
        match self {
            PriorTransform::PairOrderCanonicalized => TransformView::PairOrderCanonicalized,
            PriorTransform::GlobalBinaryComplementAggregated => TransformView::GlobalBinaryComplementAggregated,
            PriorTransform::Named(s) => TransformView::Named(s@),
        }
    }
}

/// Mathematical content of prior metadata.
pub enum MetadataView {
    CanonicalCtmB9D12 { provenance: Seq<char> },
    ExternalFinite {
        model_identity: Seq<char>,
        builder_identity: Seq<char>,
        budget: Option<Seq<char>>,
        uncertainty_note: Seq<char>,
    },
}

/// View of an optional string.
pub open spec fn opt_chars(o: Option<String>) -> Option<Seq<char>> {
    match o {
        Some(s) => Some(s@),
        None => None,
    }
}

impl View for PriorMetadata {
    type V = MetadataView;

    open spec fn view(&self) -> MetadataView {
        match self {
            PriorMetadata::CanonicalCtmB9D12 { provenance } => MetadataView::CanonicalCtmB9D12 {
                provenance: provenance@,
            },
            PriorMetadata::ExternalFinite { model_identity, builder_identity, budget, uncertainty_note } =>
                MetadataView::ExternalFinite {
                model_identity: model_identity@,
                builder_identity: builder_identity@,
                budget: opt_chars(*budget),
                uncertainty_note: uncertainty_note@,
            },
        }
    }
}

/// The weight of a scenario: `units / 2^fractional_bits`. The units are held
/// as the big-endian bytes of the integer without leading zero bytes, zero
/// as the empty string.
#[derive(Clone, Debug, PartialEq, Eq)]
pub enum WeightExpr {
    FixedPoint { units: Vec<u8>, fractional_bits: u32 },
}

/// One weighted pair of symbol strings that the addressing should tell apart.
#[derive(Clone, Debug, PartialEq, Eq)]
pub struct Scenario {
    pub left: Vec<u32>,
    pub right: Vec<u32>,
    pub weight: WeightExpr,
}

/// Mathematical content of a scenario.
pub struct ScenarioView {
    pub left: Seq<u32>,
    pub right: Seq<u32>,
    pub units: Seq<u8>,
    pub fractional_bits: u32,
}

impl View for Scenario {
    type V = ScenarioView;

    open spec fn view(&self) -> ScenarioView {
        match self.weight {
            WeightExpr::FixedPoint { units, fractional_bits } => ScenarioView {
                left: self.left@,
                right: self.right@,
                units: units@,
                fractional_bits,
            },
        }
    }
}

/// A finite weighted prior over pairs of symbol strings.
#[derive(Clone, Debug, PartialEq, Eq)]
pub struct PriorArtifact {
    pub symbol_space: SymbolSpace,
    pub scenarios: Vec<Scenario>,
    pub transformations: Vec<PriorTransform>,
    pub metadata: PriorMetadata,
    pub provenance: Vec<ProvenanceRecord>,
}

/// Mathematical content of a prior.
pub struct PriorView {
    pub cardinality: u32,
    pub name: Seq<char>,
    pub scenarios: Seq<ScenarioView>,
    pub transformations: Seq<TransformView>,
    pub metadata: MetadataView,
    pub provenance: Seq<ProvenanceView>,
}

impl View for PriorArtifact {
    type V = PriorView;

    open spec fn view(&self) -> PriorView {
        PriorView {
            cardinality: self.symbol_space.cardinality,
            name: self.symbol_space.name@,
            scenarios: self.scenarios@.map_values(|s: Scenario| s@),
            transformations: self.transformations@.map_values(|t: PriorTransform| t@),
            metadata: self.metadata@,
            provenance: self.provenance@.map_values(|p: ProvenanceRecord| p@),
        }
    }
}

} // verus!
