//! TECA — Token-Efficient Content Addressing.
//!
//! Caller bytes are mapped by a cooked `Scheme` to a lazy, indefinitely
//! extensible stream of structural `AtomId`s. `Neighborhood` is the stateful
//! layer above that stream: it assigns each distinct content the shortest
//! prefix of its stream that no other member shares.

pub mod actions;
pub mod address;
pub mod artifact;
pub mod codec;
pub mod cook;
pub mod cook_build;
pub mod ctm;
pub mod defaults;
pub mod fallback;
pub mod lexicon;
pub mod field;
pub mod neighborhood;
pub mod bundle;
pub mod prior;
pub mod prior_bytes;
pub mod probe;
pub mod render;
pub mod scheme;
pub mod scheme_bytes;
pub mod search;
pub mod snapshot;
pub use address::{Address, AtomId, TokenAddress, TokenAddressError};
pub use artifact::{
    decode_lexicon, encode_lexicon, ArtifactError, CookObjectiveDescriptor, CookStatus, LexiconArtifact,
};
pub use bundle::ProbeBundle;
pub use codec::ContentCodecDescriptor;
pub use defaults::{default_atom_ids, default_scheme};
pub use fallback::FallbackDescriptor;
pub use lexicon::{Lexicon, LexiconError};
pub use neighborhood::{
    AddressChange, InsertResult, InsertStatus, Neighborhood, NeighborhoodAddress, NeighborhoodEntry,
    NeighborhoodError, NeighborhoodRow, RemoveResult, Resolution,
};
pub use prior_bytes::{decode_prior, encode_prior};
pub use render::{render_neighborhood_address, render_text_prefix};
pub use scheme::{DecisionNode, Scheme, SchemeError};
pub use scheme_bytes::{decode_scheme, encode_scheme, CookCertificateArtifact, SchemeArtifact};
pub use snapshot::{decode_neighborhood, encode_neighborhood};
