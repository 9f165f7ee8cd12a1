//! Finite-field substrate: prime/extension field arithmetic, Hasse
//! derivatives and the StandardFF field construction.

pub mod element;
pub mod hasse;
pub mod polynomial;
pub mod standardff;
pub mod orders;

pub use element::{ExplicitField, FieldElement, FieldError};
