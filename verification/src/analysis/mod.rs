//! Analyses over the intermediate language.

pub mod calling_convention;
