//! The first front end of the language.
pub mod meerast;
