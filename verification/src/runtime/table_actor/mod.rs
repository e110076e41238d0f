//! A table actor's state.
pub mod state;
