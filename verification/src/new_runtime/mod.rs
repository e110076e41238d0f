//! The transactional reactive runtime: an evaluator, the messages exchanged
//! between services and the clients that drive them, the service logic, and
//! the clients themselves.
pub mod clients;
pub mod evaluator;
pub mod message;
pub mod service;
