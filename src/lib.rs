//! Context-aware configuration and experimentation.
//!
//! Conditions are JSON-logic predicates over a caller's dimensions. The
//! configuration store layers contextual overrides over default values, in
//! the order of dimension priorities. Experiments split traffic between
//! variants; they are validated against one another before they are stored,
//! and a client cache keeps the running ones up to date by polling.

pub mod json;
pub mod error;
pub mod external;
pub mod condition;
pub mod resolve;
pub mod store;
pub mod experiment;
pub mod validation;
pub mod assign;
pub mod lifecycle;
pub mod client;
pub mod last_error;
pub mod auth;
