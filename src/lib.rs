//! Scoping and schema-definition engine of a graph-relational store.
//!
//! - `status`: result codes of the key-value storage engine.
//! - `value`, `typing`, `tuple`: the value model, schema typings and their
//!   canonical text, and tagged tuples of values.
//! - `codec`: the order-preserving byte encoding of tuples, with its round trip
//!   and order laws.
//! - `env`: the in-memory environment of nested scopes and its scoping laws.
//! - `definition`: turning node, edge, association and type definitions
//!   into stored tuples.
//! - `session`: keys, counters and scope clean-up of the environment kept in a
//!   transactional key-value store.
//! - `ops`, `eval`: the operator library and the partial evaluator.

pub mod codec;
pub mod definition;
pub mod env;
pub mod error;
pub mod eval;
pub mod ops;
pub mod session;
pub mod status;
pub mod tuple;
pub mod typing;
pub mod value;
