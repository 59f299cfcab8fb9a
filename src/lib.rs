//! Addressing and cancellation for an ordered key-value storage engine.
//!
//! - [`key`]: the order-preserving byte encoding of a fully-qualified record address.
//! - [`resource`]: what a query targets, and which targets may carry a range.
//! - [`canceller`]: a shared, poll-based cancellation flag.
pub mod canceller;
pub mod error;
pub mod id;
pub mod key;
pub mod lex;
pub mod names;
pub mod resource;
pub mod storekey_calls;
