//! A reactive state engine: signals, derived values and effects that live in a
//! scope, with the dependency graph between them tracked by reads.
//!
//! The scope is an arena of nodes addressed by stable indices. It records who
//! read what, marks derived values stale when a signal is written, and queues
//! the effects that have to run again. The closures themselves stay with the
//! host: the scope tells the host when a derivation or an effect body has to
//! run, and the host reports back when it is done.
pub mod counter;
pub mod error;
pub mod lifecycle;
pub mod laws;
pub mod model;
pub mod patterns;
pub mod props;
pub mod scope;
pub mod shared;
pub mod validation;
