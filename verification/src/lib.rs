//! A personal fact store built on an append-only, per-peer event log.
//!
//! Local facts (a message sent, a name asserted, a claim to identify another
//! peer) are recorded as immutable events.  A rule engine derives higher-level
//! relations (message projections, identity merging, display-name history)
//! from the log, incrementally and to a fixpoint, without ever mutating the
//! log itself.  A portable-event layer exports a slice of one peer's log with
//! all internal row numbers translated to portable identifiers, and imports
//! such a slice under the sending peer's identity.

pub mod model;
pub mod ops;
pub mod card;
pub mod rules;
pub mod closure;
pub mod names;
pub mod engine;
pub mod portable;
pub mod laws;
