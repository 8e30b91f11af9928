//! Lazy, idempotent, type-keyed routine registration.
//!
//! A host scheduler attaches marker components to entities and fires a hook on
//! each attachment. The first attachment of a given marker type must register
//! exactly one processing routine for that type; every later attachment of the
//! same type is a no-op that only reports the skip. A driver pass invokes each
//! registered routine exactly once per cycle.
//!
//! This crate holds the verified core of that mechanic: the registration
//! table, the registrar's check-then-insert discipline, and the driver's
//! invocation plan. Type identity and routine execution belong to the host;
//! they reach the library as plain values (a numeric type key in, a numeric
//! routine handle out).

pub mod registrar;
pub mod table;
