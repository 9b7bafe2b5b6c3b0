//! Verified core of a globe that shows live flights.
//!
//! The renderer owns the scene; this library owns the decisions: how a flight
//! record is decoded, how it is reconciled with the planes already shown, and
//! when the normal map of the globe gets its texture format corrected.

pub mod earth;
pub mod flight;
pub mod planes;
