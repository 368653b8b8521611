//! A route-to-schema registry with a compatibility differ.
//!
//! The registry collects HTTP operation descriptors together with the named
//! schema models their responses reference, validates that every reference
//! resolves, and exports immutable, deterministically ordered snapshot
//! documents. The differ compares two snapshot documents and classifies every
//! difference as an addition, a removal, or a change, and the whole diff as
//! breaking or compatible.

pub mod order;
pub mod model;
pub mod registry;
pub mod diff;
pub mod laws;
pub mod routes;
