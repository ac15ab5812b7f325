//! Core data structures of a flexible-box layout engine.
//!
//! The heart of the crate is [`forest::Forest`]: a flat arena of styled
//! nodes with explicit parent/child adjacency, dirty bits and cached
//! layout results, on which a flex layout pass operates.  The remaining
//! modules supply the vocabulary that the forest stores: geometry
//! primitives, optional scalars, and the style model.
//!
//! All scalar quantities are integers; a host that works in fractional
//! units chooses its own fixed-point scale when it fills in styles and
//! reads layouts back.

pub mod ancestry;
pub mod forest;
pub mod geometry;
pub mod layout;
pub mod number;
pub mod style;
