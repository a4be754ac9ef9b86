//! Validation and classification of the electrical connectivity of a
//! printed-circuit-board design.
//!
//! A design is a set of named chip instances, a list of pairwise pin-to-pin
//! wires, and a list of pins exposed to the outside world.  The library
//! checks that such a design is electrically well-formed and, when it is,
//! produces a normalized list of connection groups: pins that are shorted
//! together are merged into disjoint groups, and each group is classified
//! as a direct pair, a single-driver broadcast, or a multi-driver
//! tristated bus.

pub mod builder;
pub mod classify;
pub mod grouping;
pub mod model;
pub mod pins;
