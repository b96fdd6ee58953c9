//! Arena-based IR for a timeline-typed hardware language, and the pass that
//! lowers bundle-typed signature ports into scalar ports.
//!
//! - [`ir`]: component arenas, the meaning of expressions and time points,
//!   and substitution.
//! - [`structure`]: ports, liveness, bundle accesses and their slicing.
//! - [`ast`]: the named program representation that the pass rewrites.
//! - [`bundle_elim`]: the bundle-elimination pass.
//! - [`position`]: the table of source positions.
pub mod ast;
pub mod bundle_elim;
pub mod ir;
pub mod position;
pub mod structure;
