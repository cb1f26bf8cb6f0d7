//! A registry-driven state store: a fixed set of named domains, each holding
//! one structured value that changes only through named events processed by a
//! per-domain transformation, with every change mirrored to a per-domain file
//! by the hosting application.

pub mod errors;
pub mod json;
pub mod parse;
pub mod registry;
pub mod store;
