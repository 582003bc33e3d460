//! Schema registry and type-mapping core for an embedded query-language
//! toolchain.
//!
//! The crate classifies declared field types into a canonical scalar or
//! reference kind, accumulates the classified fields into a catalog of named
//! tables, and tracks the positional bind arguments of the query currently
//! under analysis.

pub mod attribute;
pub mod order;
pub mod state;
