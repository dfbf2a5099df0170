//! Recursive directory catalog: a walk over a directory tree records each
//! regular file under its extension key, and the catalog renders as text with
//! the groups in ascending key order.
pub mod extension;
pub mod order;
pub mod catalog;
pub mod scan;
pub mod outcome;
pub mod laws;
