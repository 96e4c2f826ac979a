//! Compiles packet filters into a predicate tree and classifies packets against it.
pub mod classify;
pub mod laws;
pub mod packet;
pub mod predicate;
pub mod ptree;
