//! Splitting a byte source into numbered, fixed-size parts and joining such
//! parts back into one output.
//!
//! The library holds the decisions: how a size literal is read, how parts
//! are cut and named, which output name a join uses, and when a join stops.
//! Reading and writing files is left to the caller, which hands the library
//! plain values and acts on what it returns.

pub mod join;
pub mod naming;
pub mod size;
pub mod split;
pub mod text;
