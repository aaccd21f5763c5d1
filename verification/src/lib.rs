//! Splitting a byte stream into fixed-size, sequentially named parts and
//! putting the parts back together.
//!
//! The crate holds the rules only: how a size is written, how a stream is cut,
//! how parts are named, found and ordered. Reading and writing files is left
//! to the caller.

pub mod join;
pub mod naming;
pub mod roundtrip;
pub mod size;
pub mod split;
pub mod text;
