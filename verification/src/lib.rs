//! Dataset tag store: an in-memory model of a directory of image files and
//! their sibling tag files, with a codec for the textual tag representation
//! and pure planning functions for every mutation. All filesystem work is
//! left to the caller: each operation returns the exact file writes to
//! perform, so the caller can commit them to disk before adopting the new
//! snapshot.

pub mod codec;
pub mod dataset;
pub mod paths;
