//! Splits a file into size-bounded chunks and joins such chunks back together.
//!
//! The library holds the logic: the chunk plan, the naming scheme that binds a
//! chunk's index to its file name, cutting bytes into chunks and putting a chunk
//! set back in order. Reading and writing files is left to the caller.

pub mod error;
pub mod join;
pub mod naming;
pub mod plan;
pub mod split;

pub use error::Error;
pub use naming::get_file_name;
