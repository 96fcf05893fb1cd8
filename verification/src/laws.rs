//! Laws of the operations: what their results have to do with their inputs, byte by byte and
//! number by number.

pub mod choice;
pub mod codes;
pub mod filters;
pub mod formats;
pub mod references;
pub mod repeats;
pub mod trees;
