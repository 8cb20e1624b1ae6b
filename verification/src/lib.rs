//! Flattening of device tree sources and the mapping from the flattened
//! buffer back to the files, lines and columns that its bytes came from.

pub mod bounds;
pub mod flatten;
pub mod linemarker;
pub mod offsets;
pub mod order;
pub mod scan;
pub mod tree;
