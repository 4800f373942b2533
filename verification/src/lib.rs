//! Reading and writing the inputs of an elastic-wave finite-difference model:
//! grid files in the binary and the ASCII layout, the model parameter file, and
//! the node layout of the simulation grid. Real numbers are kept as the files
//! give them (bit patterns or decimal texts), so that every value here is plain.

pub mod grd;
pub mod grid;
pub mod param;
pub mod sw;
pub mod text;
pub mod util;
