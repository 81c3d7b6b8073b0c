//! Linear, binary and jump search over a sequence of `i32`, each recording a
//! trace of the positions it probes so that a caller can animate the search.

pub mod binary;
pub mod jump;
pub mod laws;
pub mod linear;
pub mod model;

pub use binary::binary_search;
pub use jump::{integer_sqrt, jump_search};
pub use linear::linear_search;
pub use model::{Guess, SortingData};
