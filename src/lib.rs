//! Balanced input/output groupings of a transaction's amounts.
//!
//! Given amounts whose leading `input_len` entries are inputs and whose
//! remaining entries are outputs, the library finds every block of every set
//! partition of the indices that mixes both sides and balances exactly.

pub mod block;
pub mod candidates;
pub mod enumerator;
pub mod laws;
pub mod order;

pub use block::{block_qualifies, block_with_label};
pub use candidates::{get_input_output_partitions, CandidateError};
pub use enumerator::count_partitions;
