//! A checkpointable search over the ordered space of instruction encodings.
//!
//! Instructions are short byte sequences in lexicographic order. Filters
//! describe the sequences that are already accounted for, a counter walks a
//! range of the space and stops only at sequences that no filter matches, and
//! the work layer splits the space among workers and keeps their progress.

pub mod instruction;
pub mod filter;
pub mod counter;
pub mod filter_map;
pub mod error;
pub mod encoding;
pub mod worker;
pub mod partition;
pub mod sorting;
pub mod state;
pub mod work;
pub mod seeds;
pub mod status;
pub mod dump;
