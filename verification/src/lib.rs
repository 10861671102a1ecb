//! The multiset difference of two line-oriented text sources: for every
//! distinct line, by how much its number of occurrences in one source
//! exceeds that in the other.
//!
//! The lines of each source are counted into a [`FrequencyTable`]; the two
//! tables are then differenced in place by [`compare_map_results`], and what
//! is left of them is rendered by [`print_diff`]. The order of the lines
//! within a source plays no part in the counts.

pub mod comparison;
pub mod counter;
pub mod differ;
pub mod invocation;
pub mod report;
pub mod table;

pub use crate::comparison::Comparison;
pub use crate::comparison::Kind;
pub use crate::counter::count_lines;
pub use crate::differ::compare_map_results;
pub use crate::invocation::parse_arguments;
pub use crate::invocation::Failure;
pub use crate::invocation::Invocation;
pub use crate::report::print_diff;
pub use crate::report::print_entry;
pub use crate::table::FrequencyTable;
