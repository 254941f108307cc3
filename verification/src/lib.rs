//! Per-directory counting of the entries of a directory tree: how many
//! subdirectories and files each parent directory holds, and how many bytes
//! its files take, with the ordering and the table that report them.

pub mod aggregate;
pub mod entry;
pub mod render;
pub mod report;
pub mod sort;
pub mod stats;
pub mod table;
pub mod tally;
pub mod totals;

pub use aggregate::count_files_and_dirs;
pub use entry::Entry;
pub use render::build_table;
pub use sort::{sort_entries, SortOrder};
pub use stats::DirectoryStats;
pub use table::DirectoryStatsTable;
