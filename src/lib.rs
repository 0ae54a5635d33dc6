//! Per-project statistics over a directory of repository checkouts: each
//! checkout path names a project, consecutive checkouts of one project are
//! folded into a group, and the groups are ranked by total size in a table.
pub mod identity;
pub mod aggregate;
pub mod table;
pub mod render;
pub mod report;

pub use aggregate::{runs_fit, stats_from_file_desc_list, ChkInfo, FileDesc};
pub use identity::{name_from_pb, PathError};
pub use render::chkout_list_to_string;
pub use report::{file_desc_from_path, git_checkouts_stats};
pub use table::{format_table, to_decimal};
