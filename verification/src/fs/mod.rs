//! Read-side filesystem: path traversal, stat, and file contents over a
//! decoded image.

pub mod cache;
pub mod chunks;
pub mod content;
pub mod extract;
pub mod glob;
pub mod inode;
pub mod links;
pub mod offsets;
pub mod paths;
pub mod plan;
pub mod preorder;
pub mod read;
pub mod records;
pub mod residency;
pub mod tables;
pub mod tally;
pub mod tar;
pub mod tree;
pub mod walk;

pub use cache::BlockCache;
pub use extract::{ExtractOptions, ExtractStats};
pub use inode::{InodeKind, mode_kind};
pub use offsets::InodeOffsets;
pub use read::Filesystem;
pub use tables::SUPPORTED_FEATURES;
pub use tree::{Listing, Node, Stat, Tree};
pub use walk::WalkEntry;
