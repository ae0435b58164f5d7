//! Directory scanning: what a walk of the disk makes of what it reads, and the arena it ends
//! in.

pub mod laws;
pub mod progress;
pub mod tree;
pub mod walk;
pub mod walker;

pub use progress::{ProgressSnapshot, ScanProgress};
pub use tree::flatten::Subtree;
pub use tree::rebuild::replace_subtrees;
pub use tree::{Node, NodeId, NodeKind, Tree};
pub use walk::scan;
pub use walker::{rescan_path, ScanError, ScanOptions, ScanResult, ScanStats};
