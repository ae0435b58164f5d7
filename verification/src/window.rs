//! What the desktop app keeps and shows: the one scan of its window and the pages of its
//! tree, the cleanup modules and what they found, and the two kinds of batches.

pub mod actions;
pub mod cleanup;
pub mod commands;
pub mod laws;
pub mod module_manager;
pub mod scan_manager;
pub mod views;
