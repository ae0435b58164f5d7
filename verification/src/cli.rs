//! What the command line says: the report of a scan, sizes for people, and the modules.

pub mod laws;
pub mod modules_cmd;
pub mod report;
pub mod scan_cmd;
