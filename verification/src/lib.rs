//! Storage Monitor: what takes the space on a disk, what grew, and what may go.
//!
//! The arena tree a scan builds and the decisions of the walk ([`scan`]), snapshots of it and
//! the growth between them ([`snapshot`]), volume usage ([`disk`]) and the application's data
//! locations ([`paths`]). [`action`] holds what a deletion is and the rules that decide what
//! may be touched at all, [`module`] the contract a cleanup module implements, and
//! [`cleanup`] the engine that runs what the modules plan. [`window`] is what the desktop app
//! keeps and shows, [`cli`] what the command line says. Reading the disk, deleting, running
//! programs and the clock are not here: what they say comes in as plain values.

pub mod action;
pub mod cleanup;
pub mod cli;
pub mod disk;
pub mod index;
pub mod module;
pub mod order;
pub mod path;
pub mod paths;
pub mod scan;
pub mod snapshot;
pub mod text;
pub mod window;

use vstd::prelude::*;

verus! {

/// Human-readable product name.
pub const APP_NAME: &'static str = "Storage Monitor";

/// The version of this crate.
pub const APP_VERSION: &'static str = "0.1.0";

/// Application metadata shared by the desktop app and the command line.
#[derive(Debug, Clone, PartialEq, Eq)]
pub struct AppInfo {
    pub name: String,
    pub version: String,
}

/// The product name and the version of this crate.
pub fn app_info() -> (info: AppInfo)
    ensures
        info.name@ == APP_NAME@,
        info.version@ == APP_VERSION@,
{
    AppInfo { name: APP_NAME.to_owned(), version: APP_VERSION.to_owned() }
}

} // verus!
