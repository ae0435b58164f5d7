//! Where the app keeps its data.

use crate::path::{join, joined};
use vstd::prelude::*;

verus! {

/// The variable that says where the app keeps its data.
pub const DATA_DIR_ENV: &'static str = "STORAGE_MONITOR_DATA_DIR";

/// The data directory: what was asked for, or the app's folder in the user's data directory,
/// or in the temporary one where the user has none.
pub open spec fn data_dir_of(
    asked: Option<Seq<char>>,
    user: Option<Seq<char>>,
    temporary: Seq<char>,
) -> Seq<char> {
    match asked {
        Some(dir) => dir,
        None => joined(
            match user {
                Some(dir) => dir,
                None => temporary,
            },
            "storage-monitor"@,
        ),
    }
}

/// The text of an optional string.
pub open spec fn opt_str(text: Option<&str>) -> Option<Seq<char>> {
    match text {
        Some(text) => Some(text@),
        None => None,
    }
}

/// The data directory: what was asked for, or the app's folder in the user's data directory,
/// or in the temporary one where the user has none.
pub fn with_data_dir_override(override_dir: Option<&str>, user: Option<&str>, temporary: &str) -> (dir:
    String)
    ensures
        dir@ == data_dir_of(opt_str(override_dir), opt_str(user), temporary@),
{
    match override_dir {
        Some(dir) => dir.to_owned(),
        None => match user {
            Some(dir) => join(dir, "storage-monitor"),
            None => join(temporary, "storage-monitor"),
        },
    }
}

/// Where the snapshots are, in the data directory.
pub fn snapshots_dir_in(data_dir: &str) -> (dir: String)
    ensures
        dir@ == joined(data_dir@, "snapshots"@),
{
    join(data_dir, "snapshots")
}

/// Where the record of what was deleted is, in the data directory.
pub fn actions_log_in(data_dir: &str) -> (path: String)
    ensures
        path@ == joined(data_dir@, "actions.jsonl"@),
{
    join(data_dir, "actions.jsonl")
}

/// Where the snapshots are.
pub fn snapshots_dir(override_dir: Option<&str>, user: Option<&str>, temporary: &str) -> (dir:
    String)
    ensures
        dir@ == joined(
            data_dir_of(opt_str(override_dir), opt_str(user), temporary@),
            "snapshots"@,
        ),
{
    snapshots_dir_in(&with_data_dir_override(override_dir, user, temporary))
}

/// Where the record of what was deleted is.
pub fn actions_log(override_dir: Option<&str>, user: Option<&str>, temporary: &str) -> (path:
    String)
    ensures
        path@ == joined(
            data_dir_of(opt_str(override_dir), opt_str(user), temporary@),
            "actions.jsonl"@,
        ),
{
    actions_log_in(&with_data_dir_override(override_dir, user, temporary))
}

/// The data directory that was asked for is taken as it is. Otherwise the app has a folder of its
/// own: in the user's data directory, and in the temporary one only where the user has none.
pub proof fn the_data_directory(user: Option<Seq<char>>, temporary: Seq<char>, dir: Seq<char>)
    ensures
        data_dir_of(Some(dir), user, temporary) == dir,
        data_dir_of(None, Some(dir), temporary) == joined(dir, "storage-monitor"@),
        data_dir_of(None, None, dir) == joined(dir, "storage-monitor"@),
{
}

} // verus!
