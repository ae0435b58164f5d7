//! What the screen asks the window for: thin lookups over the scan it holds. Errors are
//! sentences for the user.

use super::cleanup::need_home;
use super::scan_manager::ScanManager;
use super::views::{growth_fits, shows_node, sizes_of, NodeView, SizesSpec};
use crate::scan::tree::{NodeId, Tree};
use crate::snapshot::delta::{at_most_first, delta_views, Delta};
use crate::text::{decimal, decimal_text};
use vstd::prelude::*;

verus! {

pub const DEFAULT_CHILDREN_LIMIT: usize = 500;

pub const DEFAULT_GROWERS_LIMIT: usize = 10;

/// The folder that is scanned when none is picked: the home folder.
pub fn default_root(home: Option<&str>) -> (root: Result<String, String>)
    ensures
        match (home, root) {
            (Some(home), Ok(root)) => root@ == home@,
            (None, Err(message)) => message@ == "cannot determine the home folder"@,
            _ => false,
        },
{
    need_home(home)
}

/// The folder a scan is started on: the one that was picked, or the home folder.
pub fn scan_root(picked: Option<&str>, home: Option<&str>) -> (root: Result<String, String>)
    ensures
        match (picked, home, root) {
            (Some(picked), _, Ok(root)) => root@ == picked@,
            (None, Some(home), Ok(root)) => root@ == home@,
            (None, None, Err(message)) => message@ == "cannot determine the home folder"@,
            _ => false,
        },
{
    match picked {
        Some(picked) => Ok(picked.to_owned()),
        None => need_home(home),
    }
}

/// The path whose volume is shown: the one asked for, or the scan root, or the home folder.
pub fn usage_path(asked: Option<&str>, scanned: Option<&str>, home: Option<&str>) -> (path: Result<
    String,
    String,
>)
    ensures
        match (asked, scanned, home, path) {
            (Some(asked), _, _, Ok(path)) => path@ == asked@,
            (None, Some(scanned), _, Ok(path)) => path@ == scanned@,
            (None, None, Some(home), Ok(path)) => path@ == home@,
            (None, None, None, Err(message)) => message@ == "cannot determine the home folder"@,
            _ => false,
        },
{
    match asked {
        Some(asked) => Ok(asked.to_owned()),
        None => scan_root(scanned, home),
    }
}

/// What is said of a volume that cannot be read.
pub fn usage_error(path: &str, error: &str) -> (text: String)
    ensures
        text@ == "cannot read the volume of "@ + path@ + ": "@ + error@,
{
    let mut text: String = "cannot read the volume of ".to_owned();
    text.append(path);
    text.append(": ");
    text.append(error);
    text
}

/// What is known of the previous snapshot.
pub open spec fn sizes_held(manager: ScanManager) -> Option<SizesSpec> {
    match manager.previous_sizes {
        Some(index) => Some(SizesSpec { paths: index.paths(), sizes: index.sizes() }),
        None => None,
    }
}

/// One page of the last scan's tree: the node `id` (default: the root) with up to `limit`
/// children (default: 500).
pub fn tree_node(manager: &ScanManager, id: Option<NodeId>, limit: Option<usize>) -> (page: Result<
    NodeView,
    String,
>)
    requires
        manager.result matches Some(result) ==> growth_fits(
            result.tree.cells(),
            sizes_held(*manager),
        ),
    ensures
        ({
            let wanted: NodeId = match id {
                Some(id) => id,
                None => 0,
            };
            let most: usize = match limit {
                Some(limit) => limit,
                None => DEFAULT_CHILDREN_LIMIT,
            };
            match (manager.result, page) {
                (None, Err(message)) => message@ == "no scan result"@,
                (Some(result), Err(message)) => wanted >= result.tree.cells().len() && message@
                    == "unknown node "@ + decimal_text(wanted as nat),
                (Some(result), Ok(view)) => wanted < result.tree.cells().len() && shows_node(
                    view,
                    result.tree.cells(),
                    wanted,
                    most as int,
                    sizes_held(*manager),
                ),
                _ => false,
            }
        }),
{
    let wanted: NodeId = match id {
        Some(id) => id,
        None => Tree::ROOT,
    };
    let most: usize = match limit {
        Some(limit) => limit,
        None => DEFAULT_CHILDREN_LIMIT,
    };
    match manager.with_result() {
        None => Err("no scan result".to_owned()),
        Some((result, previous)) => {
            assert(sizes_of(previous) == sizes_held(*manager));
            match NodeView::build(&result.tree, wanted, most, previous) {
                Some(view) => Ok(view),
                None => {
                    let mut message: String = "unknown node ".to_owned();
                    message.append(&decimal(wanted as u64));
                    Err(message)
                },
            }
        },
    }
}

/// The folders that grew the most since the previous snapshot, at most `limit` (default: 10).
pub fn top_growers(manager: &ScanManager, limit: Option<usize>) -> (growers: Vec<Delta>)
    ensures
        delta_views(growers@) == at_most_first(
            delta_views(manager.growers@),
            match limit {
                Some(limit) => limit as int,
                None => DEFAULT_GROWERS_LIMIT as int,
            },
        ),
{
    match limit {
        Some(limit) => manager.growers(limit),
        None => manager.growers(DEFAULT_GROWERS_LIMIT),
    }
}

/// What is said of a batch that did not come back.
pub fn batch_error(error: &str) -> (text: String)
    ensures
        text@ == "the batch did not finish: "@ + error@,
{
    let mut text: String = "the batch did not finish: ".to_owned();
    text.append(error);
    text
}

} // verus!
