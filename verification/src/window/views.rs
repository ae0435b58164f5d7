//! What the window shows: the status of a scan and one page of the tree, the modules and the
//! cleanup batches.

use crate::action::model::Timestamp;
use crate::cleanup::model::{CleanupOutcome, CleanupPreview};
use crate::index::last_at;
use crate::path::{file_name, file_name_of, join, joined};
use crate::scan::tree::{chain_to, path_of, Cell, Node, NodeId, NodeKind, Tree};
use crate::snapshot::model::SizeIndex;
use crate::text::opt_text;
use vstd::prelude::*;

verus! {

#[derive(Debug, Clone, Copy, PartialEq, Eq, Structural)]
pub enum ScanState {
    Idle,
    Running,
    Done,
    Cancelled,
    Failed,
}

impl Default for ScanState {
    fn default() -> (state: ScanState)
        ensures
            state == ScanState::Idle,
    {
        ScanState::Idle
    }
}

#[derive(Debug, Clone)]
pub struct ScanStatus {
    pub state: ScanState,
    pub root: Option<String>,
    pub files: u64,
    pub dirs: u64,
    pub bytes: u64,
    pub errors: u64,
    /// Directory being read; empty unless the scan is running.
    pub current_path: String,
    pub duration_ms: u64,
    pub error: Option<String>,
    /// A previous snapshot exists, so deltas are available.
    pub has_previous: bool,
    pub previous_taken_at: Option<Timestamp>,
}

#[derive(Debug, Clone, PartialEq, Eq)]
pub struct Crumb {
    pub id: NodeId,
    pub name: String,
}

#[derive(Debug, Clone)]
pub struct ChildView {
    pub id: NodeId,
    pub name: String,
    pub kind: NodeKind,
    pub size: u64,
    pub logical_size: u64,
    pub file_count: u64,
    pub mtime: i64,
    pub error: Option<String>,
    /// Growth since the previous snapshot; absent when the snapshot has no entry.
    pub delta: Option<i64>,
    pub has_children: bool,
}

#[derive(Debug, Clone)]
pub struct NodeView {
    pub id: NodeId,
    pub name: String,
    pub path: String,
    pub kind: NodeKind,
    pub size: u64,
    pub logical_size: u64,
    pub file_count: u64,
    pub mtime: i64,
    pub error: Option<String>,
    pub delta: Option<i64>,
    /// From the root down to this node, inclusive.
    pub breadcrumbs: Vec<Crumb>,
    /// Largest first, at most `limit` of them.
    pub children: Vec<ChildView>,
    pub children_total: u32,
    /// True when `children` is shorter than `children_total`.
    pub truncated: bool,
}

/// Where a module stands.
#[derive(Debug, Clone, Copy, PartialEq, Eq, Structural)]
pub enum ModuleStatus {
    Idle,
    Discovering,
    Ready,
    Unavailable,
    Failed,
}

/// A module as the screen shows it.
#[derive(Debug, Clone, PartialEq, Eq)]
pub struct ModuleView {
    pub id: String,
    pub name: String,
    pub description: String,
    pub status: ModuleStatus,
    /// Why it is unavailable or failed.
    pub reason: Option<String>,
    pub item_count: usize,
    pub total_bytes: u64,
    /// Bytes of the items that are safe to go.
    pub safe_bytes: u64,
    pub discovered_at: Option<Timestamp>,
}

/// What a cleanup batch would do in each mode.
#[derive(Debug, Clone)]
pub struct CleanupPreviews {
    pub trash: CleanupPreview,
    pub permanent: CleanupPreview,
}

/// What a cleanup batch did, and what the window has to tell the user about.
#[derive(Debug, Clone)]
pub struct CleanupResult {
    pub outcome: CleanupOutcome,
    /// Whether the batch is in the record.
    pub recorded: bool,
    /// Whether the tree still has a row the batch deleted.
    pub tree_stale: bool,
}

/// What a node is called: the root holds its whole path, and only the last component of it
/// is shown where there is one.
pub open spec fn display_name_of(cells: Seq<Cell>, id: NodeId) -> Seq<char> {
    if id >= cells.len() {
        Seq::empty()
    } else if id != 0 {
        cells[id as int].name
    } else {
        match file_name_of(cells[0].name) {
            Some(last) => last,
            None => cells[0].name,
        }
    }
}

/// Sizes of the previous snapshot in specifications: the paths, and the size at each.
pub struct SizesSpec {
    pub paths: Seq<Seq<char>>,
    pub sizes: Seq<u64>,
}

/// What is known of the previous snapshot.
pub open spec fn sizes_of(previous: Option<&SizeIndex>) -> Option<SizesSpec> {
    match previous {
        Some(index) => Some(SizesSpec { paths: index.paths(), sizes: index.sizes() }),
        None => None,
    }
}

/// Growth since the previous snapshot, where that has an entry.
pub open spec fn growth(previous: Option<SizesSpec>, path: Seq<char>, size: u64) -> Option<i64> {
    match previous {
        None => None,
        Some(known) => match last_at(known.paths, path) {
            Some(i) => Some((size - known.sizes[i]) as i64),
            None => None,
        },
    }
}

/// Whether the sizes of a tree and of the previous snapshot can be taken the difference of.
pub open spec fn growth_fits(cells: Seq<Cell>, previous: Option<SizesSpec>) -> bool {
    previous matches Some(known) ==> {
        &&& forall|i: int| 0 <= i < cells.len() ==> (#[trigger] cells[i]).size <= i64::MAX
        &&& forall|i: int| 0 <= i < known.sizes.len() ==> #[trigger] known.sizes[i] <= i64::MAX
    }
}

/// Whether `view` is how child `k` of node `id` is shown.
pub open spec fn shows_child(
    view: ChildView,
    cells: Seq<Cell>,
    id: NodeId,
    k: int,
    previous: Option<SizesSpec>,
) -> bool {
    let at = cells[id as int].first + k;
    let cell = cells[at];
    &&& view.id == at
    &&& view.name@ == cell.name
    &&& view.kind == cell.kind
    &&& view.size == cell.size
    &&& view.logical_size == cell.logical_size
    &&& view.file_count == cell.file_count
    &&& view.mtime == cell.mtime
    &&& opt_text(view.error) == cell.error
    &&& view.delta == growth(previous, joined(path_of(cells, id as int), cell.name), cell.size)
    &&& view.has_children == (cell.count > 0)
}

/// Whether `crumbs` lead from the root to node `id`.
pub open spec fn leads_to(crumbs: Seq<Crumb>, cells: Seq<Cell>, id: NodeId) -> bool {
    &&& crumbs.len() == chain_to(cells, id).len()
    &&& forall|k: int|
        0 <= k < crumbs.len() ==> (#[trigger] crumbs[k]).id == chain_to(cells, id)[k]
            && crumbs[k].name@ == display_name_of(cells, chain_to(cells, id)[k])
}

/// Whether `view` is the page of node `id` with at most `limit` children.
pub open spec fn shows_node(
    view: NodeView,
    cells: Seq<Cell>,
    id: NodeId,
    limit: int,
    previous: Option<SizesSpec>,
) -> bool {
    let cell = cells[id as int];
    &&& view.id == id
    &&& view.name@ == display_name_of(cells, id)
    &&& view.path@ == path_of(cells, id as int)
    &&& view.kind == cell.kind
    &&& view.size == cell.size
    &&& view.logical_size == cell.logical_size
    &&& view.file_count == cell.file_count
    &&& view.mtime == cell.mtime
    &&& opt_text(view.error) == cell.error
    &&& view.delta == growth(previous, path_of(cells, id as int), cell.size)
    &&& leads_to(view.breadcrumbs@, cells, id)
    &&& view.children@.len() == if cell.count <= limit {
        cell.count as int
    } else {
        limit
    }
    &&& forall|k: int|
        0 <= k < view.children@.len() ==> shows_child(
            #[trigger] view.children@[k],
            cells,
            id,
            k,
            previous,
        )
    &&& view.children_total == cell.count
    &&& view.truncated == (cell.count > limit)
}

fn delta_of(previous: Option<&SizeIndex>, path: &str, size: u64) -> (delta: Option<i64>)
    requires
        previous is Some ==> size <= i64::MAX,
        sizes_of(previous) matches Some(known) ==> forall|i: int|
            0 <= i < known.sizes.len() ==> #[trigger] known.sizes[i] <= i64::MAX,
    ensures
        delta == growth(sizes_of(previous), path@, size),
{
    match previous {
        None => None,
        Some(index) => {
            proof {
                crate::index::last_at_found(index.paths(), path@);
            }
            match index.get(path) {
                Some(before) => {
                    assert(index.sizes()[last_at(index.paths(), path@)->0] <= i64::MAX);
                    Some(size as i64 - before as i64)
                },
                None => None,
            }
        },
    }
}

/// The root node holds its absolute path; only its last component is shown (the whole path
/// when there is none, as for `/`).
fn display_name(tree: &Tree, id: NodeId) -> (name: String)
    ensures
        name@ == display_name_of(tree.cells(), id),
{
    match tree.get(id) {
        None => {
            let none: String = String::new();
            assert(none@ =~= Seq::empty());
            none
        },
        Some(node) => {
            if id != Tree::ROOT {
                return (*node.name).to_owned();
            }
            match file_name(&node.name) {
                Some(last) => last,
                None => (*node.name).to_owned(),
            }
        },
    }
}

fn copy_error(tree: &Tree, id: NodeId) -> (error: Option<String>)
    requires
        id < tree.cells().len(),
    ensures
        opt_text(error) == tree.cells()[id as int].error,
{
    match tree.error(id) {
        Some(message) => Some(message.to_owned()),
        None => None,
    }
}

impl NodeView {
    /// One page of the tree: the node at `id`, its breadcrumbs and its `limit` largest
    /// children. `previous` maps absolute paths to sizes in the previous snapshot; only paths
    /// present there get a delta. `None` for an unknown id.
    pub fn build(tree: &Tree, id: NodeId, limit: usize, previous: Option<&SizeIndex>) -> (view:
        Option<NodeView>)
        requires
            growth_fits(tree.cells(), sizes_of(previous)),
        ensures
            match view {
                None => id >= tree.cells().len(),
                Some(view) => id < tree.cells().len() && shows_node(
                    view,
                    tree.cells(),
                    id,
                    limit as int,
                    sizes_of(previous),
                ),
            },
    {
        proof {
            use_type_invariant(tree);
        }
        let ghost cells = tree.cells();
        let node: &Node = match tree.get(id) {
            Some(node) => node,
            None => {
                return None;
            },
        };
        let path: String = tree.path(id);
        let chain: Vec<NodeId> = tree.ancestors(id);
        let mut breadcrumbs: Vec<Crumb> = Vec::new();
        let mut i: usize = 0;
        while i < chain.len()
            invariant
                i <= chain.len(),
                cells == tree.cells(),
                chain@ == chain_to(cells, id),
                breadcrumbs@.len() == i,
                forall|k: int|
                    0 <= k < i ==> (#[trigger] breadcrumbs@[k]).id == chain@[k]
                        && breadcrumbs@[k].name@ == display_name_of(cells, chain@[k]),
            decreases chain.len() - i,
        {
            breadcrumbs.push(Crumb { id: chain[i], name: display_name(tree, chain[i]) });
            i += 1;
        }
        let first: NodeId = tree.children(id).start;
        let children_total: u32 = tree.child_count(id);
        let shown: u32 = if children_total as usize <= limit {
            children_total
        } else {
            limit as u32
        };
        let mut children: Vec<ChildView> = Vec::new();
        let mut k: u32 = 0;
        while k < shown
            invariant
                k <= shown <= children_total,
                cells == tree.cells(),
                id < cells.len(),
                cells.len() <= u32::MAX,
                first == cells[id as int].first,
                children_total == cells[id as int].count,
                children_total > 0 ==> first + children_total <= cells.len(),
                path@ == path_of(cells, id as int),
                growth_fits(cells, sizes_of(previous)),
                children@.len() == k,
                forall|x: int|
                    0 <= x < k ==> shows_child(
                        #[trigger] children@[x],
                        cells,
                        id,
                        x,
                        sizes_of(previous),
                    ),
            decreases shown - k,
        {
            let child_id: NodeId = first + k;
            assert(cells[child_id as int].size == cells[first + k].size);
            if let Some(child) = tree.get(child_id) {
                let below: String = join(&path, &child.name);
                children.push(
                    ChildView {
                        id: child_id,
                        name: (*child.name).to_owned(),
                        kind: child.kind,
                        size: child.size,
                        logical_size: child.logical_size,
                        file_count: child.file_count as u64,
                        mtime: child.mtime,
                        error: copy_error(tree, child_id),
                        delta: delta_of(previous, &below, child.size),
                        has_children: tree.has_children(child_id),
                    },
                );
            }
            k += 1;
        }
        assert(cells[id as int].size == node.size);
        Some(
            NodeView {
                id,
                name: display_name(tree, id),
                kind: node.kind,
                size: node.size,
                logical_size: node.logical_size,
                file_count: node.file_count as u64,
                mtime: node.mtime,
                error: copy_error(tree, id),
                delta: delta_of(previous, &path, node.size),
                path,
                breadcrumbs,
                children,
                children_total,
                truncated: children_total as usize > limit,
            },
        )
    }
}

/// Whether two rows of a page are the same.
pub open spec fn same_child(a: ChildView, b: ChildView) -> bool {
    &&& a.id == b.id
    &&& a.name@ == b.name@
    &&& a.kind == b.kind
    &&& a.size == b.size
    &&& a.logical_size == b.logical_size
    &&& a.file_count == b.file_count
    &&& a.mtime == b.mtime
    &&& opt_text(a.error) == opt_text(b.error)
    &&& a.delta == b.delta
    &&& a.has_children == b.has_children
}

/// Two pages of one node differ in nothing but how many children they hold: the smaller holds
/// the first of those the larger holds, in the order of the tree; both say how many there are,
/// and each is truncated where it holds fewer.
pub proof fn a_smaller_page_is_the_start_of_a_larger(
    cells: Seq<Cell>,
    id: NodeId,
    a: int,
    b: int,
    previous: Option<SizesSpec>,
    small: NodeView,
    large: NodeView,
)
    requires
        0 <= a <= b,
        shows_node(small, cells, id, a, previous),
        shows_node(large, cells, id, b, previous),
    ensures
        small.children@.len() <= large.children@.len(),
        small.children@.len() == if a <= small.children_total {
            a
        } else {
            small.children_total as int
        },
        forall|k: int|
            0 <= k < small.children@.len() ==> same_child(
                #[trigger] small.children@[k],
                large.children@[k],
            ) && small.children@[k].id == cells[id as int].first + k,
        small.children_total == large.children_total == cells[id as int].count,
        small.truncated == (small.children@.len() < small.children_total),
        large.truncated == (large.children@.len() < large.children_total),
        small.breadcrumbs@.len() == large.breadcrumbs@.len() == chain_to(cells, id).len(),
        forall|k: int|
            0 <= k < small.breadcrumbs@.len() ==> (#[trigger] small.breadcrumbs@[k]).id
                == large.breadcrumbs@[k].id == chain_to(cells, id)[k] && small.breadcrumbs@[k].name@
                == large.breadcrumbs@[k].name@,
        small.id == large.id == id,
        small.name@ == large.name@,
        small.path@ == large.path@,
        small.kind == large.kind,
        small.size == large.size,
        small.logical_size == large.logical_size,
        small.file_count == large.file_count,
        small.mtime == large.mtime,
        opt_text(small.error) == opt_text(large.error),
        small.delta == large.delta,
{
    assert forall|k: int| 0 <= k < small.children@.len() implies same_child(
        #[trigger] small.children@[k],
        large.children@[k],
    ) && small.children@[k].id == cells[id as int].first + k by {
        assert(shows_child(small.children@[k], cells, id, k, previous));
        assert(shows_child(large.children@[k], cells, id, k, previous));
    }
    assert forall|k: int| 0 <= k < small.breadcrumbs@.len() implies (
    #[trigger] small.breadcrumbs@[k]).id == large.breadcrumbs@[k].id == chain_to(cells, id)[k]
        && small.breadcrumbs@[k].name@ == large.breadcrumbs@[k].name@ by {
        assert(large.breadcrumbs@[k].id == chain_to(cells, id)[k]);
    }
}

} // verus!
