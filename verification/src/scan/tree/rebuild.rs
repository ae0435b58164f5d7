//! The arena of a patched tree, rebuilt breadth first.

use super::flatten::{awaited_len_concat, table_after_push};
use super::growth::{attach, attached, awaited, awaited_is, awaited_len, awaited_len_first, fits};
use super::growth::{growing, grown, ids_rise, shapes_len_sorted, skip, under_construction};
use super::growth::{wait_row, waits, Waiting};
use super::splice::{applicable, applicable_patches, asked, cell_totals, patched, patched_children};
use super::splice::{patched_totals, patched_weight, re_aggregate_ancestors, replaced};
use super::splice::{spliced_totals, totals_from, touched, with_totals, Totals};
use super::{breadth_first, cell_le, cell_shape, cells_of, error_in, groups_in_order, in_group};
use super::{larger_then_name, larger_then_name_total, larger_then_name_transitive, linked};
use super::{order_key, shape, shape_len, shapes_len, table_in_order};
use super::{Cell, Links, Node, NodeId, Shape, Tree, NO_PARENT};
use crate::order::{arrangement, arrangement_by_rank, arranges, in_order, picked_in_order};
use crate::order::{sort, sorted, Ranked, Sortable};
use crate::text::boxed;
use std::collections::{HashMap, VecDeque};
use vstd::prelude::*;

verus! {

/// One node of the arena being rebuilt.
pub struct Item<'a> {
    /// Where the node, its error and its children come from: the tree being patched, or
    /// one of the replacements.
    pub tree: &'a Tree,
    pub id: NodeId,
    /// Whether `tree` is the tree being patched. Patches and recomputed totals are keyed by
    /// the ids of that tree alone; inside a replacement the same numbers name other nodes.
    pub patchable: bool,
    /// The name the node keeps: its own, except for a replacement's root.
    pub name: &'a str,
    /// What the node weighs once the patch is in.
    pub totals: Totals,
}

impl<'a> Ranked for Item<'a> {
    open spec fn le(self, other: Self) -> bool {
        larger_then_name(self.totals.size, self.name@, other.totals.size, other.name@)
    }

    proof fn le_total(a: Self, b: Self) {
        larger_then_name_total(a.totals.size, a.name@, b.totals.size, b.name@);
    }

    proof fn le_transitive(a: Self, b: Self, c: Self) {
        larger_then_name_transitive(
            a.totals.size,
            a.name@,
            b.totals.size,
            b.name@,
            c.totals.size,
            c.name@,
        );
    }
}

impl<'a> Sortable for Item<'a> {
    fn at_most(&self, other: &Self) -> bool {
        order_key(self.totals.size, self.name, other.totals.size, other.name)
    }
}

/// The patch that is being applied, in specifications.
pub struct Splice {
    pub tree: Tree,
    pub patches: Map<NodeId, Option<Tree>>,
}

impl Splice {
    /// An item names a node; where that is a node of the patched tree, it is not patched
    /// itself, and carries the name and the weight it will have.
    pub open spec fn holds(self, item: Item) -> bool {
        &&& item.tree.wf()
        &&& item.id < item.tree.cells().len()
        &&& item.patchable ==> {
            &&& *item.tree == self.tree
            &&& !self.patches.contains_key(item.id)
            &&& item.name@ == self.tree.cells()[item.id as int].name
            &&& item.totals == patched_weight(self.tree.cells(), self.patches, item.id as int)
        }
    }

    /// What the item is going to be.
    pub open spec fn becomes(self, item: Item) -> Shape {
        if item.patchable {
            patched(self.tree.cells(), self.patches, item.id as int)->0
        } else {
            with_totals(
                Shape { name: item.name@, ..shape(item.tree.cells(), item.id as int) },
                item.totals,
            )
        }
    }

    pub open spec fn all_hold(self, items: Seq<Item>) -> bool {
        forall|k: int| 0 <= k < items.len() ==> self.holds(#[trigger] items[k])
    }

    pub open spec fn all_become(self, items: Seq<Item>) -> Seq<Shape> {
        Seq::new(items.len(), |k: int| self.becomes(items[k]))
    }

    pub open spec fn queue(self, pending: Seq<(NodeId, Item)>) -> Seq<Waiting> {
        Seq::new(
            pending.len(),
            |k: int|
                Waiting { id: pending[k].0 as int, children: self.becomes(pending[k].1).children },
        )
    }
}

/// The cell of an item where it has just been placed.
spec fn placed(item: Item, parent: u32) -> Cell {
    let source = item.tree.cells()[item.id as int];
    Cell {
        name: item.name@,
        size: item.totals.size,
        logical_size: item.totals.logical_size,
        file_count: item.totals.file_count,
        parent,
        first: 0,
        count: 0,
        ..source
    }
}

proof fn becomes_cell(splice: Splice, item: Item, parent: u32)
    requires
        splice.holds(item),
    ensures
        splice.becomes(item) == cell_shape(placed(item, parent), splice.becomes(item).children),
        item.tree.cells()[item.id as int].count == 0 ==> splice.becomes(item).children
            == Seq::<Shape>::empty(),
{
    let cells = item.tree.cells();
    let id = item.id as int;
    if cells[id].count == 0 {
        assert(shape(cells, id).children =~= Seq::empty());
        if item.patchable && touched(cells, splice.patches.dom(), id) {
            let none = patched_children(cells, splice.patches, id, 0);
            shapes_len_sorted(none);
            assert(sorted(none) =~= Seq::empty());
        }
    }
}

/// The children of a node that no patch is below.
proof fn untouched_children(
    cells: Seq<Cell>,
    patches: Map<NodeId, Option<Tree>>,
    id: int,
    k: nat,
)
    requires
        linked(cells),
        0 <= id < cells.len(),
        !touched(cells, patches.dom(), id),
        k <= cells[id].count,
    ensures
        patched_children(cells, patches, id, k) == shape(cells, id).children.take(k as int),
    decreases k,
{
    let all = shape(cells, id).children;
    if k == 0 {
        assert(all.take(0) =~= Seq::empty());
    } else {
        untouched_children(cells, patches, id, (k - 1) as nat);
        let child = cells[id].first + k - 1;
        assert(in_group(cells, id, child));
        assert(!patches.dom().contains(child as NodeId));
        assert(!touched(cells, patches.dom(), child));
        assert(patched(cells, patches, child) == Some(shape(cells, child)));
        assert(all[k - 1] == shape(cells, child));
        assert(all.take(k as int) =~= all.take(k - 1).push(all[k - 1]));
    }
}

/// The children of a node are in order.
pub proof fn children_in_order(cells: Seq<Cell>, id: int)
    requires
        linked(cells),
        groups_in_order(cells),
        0 <= id < cells.len(),
    ensures
        in_order(shape(cells, id).children),
{
    let all = shape(cells, id).children;
    assert forall|i: int, j: int| 0 <= i < j < all.len() implies (#[trigger] all[i]).le(#[trigger] all[j]) by {
        let first = cells[id].first as int;
        assert(in_group(cells, id, first + i));
        assert(in_group(cells, id, first + j));
        assert(all[i] == shape(cells, first + i));
        assert(all[j] == shape(cells, first + j));
        assert(cell_le(cells[first + i], cells[first + j]));
    }
}

/// The children of an item, with the patches applied to them.
///
/// Both maps are keyed by the ids of the tree being patched, so both are consulted only for
/// an item that came from it. `patchable` travels down with the children for the same
/// reason: an item is of the tree being patched only when its parent was.
fn children_of<'a>(
    item: &Item<'a>,
    replacements: &'a HashMap<NodeId, Option<Tree>>,
    totals: &HashMap<NodeId, Totals>,
    Ghost(splice): Ghost<Splice>,
) -> (children: Vec<Item<'a>>)
    requires
        splice.holds(*item),
        splice.patches == replacements@,
        totals_from(splice.tree.cells(), replacements@, totals@, 0),
    ensures
        splice.all_hold(children@),
        splice.all_become(children@) == if item.patchable {
            patched_children(
                splice.tree.cells(),
                splice.patches,
                item.id as int,
                splice.tree.cells()[item.id as int].count as nat,
            )
        } else {
            shape(item.tree.cells(), item.id as int).children
        },
{
    broadcast use vstd::std_specs::hash::group_hash_axioms;

    let mut children: Vec<Item<'a>> = Vec::new();
    let range: std::ops::Range<NodeId> = item.tree.children(item.id);
    let mut id: NodeId = range.start;
    let ghost cells = item.tree.cells();
    let ghost below = shape(cells, item.id as int).children;
    assert(splice.all_become(children@) =~= Seq::empty());
    assert(below.take(0) =~= Seq::empty());
    assert(cells[item.id as int].count > 0 ==> item.id < range.start && range.end <= cells.len());
    while id < range.end
        invariant
            splice.holds(*item),
            splice.patches == replacements@,
            totals_from(splice.tree.cells(), replacements@, totals@, 0),
            cells == item.tree.cells(),
            below == shape(cells, item.id as int).children,
            range.start <= id <= range.end <= cells.len(),
            range.start < range.end ==> item.id < range.start,
            range.start == cells[item.id as int].first,
            range.end == range.start + cells[item.id as int].count,
            splice.all_hold(children@),
            splice.all_become(children@) == if item.patchable {
                patched_children(
                    cells,
                    splice.patches,
                    item.id as int,
                    (id - range.start) as nat,
                )
            } else {
                below.take(id - range.start)
            },
        decreases range.end - id,
    {
        let ghost before = children@;
        let ghost k = (id - range.start) as int;
        assert(below[k] == shape(cells, id as int));
        assert(below.take(k + 1) =~= below.take(k).push(below[k]));
        let name: &'a str = &item.tree.nodes[id as usize].name;
        assert(cells[id as int].name == name@);
        let own: Totals = Totals::of(&item.tree.nodes[id as usize]);
        assert(own == cell_totals(cells[id as int]));
        let ghost last = patched(cells, splice.patches, id as int);
        let ghost so_far = patched_children(cells, splice.patches, item.id as int, k as nat);
        assert(patched_children(cells, splice.patches, item.id as int, (k + 1) as nat) == match last {
            Some(child) => so_far.push(child),
            None => so_far,
        });
        if item.patchable {
            match replacements.get(&id) {
                // Dropped: the branch is not walked, so its errors do not follow it either.
                Some(None) => {},
                Some(Some(replacement)) => {
                    if !replacement.is_empty() {
                        proof {
                            use_type_invariant(replacement);
                        }
                        let weight: Totals = spliced_totals(replacement);
                        let spliced = Item {
                            tree: replacement,
                            id: 0,
                            patchable: false,
                            name,
                            totals: weight,
                        };
                        children.push(spliced);
                        assert(splice.becomes(spliced) == replaced(
                            cells[id as int].name,
                            Some(*replacement),
                        )->0);
                        assert(splice.all_become(children@) =~= splice.all_become(before).push(
                            splice.becomes(spliced),
                        ));
                    }
                },
                None => {
                    let weight: Totals = match totals.get(&id) {
                        Some(weight) => *weight,
                        None => own,
                    };
                    assert(totals@.contains_key(id) == touched(cells, replacements@.dom(), id as int));
                    let child = Item { tree: item.tree, id, patchable: true, name, totals: weight };
                    children.push(child);
                    assert(splice.all_become(children@) =~= splice.all_become(before).push(
                        splice.becomes(child),
                    ));
                },
            }
        } else {
            let child = Item { tree: item.tree, id, patchable: false, name, totals: own };
            children.push(child);
            assert(splice.becomes(child) == shape(cells, id as int));
            assert(splice.all_become(children@) =~= splice.all_become(before).push(
                splice.becomes(child),
            ));
        }
        id += 1;
    }
    assert(below.take(below.len() as int) =~= below);
    children
}

/// The arena being rebuilt.
struct Rebuild<'a> {
    nodes: Vec<Node>,
    errors: Vec<(NodeId, Box<str>)>,
    /// Nodes already placed whose children still have to be appended, in id order.
    pending: VecDeque<(NodeId, Item<'a>)>,
}

/// What placing the first `k` of `group` from id `n` on adds to the queue.
spec fn rows_added<'a>(group: Seq<Item<'a>>, n: int, k: int) -> Seq<(NodeId, Item<'a>)>
    decreases k,
{
    if k <= 0 {
        Seq::empty()
    } else {
        let before = rows_added(group, n, k - 1);
        let item = group[k - 1];
        if item.tree.cells()[item.id as int].count > 0 {
            before.push(((n + k - 1) as NodeId, item))
        } else {
            before
        }
    }
}

impl<'a> Rebuild<'a> {
    spec fn cells(self) -> Seq<Cell> {
        cells_of(self.nodes@, self.errors@)
    }

    /// The error table is in order.
    spec fn tables(self) -> bool {
        &&& table_in_order(self.errors@)
        &&& forall|row: int|
            0 <= row < self.errors@.len() ==> (#[trigger] self.errors@[row]).0 < self.nodes@.len()
    }

    /// Appends one node and queues its children.
    fn place(&mut self, item: Item<'a>, parent: u32)
        requires
            old(self).tables(),
            old(self).nodes@.len() < u32::MAX,
            item.id < item.tree.cells().len(),
        ensures
            final(self).tables(),
            final(self).cells() == old(self).cells().push(placed(item, parent)),
            final(self).pending@ == if item.tree.cells()[item.id as int].count > 0 {
                old(self).pending@.push((old(self).nodes@.len() as NodeId, item))
            } else {
                old(self).pending@
            },
    {
        let ghost before = *self;
        let id: NodeId = self.nodes.len() as NodeId;
        let source: &Node = &item.tree.nodes[item.id as usize];
        let node = Node {
            name: boxed(item.name),
            kind: source.kind,
            size: item.totals.size,
            logical_size: item.totals.logical_size,
            file_count: item.totals.file_count,
            mtime: source.mtime,
            links: Links::below(parent),
        };
        self.nodes.push(node);
        if let Some(message) = item.tree.error(item.id) {
            self.errors.push((id, boxed(message)));
        }
        if item.tree.child_count(item.id) > 0 {
            self.pending.push_back((id, item));
        }
        proof {
            let n = id as int;
            assert forall|i: int| 0 <= i <= n implies error_in(self.errors@, i) == (if i == n {
                error_in(item.tree.errors@, item.id as int)
            } else {
                error_in(before.errors@, i)
            }) by {
                table_after_push(before.errors@, self.errors@, n, i);
            }
            assert(self.cells() =~= before.cells().push(placed(item, parent)));
        }
    }
}

/// How many nodes the rows added for a group stand for.
proof fn added_len(splice: Splice, group: Seq<Item>, n: int, k: int)
    requires
        0 <= n,
        0 <= k <= group.len(),
        splice.all_hold(group),
    ensures
        k + awaited_len(splice.queue(rows_added(group, n, k))) == shapes_len(
            splice.all_become(group).take(k),
        ),
    decreases k,
{
    let shapes = splice.all_become(group);
    if k == 0 {
        assert(shapes.take(0) =~= Seq::empty());
        assert(splice.queue(rows_added(group, n, 0)) =~= Seq::empty());
    } else {
        added_len(splice, group, n, k - 1);
        assert(shapes.take(k).drop_last() =~= shapes.take(k - 1));
        let item = group[k - 1];
        assert(splice.holds(item));
        becomes_cell(splice, item, 0);
        assert(shapes.take(k).last() == splice.becomes(item));
        assert(shape_len(splice.becomes(item)) == 1 + shapes_len(splice.becomes(item).children));
        let before = splice.queue(rows_added(group, n, k - 1));
        let after = splice.queue(rows_added(group, n, k));
        if item.tree.cells()[item.id as int].count > 0 {
            assert(after.drop_last() =~= before);
            assert(after.last().children == splice.becomes(item).children);
        } else {
            assert(after =~= before);
        }
    }
}

/// The rows added for a group: one for each member that had children.
proof fn added_rows(splice: Splice, group: Seq<Item>, n: int, k: int)
    requires
        0 <= n,
        0 <= k <= group.len(),
        n + group.len() <= u32::MAX,
    ensures
        ids_rise(splice.queue(rows_added(group, n, k))),
        forall|a: int|
            0 <= a < rows_added(group, n, k).len() ==> n <= (#[trigger] splice.queue(
                rows_added(group, n, k),
            )[a]).id < n + k,
        forall|i: int|
            0 <= i < k ==> waits(splice.queue(rows_added(group, n, k)), n + i) == ((
            #[trigger] group[i]).tree.cells()[group[i].id as int].count > 0),
        forall|i: int|
            0 <= i < k && (#[trigger] group[i]).tree.cells()[group[i].id as int].count > 0 ==> awaited(
                splice.queue(rows_added(group, n, k)),
                n + i,
            ) == splice.becomes(group[i]).children,
    decreases k,
{
    if k > 0 {
        added_rows(splice, group, n, k - 1);
        let item = group[k - 1];
        let before = splice.queue(rows_added(group, n, k - 1));
        let after = splice.queue(rows_added(group, n, k));
        if item.tree.cells()[item.id as int].count > 0 {
            assert(after =~= before.push(
                Waiting { id: n + k - 1, children: splice.becomes(item).children },
            ));
            assert(ids_rise(after));
            assert forall|i: int| 0 <= i < k implies waits(after, n + i) == ((#[trigger] group[i]).tree.cells()[group[i].id as int].count
                > 0) && (group[i].tree.cells()[group[i].id as int].count > 0 ==> awaited(
                after,
                n + i,
            ) == splice.becomes(group[i]).children) by {
                let id = n + i;
                if i == k - 1 {
                    awaited_is(after, after.len() - 1);
                } else {
                    if waits(before, id) {
                        let row = choose|row: int| wait_row(before, row, id);
                        awaited_is(before, row);
                        assert(after[row] == before[row]);
                        awaited_is(after, row);
                    } else if waits(after, id) {
                        let row = choose|row: int| wait_row(after, row, id);
                        assert(row < before.len());
                        assert(wait_row(before, row, id));
                    }
                }
            }
        } else {
            assert(after =~= before);
            let id = n + k - 1;
            assert(!waits(after, id)) by {
                if waits(after, id) {
                    let row = choose|row: int| wait_row(after, row, id);
                    assert(before[row].id < id);
                }
            }
        }
    }
}

/// A group of items in order is what its parent waits for.
proof fn group_fits(
    splice: Splice,
    cells: Seq<Cell>,
    queue: Seq<Waiting>,
    members: Seq<Item>,
    parent: NodeId,
)
    requires
        under_construction(cells, queue),
        queue.len() > 0,
        queue[0].id == parent,
        queue[0].children == splice.all_become(members),
        queue[0].children.len() > 0,
        splice.all_hold(members),
        in_order(splice.all_become(members)),
        cells.len() + members.len() <= u32::MAX,
    ensures
        fits(
            cells,
            queue,
            Seq::new(members.len(), |i: int| placed(members[i], parent)),
            splice.queue(rows_added(members, cells.len() as int, members.len() as int)),
        ),
{
    let n = cells.len() as int;
    let group = Seq::new(members.len(), |i: int| placed(members[i], parent));
    let added = splice.queue(rows_added(members, n, members.len() as int));
    let shapes = splice.all_become(members);
    added_rows(splice, members, n, members.len() as int);
    assert forall|j: int, k: int| 0 <= j < k < group.len() implies cell_le(
        #[trigger] group[j],
        #[trigger] group[k],
    ) by {
        assert(splice.holds(members[j]) && splice.holds(members[k]));
        becomes_cell(splice, members[j], parent);
        becomes_cell(splice, members[k], parent);
        assert(shapes[j].le(shapes[k]));
    }
    assert forall|k: int| 0 <= k < group.len() implies (#[trigger] group[k]).parent == queue[0].id && group[k].first
        == 0 && group[k].count == 0 && queue[0].children[k] == cell_shape(
        group[k],
        if waits(added, n + k) {
            awaited(added, n + k)
        } else {
            Seq::empty()
        },
    ) by {
        assert(splice.holds(members[k]));
        becomes_cell(splice, members[k], parent);
        assert(queue[0].children[k] == splice.becomes(members[k]));
    }
}

/// Items rank as what they become.
proof fn items_rank(splice: Splice, items: Seq<Item>)
    requires
        splice.all_hold(items),
        items.len() <= usize::MAX,
        arranges(items, arrangement(items), 0, items.len() as int),
    ensures
        splice.all_become(sorted(items)) == sorted(splice.all_become(items)),
        splice.all_hold(sorted(items)),
        in_order(sorted(splice.all_become(items))),
{
    let shapes = splice.all_become(items);
    let order = arrangement(items);
    assert forall|i: int, j: int| 0 <= i < items.len() && 0 <= j < items.len() implies (#[trigger] items[i]).le(
    #[trigger] items[j]) == shapes[i].le(shapes[j]) by {
        assert(splice.holds(items[i]) && splice.holds(items[j]));
        becomes_cell(splice, items[i], 0);
        becomes_cell(splice, items[j], 0);
    }
    arrangement_by_rank(items, shapes, order);
    picked_in_order(shapes, order);
    assert(splice.all_become(sorted(items)) =~= sorted(shapes));
    assert forall|k: int| 0 <= k < items.len() implies splice.holds(#[trigger] sorted(items)[k]) by {
        assert(splice.holds(items[order[k] as int]));
    }
}

/// The children of an item in the order they are listed.
fn listed_children<'a>(
    item: &Item<'a>,
    replacements: &'a HashMap<NodeId, Option<Tree>>,
    totals: &HashMap<NodeId, Totals>,
    Ghost(splice): Ghost<Splice>,
) -> (children: Vec<Item<'a>>)
    requires
        splice.holds(*item),
        splice.patches == replacements@,
        totals_from(splice.tree.cells(), replacements@, totals@, 0),
    ensures
        splice.all_hold(children@),
        splice.all_become(children@) == splice.becomes(*item).children,
        in_order(splice.all_become(children@)),
{
    broadcast use vstd::std_specs::hash::group_hash_axioms;

    let children: Vec<Item<'a>> = children_of(item, replacements, totals, Ghost(splice));
    // Only a group holding a node whose size changed can be out of order, and those are the
    // groups whose parent is an ancestor of a patch. Every other group keeps its order.
    if item.patchable && totals.contains_key(&item.id) {
        let ghost before = children@;
        let children: Vec<Item<'a>> = sort(children);
        proof {
            items_rank(splice, before);
        }
        children
    } else {
        proof {
            let cells = item.tree.cells();
            let id = item.id as int;
            children_in_order(cells, id);
            if item.patchable {
                assert(!totals@.contains_key(item.id));
                assert(!touched(cells, splice.patches.dom(), id));
                untouched_children(cells, splice.patches, id, cells[id].count as nat);
                assert(shape(cells, id).children.take(cells[id].count as int) =~= shape(
                    cells,
                    id,
                ).children);
            }
        }
        children
    }
}

/// Whether `result` is `tree` with the patches applied, flattened breadth first.
pub open spec fn replaces(tree: Tree, patches: Seq<(NodeId, Option<Tree>)>, result: Tree) -> bool {
    &&& result.wf()
    &&& tree.cells().len() == 0 ==> result.cells().len() == 0
    &&& tree.cells().len() > 0 ==> {
        &&& result.cells().len() > 0
        &&& breadth_first(result.cells())
        &&& Some(result.shape()) == patched(tree.cells(), applicable(tree.cells(), patches), 0)
        &&& result.cells().len() == shape_len(result.shape())
    }
}

/// A new arena with the listed nodes replaced by the given trees, or dropped when the
/// replacement is `None`. Ancestors are re-aggregated and the sibling groups that changed
/// are sorted again; everything else keeps its order. The root cannot be patched.
///
/// A replacement keeps the name of the node it takes the place of. Everything else is the
/// replacement's, its kind included, and its root is measured again from its own children.
///
/// Three kinds of patch are ignored: the root, an id this tree does not know, and a patch
/// below another patch. A repeated id keeps the last patch given for it; otherwise the order
/// of the patches does not matter.
///
/// Only `size`, `logical_size` and `file_count` are recomputed, and only for the ancestors.
///
/// The cost is per call, not per path: collect a whole batch and splice it in one call.
pub fn replace_subtrees(tree: &Tree, patches: Vec<(NodeId, Option<Tree>)>) -> (result: Tree)
    requires
        tree.cells().len() > 0 ==> shape_len(
            patched(tree.cells(), applicable(tree.cells(), patches@), 0)->0,
        ) <= u32::MAX,
    ensures
        replaces(*tree, patches@, result),
{
    broadcast use vstd::std_specs::hash::group_hash_axioms;

    if tree.is_empty() {
        return tree.clone();
    }
    proof {
        use_type_invariant(tree);
    }
    let replacements: HashMap<NodeId, Option<Tree>> = applicable_patches(tree, patches);
    let totals: HashMap<NodeId, Totals> = re_aggregate_ancestors(tree, &replacements);
    let ghost splice = Splice { tree: *tree, patches: replacements@ };
    proof {
        root_not_patched(tree.cells(), patches@);
    }
    let weight: Totals = patched_totals(tree, Tree::ROOT, &replacements, &totals);
    let root = Item {
        tree,
        id: Tree::ROOT,
        patchable: true,
        name: &tree.nodes[0].name,
        totals: weight,
    };
    let ghost goal = splice.becomes(root);
    assert(tree.cells()[0].name == root.name@);
    assert(splice.holds(root));
    let mut rebuild = Rebuild { nodes: Vec::new(), errors: Vec::new(), pending: VecDeque::new() };
    assert(rebuild.cells() =~= Seq::empty());
    let ghost start = root;
    rebuild.place(root, super::NO_PARENT);
    proof {
        first_placed(splice, rebuild, start);
    }
    loop
        invariant
            splice.patches == replacements@,
            totals_from(splice.tree.cells(), replacements@, totals@, 0),
            rebuild.tables(),
            under_construction(rebuild.cells(), splice.queue(rebuild.pending@)),
            forall|k: int| 0 <= k < rebuild.pending@.len() ==> splice.holds((#[trigger] rebuild.pending@[k]).1),
            rebuild.nodes@.len() > 0,
            growing(rebuild.cells(), splice.queue(rebuild.pending@), 0) == goal,
            rebuild.nodes@.len() + awaited_len(splice.queue(rebuild.pending@)) == shape_len(goal),
            shape_len(goal) <= u32::MAX,
        ensures
            rebuild.pending@.len() == 0,
        decreases shape_len(goal) - rebuild.nodes@.len(), rebuild.pending@.len(),
    {
        let ghost cells = rebuild.cells();
        let ghost queue = splice.queue(rebuild.pending@);
        let ghost waiting = rebuild.pending@;
        let (parent, item): (NodeId, Item) = match rebuild.pending.pop_front() {
            Some(next) => next,
            None => {
                break;
            },
        };
        let ghost rest = rebuild.pending@;
        proof {
            assert(waiting[0] == (parent, item));
            assert(splice.holds(waiting[0].1));
            assert(queue[0].id == parent);
            assert(queue.drop_first() =~= splice.queue(rest));
            awaited_len_first(queue);
            assert forall|k: int| 0 <= k < rest.len() implies splice.holds((#[trigger] rest[k]).1) by {
                assert(rest[k] == waiting[k + 1]);
            }
        }
        let children: Vec<Item> = listed_children(&item, &replacements, &totals, Ghost(splice));
        let n: usize = rebuild.nodes.len();
        let ghost members = children@;
        let ghost placing = Seq::new(members.len(), |i: int| placed(members[i], parent));
        proof {
            assert(queue[0].children == splice.all_become(members));
            added_len(splice, members, n as int, members.len() as int);
            assert(splice.all_become(members).take(members.len() as int) =~= splice.all_become(
                members,
            ));
        }
        // A node reaches the queue because it had children before the patch, so a group that
        // comes back empty is one the patch emptied, and its node points nowhere.
        if children.len() == 0 {
            proof {
                skip(cells, queue);
                assert(shapes_len(queue[0].children) == 0);
                assert(growing(cells, queue, 0) == goal);
            }
            continue;
        }
        rebuild.nodes[parent as usize].links.first_child = n as NodeId;
        rebuild.nodes[parent as usize].links.child_count = children.len() as u32;
        let ghost base = cells.update(
            parent as int,
            Cell { first: n as u32, count: members.len() as u32, ..cells[parent as int] },
        );
        let ghost total = children.len();
        assert(rebuild.cells() =~= base + placing.take(0));
        assert(rebuild.pending@ =~= rest + rows_added(members, n as int, 0));
        for child in it: children
            invariant
                it.seq() == members,
                members.len() == total,
                splice.all_hold(members),
                placing == Seq::new(members.len(), |i: int| placed(members[i], parent)),
                base.len() == n,
                n + total <= u32::MAX,
                rebuild.tables(),
                rebuild.cells() == base + placing.take(it.index()),
                rebuild.pending@ == rest + rows_added(members, n as int, it.index()),
        {
            let ghost k = it.index();
            assert(rebuild.cells().len() == rebuild.nodes@.len());
            assert(splice.holds(members[k]));
            rebuild.place(child, parent);
            assert(base + placing.take(k + 1) =~= (base + placing.take(k)).push(placing[k]));
            assert(rebuild.pending@ =~= rest + rows_added(members, n as int, k + 1));
        }
        proof {
            let added = rows_added(members, n as int, members.len() as int);
            assert(rebuild.cells() =~= attached(cells, parent as int, placing));
            assert(splice.queue(rebuild.pending@) =~= queue.drop_first() + splice.queue(added));
            group_fits(splice, cells, queue, members, parent);
            attach(cells, queue, placing, splice.queue(added));
            awaited_len_concat(queue.drop_first(), splice.queue(added));
            rows_hold(splice, members, n as int, members.len() as int);
            assert(growing(cells, queue, 0) == goal);
            assert forall|k: int| 0 <= k < rebuild.pending@.len() implies splice.holds(
                (#[trigger] rebuild.pending@[k]).1,
            ) by {
                if k < rest.len() {
                    assert(rebuild.pending@[k] == rest[k]);
                } else {
                    assert(rebuild.pending@[k] == added[k - rest.len()]);
                }
            }
        }
    }
    let Rebuild { nodes, errors, pending } = rebuild;
    proof {
        let cells = cells_of(nodes@, errors@);
        assert(splice.queue(pending@) =~= Seq::empty());
        grown(cells, 0);
        assert(awaited_len(splice.queue(pending@)) == 0);
    }
    // Placed in id order, so the error table comes out sorted.
    Tree { nodes, errors }
}

proof fn rows_hold(splice: Splice, group: Seq<Item>, n: int, k: int)
    requires
        splice.all_hold(group),
        0 <= k <= group.len(),
    ensures
        forall|a: int|
            0 <= a < rows_added(group, n, k).len() ==> splice.holds((#[trigger] rows_added(group, n, k)[a]).1),
    decreases k,
{
    if k > 0 {
        rows_hold(splice, group, n, k - 1);
        assert(splice.holds(group[k - 1]));
        let before = rows_added(group, n, k - 1);
        let after = rows_added(group, n, k);
        assert forall|a: int| 0 <= a < after.len() implies splice.holds((#[trigger] after[a]).1) by {
            if a < before.len() {
                assert(after[a] == before[a]);
            }
        }
    }
}

/// The root is never patched.
pub proof fn root_not_patched(cells: Seq<Cell>, patches: Seq<(NodeId, Option<Tree>)>)
    ensures
        !applicable(cells, patches).contains_key(0),
{
    asked_not_root(patches, cells.len());
}

proof fn asked_not_root(patches: Seq<(NodeId, Option<Tree>)>, len: nat)
    ensures
        !asked(patches, len).contains_key(0),
    decreases patches.len(),
{
    if patches.len() > 0 {
        asked_not_root(patches.drop_last(), len);
    }
}

proof fn first_placed(splice: Splice, rebuild: Rebuild, root: Item)
    requires
        splice.holds(root),
        rebuild.cells() == Seq::<Cell>::empty().push(placed(root, NO_PARENT)),
        rebuild.pending@ == if root.tree.cells()[root.id as int].count > 0 {
            Seq::empty().push((0 as NodeId, root))
        } else {
            Seq::empty()
        },
    ensures
        under_construction(rebuild.cells(), splice.queue(rebuild.pending@)),
        growing(rebuild.cells(), splice.queue(rebuild.pending@), 0) == splice.becomes(root),
        1 + awaited_len(splice.queue(rebuild.pending@)) == shape_len(splice.becomes(root)),
{
    let cells = rebuild.cells();
    let queue = splice.queue(rebuild.pending@);
    becomes_cell(splice, root, NO_PARENT);
    assert forall|i: int, j: int| !#[trigger] in_group(cells, i, j) by {}
    assert(linked(cells));
    assert(shape_len(splice.becomes(root)) == 1 + shapes_len(splice.becomes(root).children));
    if root.tree.cells()[root.id as int].count > 0 {
        awaited_is(queue, 0);
        assert(queue.drop_last() =~= Seq::empty());
        assert(awaited_len(queue.drop_last()) == 0);
        assert(awaited_len(queue) == shapes_len(queue.last().children));
    } else {
        assert(queue =~= Seq::empty());
        assert(!waits(queue, 0));
        assert(growing(cells, queue, 0).children =~= Seq::empty());
        assert(shapes_len(splice.becomes(root).children) == 0);
        assert(awaited_len(queue) == 0);
    }
}

} // verus!
