//! What holds of trees whatever is done to them.

use super::flatten::{link_in, link_row, links_in_order, with_links};
use super::hardlinks::{above, above_is_smaller, above_parent, above_same, drained_all};
use super::hardlinks::{drained_all_keeps, located, losers, regrouped, repeated, same_links};
use super::hardlinks::LinkedSpec;
use super::rebuild::replaces;
use super::splice::{applicable, asked, below_any, cell_totals, measured, no_totals, patched};
use super::splice::{patched_weight, replacement_weight, touched, weighed, without_children, Totals};
use super::{breadth_first, cell_le, cell_shape, descended, found_at, in_group, is_named};
use super::{linked, named_child, named_child_is, parent_of, path_of, shape};
use super::weight::{ancestor_weighs_more, children_logical, children_size, holds_children};
use super::weight::{step_towards, weighty};
use super::{Cell, NodeId, Tree, NO_PARENT};
use crate::order::{arrangement, arrangement_exists, in_order, multiset_sorted, picked_in_order};
use crate::order::{arrangement_has_no_duplicates, arranges_reaches, sorted, Ranked};
use crate::path::{joining_a_name, parts, parts_le_antisymmetric, plain_name, PartSpec};
use vstd::prelude::*;

verus! {

/// Every node below the root has a name a directory can hold.
pub open spec fn names_plain(cells: Seq<Cell>) -> bool {
    forall|i: int| 0 < i < cells.len() ==> plain_name((#[trigger] cells[i]).name)
}

/// No directory holds a name twice.
pub open spec fn names_unique(cells: Seq<Cell>) -> bool {
    forall|i: int, j: int, k: int|
        #[trigger] in_group(cells, i, j) && #[trigger] in_group(cells, i, k) && j != k ==> cells[j].name
            != cells[k].name
}

/// The names from below the root down to `id`.
spec fn names_to(cells: Seq<Cell>, id: int) -> Seq<PartSpec>
    decreases id,
{
    match parent_of(cells, id) {
        Some(parent) if parent < id => names_to(cells, parent as int).push(
            PartSpec::Name(cells[id].name),
        ),
        _ => Seq::empty(),
    }
}

proof fn path_parts(cells: Seq<Cell>, id: int)
    requires
        linked(cells),
        names_plain(cells),
        0 <= id < cells.len(),
    ensures
        parts(path_of(cells, id)) == parts(cells[0].name) + names_to(cells, id),
    decreases id,
{
    if id == 0 {
        assert(cells[0].parent == NO_PARENT);
        assert(parts(cells[0].name) + names_to(cells, 0) =~= parts(cells[0].name));
    } else {
        let parent = cells[id].parent as int;
        assert(cells[id].parent < id && in_group(cells, parent, id));
        path_parts(cells, parent);
        joining_a_name(path_of(cells, parent), cells[id].name);
        assert(parts(cells[0].name) + names_to(cells, id) =~= (parts(cells[0].name) + names_to(
            cells,
            parent,
        )).push(PartSpec::Name(cells[id].name)));
    }
}

proof fn descended_push(cells: Seq<Cell>, start: NodeId, names: Seq<PartSpec>, name: Seq<char>)
    ensures
        descended(cells, start, names.push(PartSpec::Name(name))) == match descended(
            cells,
            start,
            names,
        ) {
            Some(id) => named_child(cells, id as int, name),
            None => None,
        },
    decreases names.len(),
{
    let longer = names.push(PartSpec::Name(name));
    if names.len() == 0 {
        assert(longer.drop_first() =~= Seq::empty());
        match named_child(cells, start as int, name) {
            Some(child) => {
                assert(descended(cells, child, Seq::empty()) == Some(child));
            },
            None => {},
        }
    } else {
        assert(longer[0] == names[0]);
        assert(longer.drop_first() =~= names.drop_first().push(PartSpec::Name(name)));
        match names[0] {
            PartSpec::Name(first) => match named_child(cells, start as int, first) {
                Some(child) => {
                    descended_push(cells, child, names.drop_first(), name);
                },
                None => {},
            },
            _ => {},
        }
    }
}

proof fn names_lead(cells: Seq<Cell>, id: NodeId)
    requires
        linked(cells),
        names_unique(cells),
        id < cells.len(),
    ensures
        descended(cells, 0, names_to(cells, id as int)) == Some(id),
    decreases id,
{
    if id == 0 {
        assert(cells[0].parent == NO_PARENT);
    } else {
        let parent = cells[id as int].parent;
        assert(cells[id as int].parent < id && in_group(cells, parent as int, id as int));
        names_lead(cells, parent);
        let name = cells[id as int].name;
        descended_push(cells, 0, names_to(cells, parent as int), name);
        assert forall|j: int| cells[parent as int].first <= j < id implies (#[trigger] cells[j]).name != name by {
            assert(in_group(cells, parent as int, j));
        }
        assert(is_named(cells, parent as int, name, id));
        named_child_is(cells, parent as int, name, id);
    }
}

/// Looking up the path of a node finds the node, in a tree whose directories hold every
/// name once and only names a directory can hold.
pub proof fn find_inverts_path(tree: Tree, id: NodeId)
    requires
        tree.wf(),
        names_plain(tree.cells()),
        names_unique(tree.cells()),
        id < tree.cells().len(),
    ensures
        found_at(tree.cells(), path_of(tree.cells(), id as int)) == Some(id),
{
    let cells = tree.cells();
    path_parts(cells, id as int);
    names_lead(cells, id);
    let base = parts(cells[0].name);
    let whole = parts(path_of(cells, id as int));
    assert(base =~= whole.take(base.len() as int));
    assert(whole.skip(base.len() as int) =~= names_to(cells, id as int));
}

/// Patching nothing changes nothing.
pub proof fn patching_nothing_changes_nothing(tree: Tree)
    requires
        tree.wf(),
        tree.cells().len() > 0,
    ensures
        patched(tree.cells(), applicable(tree.cells(), Seq::empty()), 0) == Some(tree.shape()),
{
    let none = applicable(tree.cells(), Seq::empty());
    assert(none =~= Map::empty());
    nothing_touched(tree.cells(), 0);
}

proof fn nothing_touched(cells: Seq<Cell>, id: int)
    requires
        linked(cells),
    ensures
        !touched(cells, Map::<NodeId, Option<Tree>>::empty().dom(), id),
    decreases cells.len() - id,
{
    let ids = Map::<NodeId, Option<Tree>>::empty().dom();
    if touched(cells, ids, id) {
        let child = choose|child: int|
            #[trigger] in_group(cells, id, child) && id < child < cells.len() && (ids.contains(
                child as NodeId,
            ) || touched(cells, ids, child));
        nothing_touched(cells, child);
    }
}

/// A patch of the root, or of an id the tree does not know, is as good as none.
pub proof fn the_root_and_unknown_ids_are_not_patched(
    cells: Seq<Cell>,
    patches: Seq<(NodeId, Option<Tree>)>,
    id: NodeId,
    replacement: Option<Tree>,
)
    requires
        id == 0 || id >= cells.len(),
    ensures
        applicable(cells, patches.push((id, replacement))) == applicable(cells, patches),
{
    assert(patches.push((id, replacement)).drop_last() =~= patches);
}

/// Of several patches for one node the last counts.
pub proof fn the_last_patch_counts(
    cells: Seq<Cell>,
    patches: Seq<(NodeId, Option<Tree>)>,
    id: NodeId,
    first: Option<Tree>,
    last: Option<Tree>,
)
    ensures
        applicable(cells, patches.push((id, first)).push((id, last))) == applicable(
            cells,
            patches.push((id, last)),
        ),
{
    reveal_with_fuel(asked, 3);
    let once = patches.push((id, first));
    let twice = once.push((id, last));
    assert(twice.drop_last() =~= once);
    assert(once.drop_last() =~= patches);
    assert(patches.push((id, last)).drop_last() =~= patches);
    assert(asked(twice, cells.len()) =~= asked(patches.push((id, last)), cells.len()));
}

/// Patches for different nodes may come in any order.
pub proof fn the_order_of_patches_does_not_matter(
    cells: Seq<Cell>,
    patches: Seq<(NodeId, Option<Tree>)>,
    a: (NodeId, Option<Tree>),
    b: (NodeId, Option<Tree>),
)
    requires
        a.0 != b.0,
    ensures
        applicable(cells, patches.push(a).push(b)) == applicable(cells, patches.push(b).push(a)),
{
    reveal_with_fuel(asked, 3);
    assert(patches.push(a).push(b).drop_last() =~= patches.push(a));
    assert(patches.push(b).push(a).drop_last() =~= patches.push(b));
    assert(patches.push(a).drop_last() =~= patches);
    assert(patches.push(b).drop_last() =~= patches);
    assert(asked(patches.push(a).push(b), cells.len()) =~= asked(
        patches.push(b).push(a),
        cells.len(),
    ));
}

/// A patch below another patch is as good as none.
pub proof fn a_patch_below_another_is_not_applied(
    cells: Seq<Cell>,
    patches: Seq<(NodeId, Option<Tree>)>,
    id: NodeId,
)
    requires
        below_any(cells, asked(patches, cells.len()).dom(), id),
    ensures
        !applicable(cells, patches).contains_key(id),
{
}

/// How many of the ids up to `i` are children of ids before `i`, the root included.
spec fn offset(cells: Seq<Cell>, i: int) -> int
    decreases i,
{
    if i <= 0 {
        1
    } else {
        offset(cells, i - 1) + cells[i - 1].count
    }
}

/// In a breadth-first arena the children of the nodes before `i` are the ids before
/// `offset(i)`.
proof fn offset_splits(cells: Seq<Cell>, i: int)
    requires
        linked(cells),
        breadth_first(cells),
        0 <= i <= cells.len(),
        cells.len() > 0,
    ensures
        1 <= offset(cells, i) <= cells.len(),
        forall|j: int| 0 < j < cells.len() ==> ((#[trigger] cells[j].parent) < i) == (j < offset(cells, i)),
        i < cells.len() && cells[i].count > 0 ==> cells[i].first == offset(cells, i),
    decreases i,
{
    if i > 0 {
        offset_splits(cells, i - 1);
        let p = i - 1;
        assert forall|j: int| 0 < j < cells.len() implies ((#[trigger] cells[j].parent) < i) == (j < offset(
            cells,
            i,
        )) by {
            assert(cells[j].parent < j && in_group(cells, cells[j].parent as int, j));
            assert((cells[j].parent < p) == (j < offset(cells, p)));
            if cells[p].count > 0 {
                assert(in_group(cells, p, j) == (cells[p].first <= j < cells[p].first + cells[p].count));
            }
        }
    }
    if i < cells.len() && cells[i].count > 0 {
        let first = cells[i].first as int;
        assert(in_group(cells, i, first));
        assert(cells[first].parent == i);
        let j = offset(cells, i);
        if j < first {
            assert(j < cells.len());
            assert(!(cells[j].parent < i));
            let q = cells[j].parent as int;
            assert(cells[j].parent < j && in_group(cells, q, j));
            assert(q != i) by {
                if q == i {
                    assert(in_group(cells, i, j));
                }
            }
            assert(cells[q].count > 0);
            assert(cells[i].first + cells[i].count <= cells[q].first);
            assert(false);
        }
    }
}

proof fn same_ids(a: Seq<Cell>, b: Seq<Cell>, i: int)
    requires
        linked(a),
        linked(b),
        breadth_first(a),
        breadth_first(b),
        a.len() > 0,
        b.len() > 0,
        shape(a, 0) == shape(b, 0),
        0 <= i < a.len(),
    ensures
        i < b.len(),
        shape(a, i) == shape(b, i),
        a[i].parent == b[i].parent,
    decreases i,
{
    if i == 0 {
        assert(a[0].parent == NO_PARENT && b[0].parent == NO_PARENT);
    } else {
        let p = a[i].parent as int;
        assert(a[i].parent < i && in_group(a, p, i));
        same_ids(a, b, p);
        same_offsets(a, b, p);
        offset_splits(a, p);
        offset_splits(b, p);
        let whole = shape(a, p);
        assert(whole.children.len() == a[p].count && shape(b, p).children.len() == b[p].count);
        assert(a[p].first == b[p].first);
        let k = i - a[p].first;
        assert(in_group(b, p, i));
        assert(whole.children[k] == shape(a, i));
        assert(shape(b, p).children[k] == shape(b, i));
    }
}

proof fn same_offsets(a: Seq<Cell>, b: Seq<Cell>, i: int)
    requires
        linked(a),
        linked(b),
        breadth_first(a),
        breadth_first(b),
        a.len() > 0,
        b.len() > 0,
        shape(a, 0) == shape(b, 0),
        0 <= i < a.len(),
    ensures
        offset(a, i) == offset(b, i),
    decreases i,
{
    if i > 0 {
        same_offsets(a, b, i - 1);
        same_ids(a, b, i - 1);
        assert(shape(a, i - 1).children.len() == a[i - 1].count);
        assert(shape(b, i - 1).children.len() == b[i - 1].count);
    }
}

/// Two breadth-first arenas of one shape are the same, cell by cell.
proof fn same_cells(x: Seq<Cell>, y: Seq<Cell>)
    requires
        linked(x),
        linked(y),
        breadth_first(x),
        breadth_first(y),
        x.len() > 0,
        y.len() > 0,
        shape(x, 0) == shape(y, 0),
    ensures
        x == y,
{
    same_ids(x, y, x.len() - 1);
    same_ids(y, x, y.len() - 1);
    assert(x.len() == y.len());
    assert forall|i: int| 0 <= i < x.len() implies x[i] == y[i] by {
        same_ids(x, y, i);
        same_offsets(x, y, i);
        offset_splits(x, i);
        offset_splits(y, i);
        assert(shape(x, i).children.len() == x[i].count);
        assert(shape(y, i).children.len() == y[i].count);
        assert(cell_shape(x[i], shape(x, i).children) == cell_shape(y[i], shape(y, i).children));
        assert(x[i].error == shape(x, i).error && y[i].error == shape(y, i).error);
    }
    assert(x =~= y);
}

/// Two breadth-first arenas of one shape are the same, id by id. With it, what a function
/// says of shapes it says of arenas: flattening and patching are both breadth first.
pub proof fn a_shape_has_one_arena(a: Tree, b: Tree)
    requires
        a.wf(),
        b.wf(),
        a.cells().len() > 0,
        b.cells().len() > 0,
        breadth_first(a.cells()),
        breadth_first(b.cells()),
        a.shape() == b.shape(),
    ensures
        a.cells() == b.cells(),
{
    same_cells(a.cells(), b.cells());
}

proof fn link_in_shorter(links: Seq<(u64, u64, NodeId)>, len: nat, id: int)
    requires
        links_in_order(links, len),
        links.len() > 0,
        id != links.last().2,
    ensures
        link_in(links.drop_last(), id) == link_in(links, id),
{
    let less = links.drop_last();
    if exists|row: int| link_row(links, row, id) {
        let row = choose|row: int| link_row(links, row, id);
        assert(less[row] == links[row]);
        assert(link_row(less, row, id));
        let found = choose|r: int| link_row(less, r, id);
        assert(less[found] == links[found]);
        if found < row {
            assert(links[found].2 < links[row].2);
        } else if row < found {
            assert(links[row].2 < links[found].2);
        }
    } else if exists|row: int| link_row(less, row, id) {
        let row = choose|row: int| link_row(less, row, id);
        assert(link_row(links, row, id));
    }
}

/// A list of links in id order is known by what it says of every id.
proof fn links_are_known(a: Seq<(u64, u64, NodeId)>, b: Seq<(u64, u64, NodeId)>, len: nat)
    requires
        links_in_order(a, len),
        links_in_order(b, len),
        forall|id: int| 0 <= id < len ==> #[trigger] link_in(a, id) == link_in(b, id),
    ensures
        a == b,
    decreases len,
{
    if len == 0 {
        if a.len() > 0 {
            assert(a[0].2 < len);
        }
        if b.len() > 0 {
            assert(b[0].2 < len);
        }
        assert(a =~= b);
    } else {
        let last = len - 1;
        assert(link_in(a, last) == link_in(b, last));
        last_link(a, len);
        last_link(b, len);
        if link_in(a, last) is Some {
            let c = a.drop_last();
            let d = b.drop_last();
            assert(links_in_order(c, last as nat)) by {
                assert forall|i: int| 0 <= i < c.len() implies (#[trigger] c[i]).2 < last by {
                    assert(a[i].2 < a[a.len() - 1].2);
                }
            }
            assert(links_in_order(d, last as nat)) by {
                assert forall|i: int| 0 <= i < d.len() implies (#[trigger] d[i]).2 < last by {
                    assert(b[i].2 < b[b.len() - 1].2);
                }
            }
            assert forall|id: int| 0 <= id < last implies #[trigger] link_in(c, id) == link_in(
                d,
                id,
            ) by {
                link_in_shorter(a, len, id);
                link_in_shorter(b, len, id);
                assert(link_in(a, id) == link_in(b, id));
            }
            links_are_known(c, d, last as nat);
            assert(a =~= c.push(a.last()));
            assert(b =~= d.push(b.last()));
        } else {
            links_are_known(a, b, last as nat);
        }
    }
}

/// The last link stands last, if there is one, and otherwise all come before it.
proof fn last_link(links: Seq<(u64, u64, NodeId)>, len: nat)
    requires
        links_in_order(links, len),
        len > 0,
    ensures
        match link_in(links, len - 1) {
            Some((dev, ino)) => links.len() > 0 && links.last().2 == len - 1 && links.last().0 == dev
                && links.last().1 == ino,
            None => links_in_order(links, (len - 1) as nat),
        },
{
    let last = len - 1;
    if exists|row: int| link_row(links, row, last) {
        let row = choose|row: int| link_row(links, row, last);
        if row < links.len() - 1 {
            assert(links[row].2 < links[links.len() - 1].2);
        }
    } else {
        assert forall|i: int| 0 <= i < links.len() implies (#[trigger] links[i]).2 < last by {
            if links[i].2 == last {
                assert(link_row(links, i, last));
            }
        }
    }
}

/// A shape with links has one arena and one list of links in id order.
pub proof fn a_linked_shape_has_one_arena(
    a: Tree,
    links: Seq<(u64, u64, NodeId)>,
    b: Tree,
    others: Seq<(u64, u64, NodeId)>,
)
    requires
        a.wf(),
        b.wf(),
        a.cells().len() > 0,
        b.cells().len() > 0,
        breadth_first(a.cells()),
        breadth_first(b.cells()),
        links_in_order(links, a.cells().len()),
        links_in_order(others, b.cells().len()),
        shape(with_links(a.cells(), links), 0) == shape(with_links(b.cells(), others), 0),
    ensures
        a.cells() == b.cells(),
        links == others,
{
    let x = with_links(a.cells(), links);
    let y = with_links(b.cells(), others);
    same_links(a.cells(), x);
    same_links(b.cells(), y);
    same_cells(x, y);
    assert forall|i: int| 0 <= i < a.cells().len() implies a.cells()[i] == b.cells()[i] by {
        assert(a.cells()[i] == Cell { link: None, ..x[i] });
        assert(b.cells()[i] == Cell { link: None, ..y[i] });
    }
    assert(a.cells() =~= b.cells());
    assert forall|id: int| 0 <= id < a.cells().len() implies #[trigger] link_in(links, id)
        == link_in(others, id) by {
        assert(x[id].link == y[id].link);
    }
    links_are_known(links, others, a.cells().len());
}

/// The totals of the first `k` children of `id` together.
pub open spec fn children_files(cells: Seq<Cell>, id: int, k: nat) -> nat
    decreases k,
{
    if k == 0 {
        0
    } else {
        children_files(cells, id, (k - 1) as nat) + cells[cells[id].first + k - 1].file_count as nat
    }
}

/// Every directory weighs at least what its children do, and counts at least their files,
/// as in any tree that was walked.
pub open spec fn aggregated(cells: Seq<Cell>) -> bool {
    &&& weighty(cells)
    &&& forall|id: int|
        0 <= id < cells.len() ==> #[trigger] children_files(cells, id, cells[id].count as nat)
            <= cells[id].file_count
}

/// The patch that drops one node.
pub open spec fn dropping(id: NodeId) -> Map<NodeId, Option<Tree>> {
    Map::empty().insert(id, None)
}

proof fn dropping_touches(cells: Seq<Cell>, gone: NodeId, id: int)
    requires
        linked(cells),
        0 <= id < cells.len(),
        gone < cells.len(),
    ensures
        touched(cells, dropping(gone).dom(), id) == above(cells, id, gone),
    decreases cells.len() - id,
{
    let ids = dropping(gone).dom();
    if touched(cells, ids, id) {
        let child = choose|child: int|
            #[trigger] in_group(cells, id, child) && id < child < cells.len() && (ids.contains(
                child as NodeId,
            ) || touched(cells, ids, child));
        assert(cells[child].parent == id);
        if ids.contains(child as NodeId) {
            assert(child == gone);
            assert(parent_of(cells, child) == Some(id as NodeId));
        } else {
            dropping_touches(cells, gone, child);
            above_parent(cells, child, gone);
        }
    }
    if above(cells, id, gone) {
        let child = step_towards(cells, id, gone);
        assert(in_group(cells, id, child));
        assert(id < child < cells.len());
        if child == gone {
            assert(ids.contains(child as NodeId));
        } else {
            dropping_touches(cells, gone, child);
        }
    }
}

/// What is left of a node when the first `k` of its children are taken out, without
/// saturation.
proof fn own_blocks(cells: Seq<Cell>, id: int, k: nat)
    requires
        aggregated(cells),
        0 <= id < cells.len(),
        k <= cells[id].count,
    ensures
        without_children(cells, id, k).size == cells[id].size - children_size(cells, id, k),
        without_children(cells, id, k).logical_size == cells[id].logical_size - children_logical(
            cells,
            id,
            k,
        ),
        without_children(cells, id, k).file_count == cells[id].file_count - children_files(cells, id, k),
        children_size(cells, id, k) <= cells[id].size,
        children_logical(cells, id, k) <= cells[id].logical_size,
        children_files(cells, id, k) <= cells[id].file_count,
    decreases k,
{
    partial_sums(cells, id, k, cells[id].count as nat);
    assert(holds_children(cells, id));
    if k > 0 {
        own_blocks(cells, id, (k - 1) as nat);
    }
}

proof fn partial_sums(cells: Seq<Cell>, id: int, k: nat, all: nat)
    requires
        k <= all,
    ensures
        children_size(cells, id, k) <= children_size(cells, id, all),
        children_logical(cells, id, k) <= children_logical(cells, id, all),
        children_files(cells, id, k) <= children_files(cells, id, all),
    decreases all,
{
    if k < all {
        partial_sums(cells, id, k, (all - 1) as nat);
    }
}

proof fn weighed_without(cells: Seq<Cell>, gone: NodeId, id: int, child: int, k: nat)
    requires
        linked(cells),
        aggregated(cells),
        0 <= id < cells.len(),
        gone < cells.len(),
        k <= cells[id].count,
        in_group(cells, id, child),
        child == gone || above(cells, child, gone),
        forall|other: int|
            #[trigger] in_group(cells, id, other) && (other == gone || above(cells, other, gone)) ==> other
                == child,
        cells[child].size >= cells[gone as int].size,
        cells[child].logical_size >= cells[gone as int].logical_size,
        cells[child].file_count >= cells[gone as int].file_count,
        patched_weight(cells, dropping(gone), child) == cell_totals(cells[child]).reduced(
            cell_totals(cells[gone as int]),
        ),
    ensures
        ({
            let out = if child < cells[id].first + k {
                cell_totals(cells[gone as int])
            } else {
                no_totals()
            };
            let blocks = without_children(cells, id, cells[id].count as nat);
            let sum = weighed(cells, dropping(gone), id, k);
            &&& sum.size == blocks.size + children_size(cells, id, k) - out.size
            &&& sum.logical_size == blocks.logical_size + children_logical(cells, id, k)
                - out.logical_size
            &&& sum.file_count == blocks.file_count + children_files(cells, id, k) - out.file_count
        }),
    decreases k,
{
    own_blocks(cells, id, cells[id].count as nat);
    partial_sums(cells, id, k, cells[id].count as nat);
    if k > 0 {
        weighed_without(cells, gone, id, child, (k - 1) as nat);
        let last = cells[id].first + k - 1;
        assert(in_group(cells, id, last));
        assert(id < last < cells.len());
        partial_sums(cells, id, (k - 1) as nat, cells[id].count as nat);
        if last != child {
            dropping_touches(cells, gone, last);
            assert(!dropping(gone).contains_key(last as NodeId));
            assert(patched_weight(cells, dropping(gone), last) == cell_totals(cells[last]));
        }
    }
}

proof fn ancestor_counts_more(cells: Seq<Cell>, i: int, node: NodeId)
    requires
        linked(cells),
        aggregated(cells),
        above(cells, i, node),
    ensures
        cells[i].size >= cells[node as int].size,
        cells[i].logical_size >= cells[node as int].logical_size,
        cells[i].file_count >= cells[node as int].file_count,
    decreases node,
{
    ancestor_weighs_more(cells, i, node);
    above_is_smaller(cells, i, node);
    let parent = parent_of(cells, node as int)->0;
    assert(cells[node as int].parent < node && in_group(cells, parent as int, node as int));
    assert(children_files(cells, parent as int, cells[parent as int].count as nat)
        <= cells[parent as int].file_count);
    child_counts_less(cells, parent as int, cells[parent as int].count as nat, node as int);
    if parent != i {
        ancestor_counts_more(cells, i, parent);
    }
}

proof fn child_counts_less(cells: Seq<Cell>, id: int, k: nat, child: int)
    requires
        cells[id].first <= child < cells[id].first + k,
    ensures
        cells[child].file_count <= children_files(cells, id, k),
    decreases k,
{
    if child < cells[id].first + k - 1 {
        child_counts_less(cells, id, (k - 1) as nat, child);
    }
}

/// What patches come to is decided by the patches that are applied: of two lists that ask for
/// the same, leaving out the root, ids the tree does not know and what lies below another
/// patch, and keeping the last for each id, the patched trees are the same node for node.
pub proof fn the_applied_patches_decide(
    tree: Tree,
    patches: Seq<(NodeId, Option<Tree>)>,
    others: Seq<(NodeId, Option<Tree>)>,
    a: Tree,
    b: Tree,
)
    requires
        applicable(tree.cells(), patches) == applicable(tree.cells(), others),
        replaces(tree, patches, a),
        replaces(tree, others, b),
    ensures
        a.cells() == b.cells(),
{
    if tree.cells().len() > 0 {
        a_shape_has_one_arena(a, b);
    } else {
        assert(a.cells() =~= b.cells());
    }
}

/// The ids of the children of the first `k` nodes, one group after the other.
pub open spec fn groups_to(cells: Seq<Cell>, k: nat) -> Seq<int>
    decreases k,
{
    if k == 0 {
        Seq::empty()
    } else {
        groups_to(cells, (k - 1) as nat) + Seq::new(
            cells[k - 1].count as nat,
            |c: int| cells[k - 1].first + c,
        )
    }
}

/// Whether the groups of the first `k` nodes are the first `n` ids after the root.
spec fn filled(cells: Seq<Cell>, k: int, n: int) -> bool {
    &&& forall|i: int, j: int| 0 <= i < k && #[trigger] in_group(cells, i, j) ==> j <= n
    &&& forall|j: int| 0 < j <= n ==> j < cells.len() && (#[trigger] cells[j]).parent < k
}

/// The next group begins where the groups before it end.
proof fn next_group(cells: Seq<Cell>, p: int, n: int)
    requires
        linked(cells),
        breadth_first(cells),
        0 <= p < cells.len(),
        0 <= n,
        filled(cells, p, n),
        cells[p].count > 0,
    ensures
        cells[p].first == n + 1,
{
    let first = cells[p].first as int;
    assert(in_group(cells, p, first));
    assert(cells[first].parent == p);
    let next = n + 1;
    if first > next {
        let other = cells[next].parent as int;
        assert(cells[next].parent < next && in_group(cells, other, next));
        if other > p {
            assert(cells[other].count > 0);
            assert(cells[p].first + cells[p].count <= cells[other].first);
        }
    }
}

proof fn fills_on(cells: Seq<Cell>, p: int, n: int)
    requires
        linked(cells),
        breadth_first(cells),
        0 <= p < cells.len(),
        0 <= n,
        filled(cells, p, n),
    ensures
        filled(cells, p + 1, n + cells[p].count),
        cells[p].count > 0 ==> cells[p].first == n + 1,
{
    let more = n + cells[p].count;
    if cells[p].count > 0 {
        next_group(cells, p, n);
    }
    assert forall|i: int, j: int| 0 <= i < p + 1 && #[trigger] in_group(cells, i, j) implies j
        <= more by {
        if i < p {
            assert(j <= n);
        }
    }
    assert forall|j: int| 0 < j <= more implies j < cells.len() && (#[trigger] cells[j]).parent < p
        + 1 by {
        if j > n {
            assert(in_group(cells, p, j));
            assert(cells[j].parent == p);
        } else {
            assert(cells[j].parent < p);
        }
    }
}

/// The groups of a breadth-first arena fill the ids after the root, without a gap.
proof fn groups_fill(cells: Seq<Cell>, k: nat)
    requires
        linked(cells),
        breadth_first(cells),
        k <= cells.len(),
    ensures
        groups_to(cells, k) == Seq::new(groups_to(cells, k).len(), |n: int| n + 1),
        filled(cells, k as int, groups_to(cells, k).len() as int),
    decreases k,
{
    if k == 0 {
        assert(groups_to(cells, 0) =~= Seq::new(0, |n: int| n + 1));
    } else {
        groups_fill(cells, (k - 1) as nat);
        let before = groups_to(cells, (k - 1) as nat);
        let now = groups_to(cells, k);
        fills_on(cells, k - 1, before.len() as int);
        assert(now.len() == before.len() + cells[k - 1].count);
        assert forall|n: int| 0 <= n < now.len() implies now[n] == n + 1 by {
            if n < before.len() {
                assert(before[n] == n + 1);
            }
        }
        assert(now =~= Seq::new(now.len(), |n: int| n + 1));
    }
}

/// A patched tree is laid out well, whatever was patched: the root has no parent; the groups
/// of the nodes, in the order of the nodes, are exactly the ids after the root; every child
/// comes after the parent it names; every group is listed largest first, ties by name; a node
/// without children has no group; and the errors stand in id order, each for a node there is.
pub proof fn a_patched_tree_is_laid_out_well(
    tree: Tree,
    patches: Seq<(NodeId, Option<Tree>)>,
    result: Tree,
)
    requires
        replaces(tree, patches, result),
    ensures
        ({
            let cells = result.cells();
            let errors = result.error_table();
            &&& cells.len() > 0 ==> parent_of(cells, 0) is None
            &&& cells.len() > 0 ==> groups_to(cells, cells.len()) == Seq::new(
                (cells.len() - 1) as nat,
                |n: int| n + 1,
            )
            &&& forall|p: int, c: int| #[trigger]
                in_group(cells, p, c) ==> p < c < cells.len() && parent_of(cells, c) == Some(
                    p as NodeId,
                )
            &&& forall|p: int, c: int, d: int|
                #[trigger] in_group(cells, p, c) && #[trigger] in_group(cells, p, d) && c < d
                    ==> cell_le(cells[c], cells[d])
            &&& forall|p: int|
                0 <= p < cells.len() && (#[trigger] cells[p]).count == 0 ==> cells[p].first == 0
            &&& forall|a: int, b: int|
                0 <= a < b < errors.len() ==> (#[trigger] errors[a]).0 < (#[trigger] errors[b]).0
            &&& forall|a: int| 0 <= a < errors.len() ==> (#[trigger] errors[a]).0 < cells.len()
        }),
{
    let cells = result.cells();
    if cells.len() > 0 {
        groups_fill(cells, cells.len());
        let all = groups_to(cells, cells.len());
        if all.len() < cells.len() - 1 {
            let j = all.len() + 1;
            let p = cells[j as int].parent as int;
            assert(cells[j as int].parent < j && in_group(cells, p, j as int));
        } else if all.len() > cells.len() - 1 {
            let j = cells.len() as int;
            assert(cells[j].parent < cells.len());
        }
        assert forall|n: int| 0 <= n < all.len() implies all[n] == n + 1 by {}
        assert(groups_to(cells, cells.len()) =~= Seq::new(
            (cells.len() - 1) as nat,
            |n: int| n + 1,
        ));
    }
    assert forall|p: int, c: int| #[trigger] in_group(cells, p, c) implies p < c < cells.len()
        && parent_of(cells, c) == Some(p as NodeId) by {
        assert(cells[c].parent == p);
    }
}

/// Dropping a node takes exactly its weight out of each of its ancestors, in a tree that
/// was aggregated once.
pub proof fn dropping_takes_its_weight_out_of_ancestors(tree: Tree, gone: NodeId, id: int)
    requires
        tree.wf(),
        aggregated(tree.cells()),
        gone < tree.cells().len(),
        above(tree.cells(), id, gone),
    ensures
        ({
            let cells = tree.cells();
            let weight = patched_weight(cells, dropping(gone), id);
            &&& weight.size == cells[id].size - cells[gone as int].size
            &&& weight.logical_size == cells[id].logical_size - cells[gone as int].logical_size
            &&& weight.file_count == cells[id].file_count - cells[gone as int].file_count
        }),
    decreases tree.cells().len() - id,
{
    let cells = tree.cells();
    above_is_smaller(cells, id, gone);
    ancestor_counts_more(cells, id, gone);
    let child = step_towards(cells, id, gone);
    dropping_touches(cells, gone, id);
    assert(in_group(cells, id, child));
    assert(id < child);
    if child != gone {
        ancestor_counts_more(cells, child, gone);
        dropping_takes_its_weight_out_of_ancestors(tree, gone, child);
    }
    weighed_without(cells, gone, id, child, cells[id].count as nat);
    own_blocks(cells, id, cells[id].count as nat);
}

/// Dropping a node leaves every node that is neither it nor one of its ancestors as it was,
/// with all that is below.
pub proof fn dropping_leaves_the_rest_alone(tree: Tree, gone: NodeId, id: int)
    requires
        tree.wf(),
        gone < tree.cells().len(),
        0 <= id < tree.cells().len(),
        id != gone,
        !above(tree.cells(), id, gone),
    ensures
        patched(tree.cells(), dropping(gone), id) == Some(shape(tree.cells(), id)),
        patched_weight(tree.cells(), dropping(gone), id) == cell_totals(tree.cells()[id]),
{
    dropping_touches(tree.cells(), gone, id);
}

/// Asking to drop one node applies the patch that drops it.
pub proof fn dropping_is_applicable(cells: Seq<Cell>, gone: NodeId)
    requires
        linked(cells),
        0 < gone < cells.len(),
    ensures
        applicable(cells, seq![(gone, None)]) == dropping(gone),
{
    let patches = seq![(gone, None::<Tree>)];
    assert(patches.drop_last() =~= Seq::empty());
    reveal_with_fuel(asked, 2);
    let wanted = asked(patches, cells.len());
    assert(wanted =~= dropping(gone));
    not_below_itself(cells, gone, gone);
    assert(applicable(cells, patches) =~= dropping(gone));
}

proof fn not_below_itself(cells: Seq<Cell>, gone: NodeId, id: NodeId)
    requires
        id <= gone,
    ensures
        !below_any(cells, dropping(gone).dom(), id),
    decreases id,
{
    match parent_of(cells, id as int) {
        Some(parent) if parent < id => not_below_itself(cells, gone, parent),
        _ => {},
    }
}

/// Two sorted lists of the same links are the same list.
proof fn sorted_links_unique(a: Seq<LinkedSpec>, b: Seq<LinkedSpec>)
    requires
        in_order(a),
        in_order(b),
        a.to_multiset() == b.to_multiset(),
    ensures
        a == b,
    decreases a.len(),
{
    broadcast use vstd::seq_lib::group_to_multiset_ensures;

    assert(a.len() == b.len()) by {
        assert(a.len() == a.to_multiset().len());
        assert(b.len() == b.to_multiset().len());
    }
    if a.len() > 0 {
        let n = a.len() - 1;
        let x = a[n];
        let y = b[n];
        assert(a.to_multiset().count(x) > 0) by {
            assert(a.contains(x));
        }
        assert(b.to_multiset().count(y) > 0) by {
            assert(b.contains(y));
        }
        assert(b.contains(x) && a.contains(y));
        let i = choose|i: int| 0 <= i < b.len() && b[i] == x;
        let j = choose|j: int| 0 <= j < a.len() && a[j] == y;
        assert(x.le(y)) by {
            if i < n {
                assert(b[i].le(b[n]));
            } else {
                LinkedSpec::le_total(x, x);
            }
        }
        assert(y.le(x)) by {
            if j < n {
                assert(a[j].le(a[n]));
            } else {
                LinkedSpec::le_total(y, y);
            }
        }
        if x.dev == y.dev && x.ino == y.ino && x.path != y.path {
            parts_le_antisymmetric(x.path, y.path);
        }
        assert(x == y);
        assert(a.remove(n) =~= a.drop_last());
        assert(b.remove(n) =~= b.drop_last());
        sorted_links_unique(a.drop_last(), b.drop_last());
        assert(a =~= a.drop_last().push(x));
        assert(b =~= b.drop_last().push(y));
    }
}

/// Which of several hard links keeps the data does not depend on the order in which they
/// were met, and neither does the tree that comes of it, id by id.
pub proof fn attribution_ignores_the_order_of_links(
    cells: Seq<Cell>,
    links: Seq<(u64, u64, NodeId)>,
    others: Seq<(u64, u64, NodeId)>,
)
    requires
        links.to_multiset() == others.to_multiset(),
        links.len() <= usize::MAX,
    ensures
        losers(cells, links) == losers(cells, others),
        regrouped(drained_all(cells, losers(cells, links)), 0) == regrouped(
            drained_all(cells, losers(cells, others)),
            0,
        ),
{
    broadcast use vstd::seq_lib::group_to_multiset_ensures;

    assert(links.len() == others.len()) by {
        assert(links.len() == links.to_multiset().len());
        assert(others.len() == others.to_multiset().len());
    }
    let a = located(cells, links);
    let b = located(cells, others);
    located_multiset(cells, links, others);
    arrangement_exists(a);
    arrangement_exists(b);
    picked_in_order(a, arrangement(a));
    picked_in_order(b, arrangement(b));
    multiset_sorted(a);
    multiset_sorted(b);
    sorted_links_unique(sorted(a), sorted(b));
}

/// The data that hard links share: the `(dev, ino)` pairs, each once.
pub open spec fn data_of(links: Seq<(u64, u64, NodeId)>) -> Set<(u64, u64)> {
    links.map_values(|link: (u64, u64, NodeId)| (link.0, link.1)).to_set()
}

/// Whether two links share their data.
pub open spec fn shares(links: Seq<(u64, u64, NodeId)>, i: int, j: int) -> bool {
    links[i].0 == links[j].0 && links[i].1 == links[j].1
}

/// Whether link `i` keeps its sizes: no link to the same data has a smaller path.
pub open spec fn keeps(cells: Seq<Cell>, links: Seq<(u64, u64, NodeId)>, i: int) -> bool {
    forall|j: int|
        0 <= j < links.len() && #[trigger] shares(links, i, j) ==> located(cells, links)[i].le(
            located(cells, links)[j],
        )
}

/// Whether some link to the data of link `i` keeps it.
pub open spec fn kept_by_some(cells: Seq<Cell>, links: Seq<(u64, u64, NodeId)>, i: int) -> bool {
    exists|j: int| 0 <= j < links.len() && #[trigger] shares(links, i, j) && keeps(cells, links, j)
}

/// The same data as the row before.
spec fn repeats(rows: Seq<LinkedSpec>, k: int) -> bool {
    0 < k < rows.len() && rows[k - 1].dev == rows[k].dev && rows[k - 1].ino == rows[k].ino
}

proof fn repeated_has(rows: Seq<LinkedSpec>, n: nat, k: int)
    requires
        k < n <= rows.len(),
        repeats(rows, k),
    ensures
        repeated(rows, n).contains(rows[k].id),
    decreases n,
{
    let before = repeated(rows, (n - 1) as nat);
    if k == n - 1 {
        assert(repeated(rows, n).last() == rows[k].id);
    } else {
        repeated_has(rows, (n - 1) as nat, k);
        let at = choose|at: int| 0 <= at < before.len() && before[at] == rows[k].id;
        assert(repeated(rows, n)[at] == rows[k].id);
    }
}

proof fn repeated_from(rows: Seq<LinkedSpec>, n: nat, id: NodeId) -> (k: int)
    requires
        n <= rows.len(),
        repeated(rows, n).contains(id),
    ensures
        k < n,
        repeats(rows, k),
        rows[k].id == id,
    decreases n,
{
    let all = repeated(rows, n);
    let before = repeated(rows, (n - 1) as nat);
    let at = choose|at: int| 0 <= at < all.len() && all[at] == id;
    if at < before.len() {
        assert(before[at] == id);
        repeated_from(rows, (n - 1) as nat, id)
    } else {
        n - 1
    }
}

/// The data of the first `k` rows.
spec fn row_data(rows: Seq<LinkedSpec>, k: int) -> Set<(u64, u64)> {
    rows.take(k).map_values(|row: LinkedSpec| (row.dev, row.ino)).to_set()
}

/// In rows that are sorted by their data, what repeats is all but one of each.
proof fn repeated_count(rows: Seq<LinkedSpec>, k: nat)
    requires
        in_order(rows),
        k <= rows.len(),
    ensures
        repeated(rows, k).len() + row_data(rows, k as int).len() == k,
        row_data(rows, k as int).finite(),
    decreases k,
{
    let key = |row: LinkedSpec| (row.dev, row.ino);
    let now = rows.take(k as int).map_values(key);
    if k == 0 {
        assert(now.to_set() =~= Set::empty());
    } else {
        repeated_count(rows, (k - 1) as nat);
        let before = rows.take(k - 1).map_values(key);
        let last = (rows[k - 1].dev, rows[k - 1].ino);
        assert(now =~= before.push(last));
        assert(now.to_set() =~= before.to_set().insert(last)) by {
            assert forall|x: (u64, u64)| now.to_set().contains(x) == before.to_set().insert(last).contains(x) by {
                if now.contains(x) {
                    let at = choose|at: int| 0 <= at < now.len() && now[at] == x;
                    if at < before.len() {
                        assert(before[at] == x);
                    }
                }
                if before.contains(x) {
                    let at = choose|at: int| 0 <= at < before.len() && before[at] == x;
                    assert(now[at] == x);
                }
                assert(now[k - 1] == last);
            }
        }
        if repeats(rows, k - 1) {
            assert(before[k - 2] == last);
            assert(before.to_set().contains(last));
            assert(before.to_set().insert(last) =~= before.to_set());
        } else if before.to_set().contains(last) {
            let at = choose|at: int| 0 <= at < before.len() && before[at] == last;
            assert(rows[at].dev == rows[k - 1].dev && rows[at].ino == rows[k - 1].ino);
            between(rows, at, k - 1);
        }
    }
}

/// Between two rows of the same data there is no other.
proof fn between(rows: Seq<LinkedSpec>, a: int, b: int)
    requires
        in_order(rows),
        0 <= a < b < rows.len(),
        rows[a].dev == rows[b].dev,
        rows[a].ino == rows[b].ino,
    ensures
        repeats(rows, b),
{
    if a < b - 1 {
        assert(rows[a].le(rows[b - 1]));
    }
    assert(rows[b - 1].le(rows[b]));
}

proof fn link_order_strict(a: LinkedSpec, b: LinkedSpec)
    requires
        a.le(b),
        b.le(a),
    ensures
        a.id == b.id,
{
    if a.path != b.path {
        parts_le_antisymmetric(a.path, b.path);
    }
}

/// The place of link `i` among the sorted rows.
proof fn row_of_link(cells: Seq<Cell>, links: Seq<(u64, u64, NodeId)>, i: int) -> (k: int)
    requires
        links.len() <= usize::MAX,
        0 <= i < links.len(),
    ensures
        0 <= k < links.len(),
        sorted(located(cells, links)).len() == links.len(),
        sorted(located(cells, links))[k] == located(cells, links)[i],
{
    let all = located(cells, links);
    let order = arrangement(all);
    arrangement_exists(all);
    arranges_reaches(all, order, 0, all.len() as int, i);
    choose|k: int| 0 <= k < order.len() && order[k] == i
}

proof fn link_of_row(cells: Seq<Cell>, links: Seq<(u64, u64, NodeId)>, k: int) -> (i: int)
    requires
        links.len() <= usize::MAX,
        0 <= k < links.len(),
    ensures
        0 <= i < links.len(),
        sorted(located(cells, links)).len() == links.len(),
        sorted(located(cells, links))[k] == located(cells, links)[i],
{
    let all = located(cells, links);
    arrangement_exists(all);
    arrangement(all)[k] as int
}

/// A link is among those that lose their sizes exactly where it does not keep them.
proof fn losing_is_not_keeping(cells: Seq<Cell>, links: Seq<(u64, u64, NodeId)>, i: int)
    requires
        links_in_order(links, cells.len()),
        links.len() <= usize::MAX,
        0 <= i < links.len(),
    ensures
        losers(cells, links).contains(links[i].2) == !keeps(cells, links, i),
{
    let all = located(cells, links);
    let rows = sorted(all);
    arrangement_exists(all);
    picked_in_order(all, arrangement(all));
    let at = row_of_link(cells, links, i);
    if losers(cells, links).contains(links[i].2) {
        let k = repeated_from(rows, links.len(), links[i].2);
        let own = link_of_row(cells, links, k);
        let j = link_of_row(cells, links, k - 1);
        assert(own == i) by {
            if own < i {
                assert(links[own].2 < links[i].2);
            } else if i < own {
                assert(links[i].2 < links[own].2);
            }
        }
        assert(shares(links, i, j));
        assert(rows[k - 1].le(rows[k]));
        if keeps(cells, links, i) {
            link_order_strict(all[i], all[j]);
            assert(i == j);
            // The row before is another one.
            let x = arrangement(all)[k - 1];
            let y = arrangement(all)[k];
            arrangement_has_no_duplicates(all, arrangement(all), 0, all.len() as int);
            assert(x != y);
            rows_of_two_links(links, x as int, y as int);
        }
    }
    if !keeps(cells, links, i) {
        let j = choose|j: int|
            0 <= j < links.len() && #[trigger] shares(links, i, j) && !all[i].le(all[j]);
        let to = row_of_link(cells, links, j);
        if at < to {
            assert(rows[at].le(rows[to]));
        } else if at == to {
            LinkedSpec::le_total(all[i], all[i]);
        }
        between(rows, to, at);
        repeated_has(rows, links.len(), at);
    }
}

proof fn rows_of_two_links(links: Seq<(u64, u64, NodeId)>, x: int, y: int)
    requires
        forall|i: int, j: int|
            0 <= i < j < links.len() ==> (#[trigger] links[i]).2 < (#[trigger] links[j]).2,
        0 <= x < links.len(),
        0 <= y < links.len(),
        x != y,
    ensures
        links[x].2 != links[y].2,
{
    if x < y {
        assert(links[x].2 < links[y].2);
    } else {
        assert(links[y].2 < links[x].2);
    }
}

/// Of the links to one data exactly one keeps its sizes.
proof fn one_keeps(cells: Seq<Cell>, links: Seq<(u64, u64, NodeId)>, k: int) -> (j: int)
    requires
        links_in_order(links, cells.len()),
        links.len() <= usize::MAX,
        0 <= k < links.len(),
    ensures
        0 <= j < links.len(),
        keeps(cells, links, j),
        links[j].0 == sorted(located(cells, links))[k].dev,
        links[j].1 == sorted(located(cells, links))[k].ino,
    decreases k,
{
    let all = located(cells, links);
    let rows = sorted(all);
    let j = link_of_row(cells, links, k);
    if repeats(rows, k) {
        one_keeps(cells, links, k - 1)
    } else {
        if losers(cells, links).contains(links[j].2) {
            let other = repeated_from(rows, links.len(), links[j].2);
            let i = link_of_row(cells, links, other);
            arrangement_exists(all);
            let x = arrangement(all)[k];
            let y = arrangement(all)[other];
            if other != k {
                arrangement_has_no_duplicates(all, arrangement(all), 0, all.len() as int);
                rows_of_two_links(links, x as int, y as int);
            }
        }
        losing_is_not_keeping(cells, links, j);
        j
    }
}

/// A leaf loses its sizes where it is drained, and is left alone otherwise.
proof fn drained_leaf(cells: Seq<Cell>, ids: Seq<NodeId>, x: int)
    requires
        linked(cells),
        0 <= x < cells.len(),
        cells[x].count == 0,
        forall|k: int| 0 <= k < ids.len() ==> #[trigger] ids[k] < cells.len(),
    ensures
        drained_all(cells, ids)[x] == if ids.contains(x as NodeId) {
            Cell { size: 0, logical_size: 0, ..cells[x] }
        } else {
            cells[x]
        },
    decreases ids.len(),
{
    if ids.len() > 0 {
        let less = ids.drop_last();
        let before = drained_all(cells, less);
        let id = ids.last();
        assert forall|k: int| 0 <= k < less.len() implies #[trigger] less[k] < cells.len() by {
            assert(less[k] == ids[k]);
        }
        drained_leaf(cells, less, x);
        drained_all_keeps(cells, less);
        above_same(before, cells, x, id);
        if above(cells, x, id) {
            let child = step_towards(cells, x, id);
            assert(in_group(cells, x, child));
        }
        assert(ids[ids.len() - 1] == id);
        if less.contains(x as NodeId) {
            let at = choose|at: int| 0 <= at < less.len() && less[at] == x as NodeId;
            assert(ids[at] == x as NodeId);
        }
        if ids.contains(x as NodeId) && x != id {
            let at = choose|at: int| 0 <= at < ids.len() && ids[at] == x as NodeId;
            assert(less[at] == x as NodeId);
        }
    }
}

/// Data that hard links share is counted once: of the links to one `(dev, ino)` exactly one,
/// that with the smallest path, keeps its sizes, and every other ends without any; as many
/// lose theirs as there are links less the data they share.
pub proof fn linked_data_is_counted_once(cells: Seq<Cell>, links: Seq<(u64, u64, NodeId)>)
    requires
        linked(cells),
        links_in_order(links, cells.len()),
        links.len() <= usize::MAX,
        forall|i: int| 0 <= i < links.len() ==> cells[(#[trigger] links[i]).2 as int].count == 0,
    ensures
        losers(cells, links).len() == links.len() - data_of(links).len(),
        forall|i: int|
            0 <= i < links.len() ==> drained_all(cells, losers(cells, links))[(
            #[trigger] links[i]).2 as int] == if keeps(cells, links, i) {
                cells[links[i].2 as int]
            } else {
                Cell { size: 0, logical_size: 0, ..cells[links[i].2 as int] }
            },
        forall|i: int| 0 <= i < links.len() ==> #[trigger] kept_by_some(cells, links, i),
        forall|i: int, j: int|
            0 <= i < links.len() && 0 <= j < links.len() && #[trigger] shares(links, i, j) && keeps(
                cells,
                links,
                i,
            ) && keeps(cells, links, j) ==> i == j,
{
    let all = located(cells, links);
    let rows = sorted(all);
    let gone = losers(cells, links);
    arrangement_exists(all);
    picked_in_order(all, arrangement(all));
    repeated_count(rows, links.len());
    let key = |row: LinkedSpec| (row.dev, row.ino);
    let keys = links.map_values(|link: (u64, u64, NodeId)| (link.0, link.1));
    let sorted_keys = rows.take(rows.len() as int).map_values(key);
    assert(data_of(links) =~= row_data(rows, links.len() as int)) by {
        assert forall|x: (u64, u64)| keys.to_set().contains(x) == sorted_keys.to_set().contains(x) by {
            if keys.contains(x) {
                let i = choose|i: int| 0 <= i < keys.len() && keys[i] == x;
                let k = row_of_link(cells, links, i);
                assert(sorted_keys[k] == x);
            }
            if sorted_keys.contains(x) {
                let k = choose|k: int| 0 <= k < sorted_keys.len() && sorted_keys[k] == x;
                let i = link_of_row(cells, links, k);
                assert(keys[i] == x);
            }
        }
    }
    assert forall|k: int| 0 <= k < gone.len() implies #[trigger] gone[k] < cells.len() by {
        assert(gone.contains(gone[k]));
        let row = repeated_from(rows, links.len(), gone[k]);
        let i = link_of_row(cells, links, row);
        assert(links[i].2 < cells.len());
    }
    assert forall|i: int| 0 <= i < links.len() implies drained_all(cells, gone)[(
    #[trigger] links[i]).2 as int] == if keeps(cells, links, i) {
        cells[links[i].2 as int]
    } else {
        Cell { size: 0, logical_size: 0, ..cells[links[i].2 as int] }
    } by {
        losing_is_not_keeping(cells, links, i);
        drained_leaf(cells, gone, links[i].2 as int);
    }
    assert forall|i: int| 0 <= i < links.len() implies #[trigger] kept_by_some(cells, links, i) by {
        let k = row_of_link(cells, links, i);
        let j = one_keeps(cells, links, k);
        assert(shares(links, i, j));
    }
    assert forall|i: int, j: int|
        0 <= i < links.len() && 0 <= j < links.len() && #[trigger] shares(links, i, j) && keeps(
            cells,
            links,
            i,
        ) && keeps(cells, links, j) implies i == j by {
        assert(shares(links, j, i));
        link_order_strict(all[i], all[j]);
        if i != j {
            rows_of_two_links(links, i, j);
        }
    }
}

proof fn located_multiset(
    cells: Seq<Cell>,
    links: Seq<(u64, u64, NodeId)>,
    others: Seq<(u64, u64, NodeId)>,
)
    requires
        links.to_multiset() == others.to_multiset(),
    ensures
        located(cells, links).to_multiset() == located(cells, others).to_multiset(),
    decreases links.len(),
{
    broadcast use vstd::seq_lib::group_to_multiset_ensures;

    assert(links.len() == others.len()) by {
        assert(links.len() == links.to_multiset().len());
        assert(others.len() == others.to_multiset().len());
    }
    if links.len() == 0 {
        assert(located(cells, links) =~= located(cells, others));
    } else {
        let n = links.len() - 1;
        assert(links.to_multiset().count(links[n]) > 0) by {
            assert(links.contains(links[n]));
        }
        assert(others.contains(links[n]));
        let k = choose|k: int| 0 <= k < others.len() && others[k] == links[n];
        located_multiset(cells, links.remove(n), others.remove(k));
        let a = located(cells, links);
        let b = located(cells, others);
        assert(located(cells, links.remove(n)) =~= a.remove(n));
        assert(located(cells, others.remove(k)) =~= b.remove(k));
        assert(a[n] == b[k]);
        assert(a.to_multiset() =~= a.remove(n).to_multiset().insert(a[n])) by {
            assert(a =~= a.remove(n).push(a[n]));
        }
        assert(b.contains(b[k]));
        assert(b.to_multiset() =~= b.remove(k).to_multiset().insert(b[k]));
    }
}

/// The patch that puts a replacement in the place of one node.
pub open spec fn trading(id: NodeId, replacement: Option<Tree>) -> Map<NodeId, Option<Tree>> {
    Map::empty().insert(id, replacement)
}

/// Whether totals are those of a node with the weight of `old` taken out and that of `new` put in.
pub open spec fn trades(after: Totals, before: Cell, old: Cell, new: Totals) -> bool {
    &&& after.size == before.size - old.size + new.size
    &&& after.logical_size == before.logical_size - old.logical_size + new.logical_size
    &&& after.file_count == before.file_count - old.file_count + new.file_count
}

/// Whether the totals of a node still fit once the weight of `old` is taken out and that of `new`
/// put in.
pub open spec fn trade_fits(before: Cell, old: Cell, new: Totals) -> bool {
    &&& before.size - old.size + new.size <= u64::MAX
    &&& before.logical_size - old.logical_size + new.logical_size <= u64::MAX
    &&& before.file_count - old.file_count + new.file_count <= u32::MAX
}

proof fn weighed_trading(
    cells: Seq<Cell>,
    at: NodeId,
    replacement: Option<Tree>,
    id: int,
    child: int,
    k: nat,
)
    requires
        linked(cells),
        aggregated(cells),
        0 <= id < cells.len(),
        at < cells.len(),
        k <= cells[id].count,
        in_group(cells, id, child),
        child == at || above(cells, child, at),
        forall|other: int|
            #[trigger] in_group(cells, id, other) && (other == at || above(cells, other, at)) ==> other
                == child,
        cells[child].size >= cells[at as int].size,
        cells[child].logical_size >= cells[at as int].logical_size,
        cells[child].file_count >= cells[at as int].file_count,
        trade_fits(cells[id], cells[at as int], replacement_weight(replacement)),
        trades(
            patched_weight(cells, trading(at, replacement), child),
            cells[child],
            cells[at as int],
            replacement_weight(replacement),
        ),
    ensures
        ({
            let new = replacement_weight(replacement);
            let out = if child < cells[id].first + k {
                cells[at as int].size - new.size
            } else {
                0
            };
            let out_logical = if child < cells[id].first + k {
                cells[at as int].logical_size - new.logical_size
            } else {
                0
            };
            let out_files = if child < cells[id].first + k {
                cells[at as int].file_count - new.file_count
            } else {
                0
            };
            let blocks = without_children(cells, id, cells[id].count as nat);
            let sum = weighed(cells, trading(at, replacement), id, k);
            &&& sum.size == blocks.size + children_size(cells, id, k) - out
            &&& sum.logical_size == blocks.logical_size + children_logical(cells, id, k)
                - out_logical
            &&& sum.file_count == blocks.file_count + children_files(cells, id, k) - out_files
        }),
    decreases k,
{
    own_blocks(cells, id, cells[id].count as nat);
    partial_sums(cells, id, k, cells[id].count as nat);
    assert(trading(at, replacement).dom() =~= dropping(at).dom());
    if k > 0 {
        weighed_trading(cells, at, replacement, id, child, (k - 1) as nat);
        let last = cells[id].first + k - 1;
        assert(in_group(cells, id, last));
        assert(id < last < cells.len());
        partial_sums(cells, id, (k - 1) as nat, cells[id].count as nat);
        if last != child {
            dropping_touches(cells, at, last);
            assert(!trading(at, replacement).contains_key(last as NodeId));
            assert(patched_weight(cells, trading(at, replacement), last) == cell_totals(cells[last]));
        }
    }
}

/// Putting a branch in the place of a node trades the weights in each of the node's ancestors:
/// that of the node goes out and that of the branch comes in, in a tree that was aggregated once.
pub proof fn replacing_trades_the_weights_in_ancestors(
    tree: Tree,
    at: NodeId,
    replacement: Option<Tree>,
    id: int,
)
    requires
        tree.wf(),
        aggregated(tree.cells()),
        at < tree.cells().len(),
        above(tree.cells(), id, at),
        forall|i: int|
            0 <= i < tree.cells().len() ==> trade_fits(
                #[trigger] tree.cells()[i],
                tree.cells()[at as int],
                replacement_weight(replacement),
            ),
    ensures
        trades(
            patched_weight(tree.cells(), trading(at, replacement), id),
            tree.cells()[id],
            tree.cells()[at as int],
            replacement_weight(replacement),
        ),
    decreases tree.cells().len() - id,
{
    let cells = tree.cells();
    assert(trading(at, replacement).dom() =~= dropping(at).dom());
    above_is_smaller(cells, id, at);
    ancestor_counts_more(cells, id, at);
    let child = step_towards(cells, id, at);
    dropping_touches(cells, at, id);
    assert(in_group(cells, id, child));
    assert(id < child);
    if child != at {
        ancestor_counts_more(cells, child, at);
        replacing_trades_the_weights_in_ancestors(tree, at, replacement, child);
    } else {
        assert(trading(at, replacement).contains_key(at));
        assert(cells[at as int].size >= 0);
    }
    assert(trade_fits(cells[id], cells[at as int], replacement_weight(replacement)));
    weighed_trading(cells, at, replacement, id, child, cells[id].count as nat);
    own_blocks(cells, id, cells[id].count as nat);
}

/// A branch stands in the place of a node under the name the node had, as what the branch is and
/// with what stands in it. One that weighs at least what it holds comes in with the weight it has.
pub proof fn a_replacement_stands_under_the_old_name(cells: Seq<Cell>, at: NodeId, part: Tree)
    requires
        part.wf(),
        part.cells().len() > 0,
    ensures
        ({
            let left = patched(cells, trading(at, Some(part)), at as int);
            let root = part.cells()[0];
            &&& left is Some
            &&& left->0.name == cells[at as int].name
            &&& left->0.kind == root.kind
            &&& left->0.mtime == root.mtime
            &&& left->0.error == root.error
            &&& left->0.children == part.shape().children
            &&& aggregated(part.cells()) ==> left->0.size == root.size && left->0.logical_size
                == root.logical_size && left->0.file_count == root.file_count
        }),
        patched(cells, trading(at, None), at as int) is None,
{
    assert(trading(at, Some(part)).contains_key(at));
    assert(trading(at, None).contains_key(at));
    if aggregated(part.cells()) {
        measured_again(part.cells(), part.cells()[0].count as nat);
        own_blocks(part.cells(), 0, part.cells()[0].count as nat);
    }
}

proof fn measured_again(cells: Seq<Cell>, k: nat)
    requires
        aggregated(cells),
        cells.len() > 0,
        k <= cells[0].count,
    ensures
        ({
            let own = without_children(cells, 0, cells[0].count as nat);
            let sum = measured(cells, k);
            &&& sum.size == own.size + children_size(cells, 0, k)
            &&& sum.logical_size == own.logical_size + children_logical(cells, 0, k)
            &&& sum.file_count == own.file_count + children_files(cells, 0, k)
        }),
    decreases k,
{
    own_blocks(cells, 0, cells[0].count as nat);
    partial_sums(cells, 0, k, cells[0].count as nat);
    if k > 0 {
        measured_again(cells, (k - 1) as nat);
        partial_sums(cells, 0, (k - 1) as nat, cells[0].count as nat);
    }
}

} // verus!
