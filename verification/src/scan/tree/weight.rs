//! Trees whose directories weigh at least what their children do, as a walk builds them:
//! taking shared data out of them never leaves a directory short.

use super::flatten::{link_in_row, links_in_order, nodes_in, subtree_shape};
use super::flatten::{subtree_shapes, subtree_shapes_at, with_links, Subtree};
use super::hardlinks::{above, above_is_smaller, above_parent, carried, carried_all};
use super::hardlinks::{drained, drained_all, drained_all_keeps, located, losers, repeated};
use super::hardlinks::{same_links, LinkedSpec};
use super::{in_group, linked, parent_of, shape, Cell, NodeId, Shape, Tree};
use crate::order::{arrangement, arrangement_exists, sorted, total, total_sorted};
use vstd::prelude::*;

verus! {

/// What the first `k` children of `id` weigh together.
pub open spec fn children_size(cells: Seq<Cell>, id: int, k: nat) -> nat
    decreases k,
{
    if k == 0 {
        0
    } else {
        children_size(cells, id, (k - 1) as nat) + cells[cells[id].first + k - 1].size as nat
    }
}

/// The logical bytes of the first `k` children of `id` together.
pub open spec fn children_logical(cells: Seq<Cell>, id: int, k: nat) -> nat
    decreases k,
{
    if k == 0 {
        0
    } else {
        children_logical(cells, id, (k - 1) as nat) + cells[cells[id].first
            + k - 1].logical_size as nat
    }
}

/// Whether node `id` weighs at least what its children do.
pub open spec fn holds_children(cells: Seq<Cell>, id: int) -> bool {
    &&& children_size(cells, id, cells[id].count as nat) <= cells[id].size
    &&& children_logical(cells, id, cells[id].count as nat) <= cells[id].logical_size
}

/// Whether every node weighs at least what its children do.
pub open spec fn weighty(cells: Seq<Cell>) -> bool {
    forall|id: int| 0 <= id < cells.len() ==> #[trigger] holds_children(cells, id)
}

proof fn child_weighs_less(cells: Seq<Cell>, id: int, k: nat, child: int)
    requires
        cells[id].first <= child < cells[id].first + k,
    ensures
        cells[child].size <= children_size(cells, id, k),
        cells[child].logical_size <= children_logical(cells, id, k),
    decreases k,
{
    if child < cells[id].first + k - 1 {
        child_weighs_less(cells, id, (k - 1) as nat, child);
    }
}

/// An ancestor weighs at least what the node does.
pub proof fn ancestor_weighs_more(cells: Seq<Cell>, i: int, node: NodeId)
    requires
        linked(cells),
        weighty(cells),
        above(cells, i, node),
    ensures
        cells[i].size >= cells[node as int].size,
        cells[i].logical_size >= cells[node as int].logical_size,
    decreases node,
{
    above_is_smaller(cells, i, node);
    let parent = parent_of(cells, node as int)->0;
    assert(cells[node as int].parent < node && in_group(cells, parent as int, node as int));
    assert(holds_children(cells, parent as int));
    child_weighs_less(cells, parent as int, cells[parent as int].count as nat, node as int);
    if parent != i {
        ancestor_weighs_more(cells, i, parent);
    }
}

/// The child of `i` on the way to `node`.
pub proof fn step_towards(cells: Seq<Cell>, i: int, node: NodeId) -> (child: int)
    requires
        linked(cells),
        above(cells, i, node),
    ensures
        in_group(cells, i, child),
        child == node || above(cells, child, node),
        forall|other: int|
            #[trigger] in_group(cells, i, other) && (other == node || above(cells, other, node)) ==> other
                == child,
    decreases node,
{
    above_is_smaller(cells, i, node);
    let parent = parent_of(cells, node as int)->0;
    assert(cells[node as int].parent < node && in_group(cells, parent as int, node as int));
    if parent == i {
        assert forall|other: int| #[trigger] in_group(cells, i, other) && above(cells, other, node) implies other
            == node by {
            above_is_smaller(cells, other, node);
            assert(other > i);
            if other != parent {
                above_is_smaller(cells, other, parent);
            }
        }
        node as int
    } else {
        let child = step_towards(cells, i, parent);
        assert forall|other: int| #[trigger] in_group(cells, i, other) && (other == node || above(
            cells,
            other,
            node,
        )) implies other == child by {
            if other == node {
                assert(cells[other].parent == i);
            } else if other != parent {
                assert(above(cells, other, parent));
            }
        }
        child
    }
}

proof fn drained_children(cells: Seq<Cell>, id: NodeId, i: int, child: int, k: nat)
    requires
        linked(cells),
        0 <= i < cells.len(),
        id < cells.len(),
        k <= cells[i].count,
        in_group(cells, i, child),
        child == id || above(cells, child, id),
        forall|other: int|
            #[trigger] in_group(cells, i, other) && (other == id || above(cells, other, id)) ==> other
                == child,
        forall|a: int|
            #[trigger] above(cells, a, id) ==> cells[a].size >= cells[id as int].size && cells[a].logical_size
                >= cells[id as int].logical_size,
    ensures
        children_size(drained(cells, id), i, k) == children_size(cells, i, k) - (if child
            < cells[i].first + k {
            cells[id as int].size as int
        } else {
            0
        }),
        children_logical(drained(cells, id), i, k) == children_logical(cells, i, k) - (if child
            < cells[i].first + k {
            cells[id as int].logical_size as int
        } else {
            0
        }),
    decreases k,
{
    let after = drained(cells, id);
    assert(after[i].first == cells[i].first);
    if k > 0 {
        drained_children(cells, id, i, child, (k - 1) as nat);
        let last = cells[i].first + k - 1;
        assert(in_group(cells, i, last));
        assert(last < cells.len());
    }
}

proof fn other_children(cells: Seq<Cell>, id: NodeId, i: int, k: nat)
    requires
        linked(cells),
        0 <= i < cells.len(),
        i != id,
        !above(cells, i, id),
        k <= cells[i].count,
    ensures
        children_size(drained(cells, id), i, k) == children_size(cells, i, k),
        children_logical(drained(cells, id), i, k) == children_logical(cells, i, k),
    decreases k,
{
    assert(drained(cells, id)[i] == cells[i]);
    if k > 0 {
        other_children(cells, id, i, (k - 1) as nat);
        let last = cells[i].first + k - 1;
        assert(in_group(cells, i, last));
        assert(cells[last].parent == i);
        if last == id {
            assert(above(cells, i, id));
        } else if above(cells, last, id) {
            above_parent(cells, last, id);
        }
    }
}

/// Taking the sizes of a leaf out of its ancestors keeps a tree weighty.
proof fn drained_weighty(cells: Seq<Cell>, id: NodeId)
    requires
        linked(cells),
        weighty(cells),
        id < cells.len(),
        cells[id as int].count == 0,
    ensures
        carried(cells, id),
        weighty(drained(cells, id)),
{
    assert forall|i: int| #[trigger] above(cells, i, id) implies cells[i].size >= cells[id as int].size
        && cells[i].logical_size >= cells[id as int].logical_size by {
        ancestor_weighs_more(cells, i, id);
    }
    let after = drained(cells, id);
    assert forall|i: int| 0 <= i < after.len() implies #[trigger] holds_children(after, i) by {
        assert(holds_children(cells, i));
        assert(after[i].count == cells[i].count);
        if i == id {
            assert(children_size(after, i, 0) == 0);
            assert(children_logical(after, i, 0) == 0);
        } else if above(cells, i, id) {
            let child = step_towards(cells, i, id);
            drained_children(cells, id, i, child, cells[i].count as nat);
        } else {
            other_children(cells, id, i, cells[i].count as nat);
        }
    }
}

/// In a weighty tree any leaves can be taken out of their ancestors.
pub proof fn weighty_carries(cells: Seq<Cell>, ids: Seq<NodeId>)
    requires
        linked(cells),
        weighty(cells),
        forall|k: int|
            0 <= k < ids.len() ==> (#[trigger] ids[k]) < cells.len() && cells[ids[k] as int].count == 0,
    ensures
        carried_all(cells, ids),
        weighty(drained_all(cells, ids)),
        linked(drained_all(cells, ids)),
    decreases ids.len(),
{
    if ids.len() > 0 {
        let less = ids.drop_last();
        assert forall|k: int| 0 <= k < less.len() implies (#[trigger] less[k]) < cells.len()
            && cells[less[k] as int].count == 0 by {
            assert(less[k] == ids[k]);
        }
        weighty_carries(cells, less);
        drained_all_keeps(cells, less);
        let last = ids[ids.len() - 1];
        assert(drained_all(cells, less)[last as int].count == cells[last as int].count);
        drained_weighty(drained_all(cells, less), last);
        drained_all_keeps(cells, ids);
        same_links(cells, drained_all(cells, ids));
    }
}

/// A subtree as a walk builds it: every directory weighs at least what its children do, and
/// only what has no children shares its data with other names.
pub open spec fn heavy(subtree: Subtree) -> bool
    decreases subtree,
{
    &&& total(subtree.children@, |child: Subtree| child.node.size as nat) <= subtree.node.size
    &&& total(subtree.children@, |child: Subtree| child.node.logical_size as nat)
        <= subtree.node.logical_size
    &&& subtree.hardlink is Some ==> subtree.children@.len() == 0
    &&& forall|i: int| 0 <= i < subtree.children@.len() ==> heavy(#[trigger] subtree.children@[i])
}

/// The same of a shape.
pub open spec fn heavy_shape(shape: Shape) -> bool
    decreases shape,
{
    &&& total(shape.children, |child: Shape| child.size as nat) <= shape.size
    &&& total(shape.children, |child: Shape| child.logical_size as nat) <= shape.logical_size
    &&& shape.link is Some ==> shape.children.len() == 0
    &&& forall|i: int| 0 <= i < shape.children.len() ==> heavy_shape(#[trigger] shape.children[i])
}

proof fn totals_of_shapes(subtrees: Seq<Subtree>)
    ensures
        total(subtree_shapes(subtrees), |child: Shape| child.size as nat) == total(
            subtrees,
            |child: Subtree| child.node.size as nat,
        ),
        total(subtree_shapes(subtrees), |child: Shape| child.logical_size as nat) == total(
            subtrees,
            |child: Subtree| child.node.logical_size as nat,
        ),
    decreases subtrees.len(),
{
    if subtrees.len() > 0 {
        totals_of_shapes(subtrees.drop_last());
        assert(subtree_shapes(subtrees).drop_last() =~= subtree_shapes(subtrees.drop_last()));
        let last = subtree_shapes(subtrees).last();
        assert(last == subtree_shape(subtrees.last()));
        assert(last.size == subtrees.last().node.size);
        assert(last.logical_size == subtrees.last().node.logical_size);
    }
}

proof fn heavy_shape_of(subtree: Subtree)
    requires
        heavy(subtree),
        nodes_in(subtree) <= usize::MAX,
    ensures
        heavy_shape(subtree_shape(subtree)),
    decreases subtree,
{
    let children = subtree.children@;
    let shapes = subtree_shapes(children);
    subtree_shapes_at(children);
    super::flatten::nodes_in_all_at_least(children);
    totals_of_shapes(children);
    total_sorted(shapes, |child: Shape| child.size as nat);
    total_sorted(shapes, |child: Shape| child.logical_size as nat);
    arrangement_exists(shapes);
    let below = subtree_shape(subtree).children;
    assert forall|i: int| 0 <= i < below.len() implies heavy_shape(#[trigger] below[i]) by {
        let k = arrangement(shapes)[i] as int;
        assert(below[i] == shapes[k]);
        assert(heavy(children[k]));
        super::flatten::nodes_in_member(children, k);
        heavy_shape_of(children[k]);
    }
}

proof fn totals_of_group(cells: Seq<Cell>, id: int, k: nat)
    requires
        linked(cells),
        0 <= id < cells.len(),
        k <= cells[id].count,
    ensures
        children_size(cells, id, k) == total(
            shape(cells, id).children.take(k as int),
            |child: Shape| child.size as nat,
        ),
        children_logical(cells, id, k) == total(
            shape(cells, id).children.take(k as int),
            |child: Shape| child.logical_size as nat,
        ),
    decreases k,
{
    let all = shape(cells, id).children;
    if k > 0 {
        totals_of_group(cells, id, (k - 1) as nat);
        assert(all.take(k as int).drop_last() =~= all.take(k - 1));
        assert(all[k - 1] == shape(cells, cells[id].first + k - 1));
    }
}

proof fn heavy_everywhere(cells: Seq<Cell>, id: int)
    requires
        linked(cells),
        0 <= id < cells.len(),
        heavy_shape(shape(cells, 0)),
    ensures
        heavy_shape(shape(cells, id)),
        holds_children(cells, id),
        cells[id].link is Some ==> cells[id].count == 0,
    decreases id,
{
    if id > 0 {
        let parent = cells[id].parent as int;
        assert(cells[id].parent < id && in_group(cells, parent, id));
        heavy_everywhere(cells, parent);
        let k = id - cells[parent].first;
        let above = shape(cells, parent);
        assert(heavy_shape(above.children[k]));
        assert(above.children[k] == shape(cells, id));
    }
    totals_of_group(cells, id, cells[id].count as nat);
    let whole = shape(cells, id);
    let all = whole.children;
    assert(all.take(all.len() as int) =~= all);
    assert(heavy_shape(whole));
    assert(whole.size == cells[id].size && whole.logical_size == cells[id].logical_size);
    assert(whole.link == cells[id].link && all.len() == cells[id].count);
}

proof fn repeated_among(rows: Seq<LinkedSpec>, k: nat)
    requires
        k <= rows.len(),
    ensures
        forall|i: int|
            0 <= i < repeated(rows, k).len() ==> exists|j: int|
                0 <= j < rows.len() && #[trigger] rows[j].id == #[trigger] repeated(rows, k)[i],
    decreases k,
{
    if k > 0 {
        repeated_among(rows, (k - 1) as nat);
        let before = repeated(rows, (k - 1) as nat);
        let after = repeated(rows, k);
        assert forall|i: int| 0 <= i < after.len() implies exists|j: int|
            0 <= j < rows.len() && #[trigger] rows[j].id == #[trigger] after[i] by {
            if i < before.len() {
                assert(after[i] == before[i]);
            } else {
                assert(rows[k - 1].id == after[i]);
            }
        }
    }
}

/// The hard links of a flattened walk can all be attributed.
pub proof fn walk_carries(subtree: Subtree, tree: Tree, links: Seq<(u64, u64, NodeId)>)
    requires
        heavy(subtree),
        nodes_in(subtree) <= u32::MAX,
        tree.wf(),
        tree.cells().len() > 0,
        links_in_order(links, tree.cells().len()),
        links.len() <= usize::MAX,
        shape(with_links(tree.cells(), links), 0) == subtree_shape(subtree),
    ensures
        weighty(tree.cells()),
        carried_all(tree.cells(), losers(tree.cells(), links)),
{
    let cells = tree.cells();
    let tagged = with_links(cells, links);
    same_links(cells, tagged);
    heavy_shape_of(subtree);
    assert forall|id: int| 0 <= id < cells.len() implies #[trigger] holds_children(cells, id) && (tagged[id].link is Some
        ==> cells[id].count == 0) by {
        heavy_everywhere(tagged, id);
        same_sizes(cells, tagged, id, cells[id].count as nat);
    }
    let rows = located(cells, links);
    let ids = losers(cells, links);
    arrangement_exists(rows);
    repeated_among(sorted(rows), links.len());
    assert forall|k: int| 0 <= k < ids.len() implies (#[trigger] ids[k]) < cells.len() && cells[ids[k] as int].count
        == 0 by {
        let j = choose|j: int| 0 <= j < sorted(rows).len() && #[trigger] sorted(rows)[j].id == ids[k];
        let row = arrangement(rows)[j] as int;
        assert(sorted(rows)[j] == rows[row]);
        assert(links[row].2 == ids[k]);
        link_in_row(links, cells.len(), row);
        assert(holds_children(cells, ids[k] as int));
        assert(tagged[ids[k] as int].link is Some);
    }
    weighty_carries(cells, ids);
}

proof fn same_sizes(a: Seq<Cell>, b: Seq<Cell>, id: int, k: nat)
    requires
        linked(a),
        a.len() == b.len(),
        0 <= id < a.len(),
        k <= a[id].count,
        forall|i: int|
            0 <= i < a.len() ==> (#[trigger] b[i]).size == a[i].size && b[i].logical_size
                == a[i].logical_size && b[i].first == a[i].first && b[i].count == a[i].count,
    ensures
        children_size(a, id, k) == children_size(b, id, k),
        children_logical(a, id, k) == children_logical(b, id, k),
        b[id].size == a[id].size,
        b[id].logical_size == a[id].logical_size,
        b[id].count == a[id].count,
    decreases k,
{
    assert(b[id].first == a[id].first);
    if k > 0 {
        same_sizes(a, b, id, (k - 1) as nat);
        assert(b[a[id].first + k - 1].size == a[a[id].first + k - 1].size);
    }
}

} // verus!
