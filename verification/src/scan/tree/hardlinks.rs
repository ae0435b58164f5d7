//! Hard-linked data counted once.

use super::rebuild::children_in_order;
use super::{cell_le, cells_of, error_in, error_in_row, groups_in_order, in_group};
use super::{linked, node_cell, parent_of, path_of, row_of, shape, table_in_order};
use super::{Cell, Node, NodeId, NodeKind, Shape, Tree, NO_PARENT};
use crate::order::{arrange_range, arrangement, arrangement_by_rank, arrangement_is, arranges};
use crate::order::{arrangement_has_no_duplicates, arrangement_unique, arranges_reaches};
use crate::order::{comes_first, pick};
use crate::order::{reaches, sort, sorted, sorted_of_in_order};
use crate::order::{Ranked, Sortable};
use crate::path::{components, parts, parts_at_most, parts_le, parts_le_antisymmetric};
use crate::path::{parts_le_total, parts_le_transitive, same_parts, views, Part, PartSpec};
use std::collections::HashMap;
use vstd::prelude::*;

verus! {

/// A hard-linked node: whose data it shares, and where it is.
pub struct Linked {
    pub dev: u64,
    pub ino: u64,
    pub path: Vec<Part>,
    pub id: NodeId,
}

/// A [`Linked`] in specifications.
pub struct LinkedSpec {
    pub dev: u64,
    pub ino: u64,
    pub path: Seq<PartSpec>,
    pub id: NodeId,
}

impl View for Linked {
    type V = LinkedSpec;

    open spec fn view(&self) -> LinkedSpec {
        LinkedSpec { dev: self.dev, ino: self.ino, path: views(self.path@), id: self.id }
    }
}

impl Ranked for LinkedSpec {
    /// By `(dev, ino)`, then by path, then by id.
    open spec fn le(self, other: Self) -> bool {
        if self.dev != other.dev {
            self.dev < other.dev
        } else if self.ino != other.ino {
            self.ino < other.ino
        } else if self.path != other.path {
            parts_le(self.path, other.path)
        } else {
            self.id <= other.id
        }
    }

    proof fn le_total(a: Self, b: Self) {
        parts_le_total(a.path, b.path);
    }

    proof fn le_transitive(a: Self, b: Self, c: Self) {
        if a.dev == b.dev && b.dev == c.dev && a.ino == b.ino && b.ino == c.ino && a.path != b.path
            && b.path != c.path {
            parts_le_transitive(a.path, b.path, c.path);
            if a.path == c.path {
                parts_le_antisymmetric(a.path, b.path);
            }
        }
    }
}

impl Ranked for Linked {
    open spec fn le(self, other: Self) -> bool {
        self@.le(other@)
    }

    proof fn le_total(a: Self, b: Self) {
        LinkedSpec::le_total(a@, b@);
    }

    proof fn le_transitive(a: Self, b: Self, c: Self) {
        LinkedSpec::le_transitive(a@, b@, c@);
    }
}

impl Sortable for Linked {
    fn at_most(&self, other: &Self) -> bool {
        if self.dev != other.dev {
            self.dev < other.dev
        } else if self.ino != other.ino {
            self.ino < other.ino
        } else if !same_parts(&self.path, &other.path) {
            parts_at_most(&self.path, &other.path)
        } else {
            self.id <= other.id
        }
    }
}

/// The hard-linked nodes with their paths.
pub open spec fn located(cells: Seq<Cell>, links: Seq<(u64, u64, NodeId)>) -> Seq<LinkedSpec> {
    Seq::new(
        links.len(),
        |i: int|
            LinkedSpec {
                dev: links[i].0,
                ino: links[i].1,
                path: parts(path_of(cells, links[i].2 as int)),
                id: links[i].2,
            },
    )
}

/// Of the first `k` of `rows`, the ids of those that share their data with the row before.
pub open spec fn repeated(rows: Seq<LinkedSpec>, k: nat) -> Seq<NodeId>
    decreases k,
{
    if k == 0 {
        Seq::empty()
    } else {
        let before = repeated(rows, (k - 1) as nat);
        let row = rows[k - 1];
        if k > 1 && rows[k - 2].dev == row.dev && rows[k - 2].ino == row.ino {
            before.push(row.id)
        } else {
            before
        }
    }
}

/// The nodes that do not keep their sizes: of those sharing a `(dev, ino)`, all but the one
/// with the smallest path.
pub open spec fn losers(cells: Seq<Cell>, links: Seq<(u64, u64, NodeId)>) -> Seq<NodeId> {
    repeated(sorted(located(cells, links)), links.len())
}

/// Whether `id` is an ancestor of `node`.
pub open spec fn above(cells: Seq<Cell>, id: int, node: NodeId) -> bool
    decreases node,
{
    match parent_of(cells, node as int) {
        Some(parent) if parent < node => parent == id || above(cells, id, parent),
        _ => false,
    }
}

/// Node `id` without its sizes, and its ancestors without them.
pub open spec fn drained(cells: Seq<Cell>, id: NodeId) -> Seq<Cell> {
    Seq::new(
        cells.len(),
        |i: int|
            if i == id {
                Cell { size: 0, logical_size: 0, ..cells[i] }
            } else if above(cells, i, id) {
                Cell {
                    size: (cells[i].size - cells[id as int].size) as u64,
                    logical_size: (cells[i].logical_size - cells[id as int].logical_size) as u64,
                    ..cells[i]
                }
            } else {
                cells[i]
            },
    )
}

/// The nodes without the sizes of all of `ids`.
pub open spec fn drained_all(cells: Seq<Cell>, ids: Seq<NodeId>) -> Seq<Cell>
    decreases ids.len(),
{
    if ids.len() == 0 {
        cells
    } else {
        drained(drained_all(cells, ids.drop_last()), ids.last())
    }
}

/// Whether every ancestor of `id` weighs at least what `id` does.
pub open spec fn carried(cells: Seq<Cell>, id: NodeId) -> bool {
    &&& id < cells.len()
    &&& forall|i: int|
        #[trigger] above(cells, i, id) ==> cells[i].size >= cells[id as int].size
            && cells[i].logical_size >= cells[id as int].logical_size
}

/// Whether each of `ids`, one after the other, can be taken out of its ancestors.
pub open spec fn carried_all(cells: Seq<Cell>, ids: Seq<NodeId>) -> bool
    decreases ids.len(),
{
    ids.len() == 0 || (carried_all(cells, ids.drop_last()) && carried(
        drained_all(cells, ids.drop_last()),
        ids.last(),
    ))
}

/// A tree with every group of siblings sorted.
pub open spec fn deep_sorted(shape: Shape) -> Shape
    decreases shape,
{
    Shape { children: sorted(all_deep_sorted(shape.children)), ..shape }
}

pub open spec fn all_deep_sorted(shapes: Seq<Shape>) -> Seq<Shape>
    decreases shapes,
{
    if shapes.len() == 0 {
        Seq::empty()
    } else {
        all_deep_sorted(shapes.drop_last()).push(deep_sorted(shapes.last()))
    }
}

pub proof fn all_deep_sorted_at(shapes: Seq<Shape>)
    ensures
        all_deep_sorted(shapes).len() == shapes.len(),
        forall|i: int|
            0 <= i < shapes.len() ==> #[trigger] all_deep_sorted(shapes)[i] == deep_sorted(shapes[i]),
    decreases shapes.len(),
{
    if shapes.len() > 0 {
        all_deep_sorted_at(shapes.drop_last());
    }
}

pub proof fn above_is_smaller(cells: Seq<Cell>, id: int, node: NodeId)
    requires
        above(cells, id, node),
    ensures
        0 <= id < node,
        node < cells.len(),
    decreases node,
{
    let parent = parent_of(cells, node as int)->0;
    if parent != id {
        above_is_smaller(cells, id, parent);
    }
}

/// Sizes say nothing about who is above whom.
pub proof fn above_same(a: Seq<Cell>, b: Seq<Cell>, id: int, node: NodeId)
    requires
        a.len() == b.len(),
        forall|i: int| 0 <= i < a.len() ==> (#[trigger] a[i]).parent == b[i].parent,
    ensures
        above(a, id, node) == above(b, id, node),
    decreases node,
{
    assert(node < a.len() ==> a[node as int].parent == b[node as int].parent);
    match parent_of(a, node as int) {
        Some(parent) if parent < node => above_same(a, b, id, parent),
        _ => {},
    }
}

/// Draining changes sizes alone.
pub proof fn drained_all_keeps(cells: Seq<Cell>, ids: Seq<NodeId>)
    ensures
        drained_all(cells, ids).len() == cells.len(),
        forall|i: int|
            0 <= i < cells.len() ==> {
                let cell = #[trigger] drained_all(cells, ids)[i];
                cell == Cell { size: cell.size, logical_size: cell.logical_size, ..cells[i] }
            },
    decreases ids.len(),
{
    if ids.len() > 0 {
        drained_all_keeps(cells, ids.drop_last());
    }
}

/// Draining keeps what is linked linked.
pub proof fn same_links(a: Seq<Cell>, b: Seq<Cell>)
    requires
        linked(a),
        a.len() == b.len(),
        forall|i: int|
            0 <= i < a.len() ==> (#[trigger] b[i]).parent == a[i].parent && b[i].first == a[i].first
                && b[i].count == a[i].count,
    ensures
        linked(b),
        forall|i: int, j: int| #[trigger] in_group(b, i, j) == in_group(a, i, j),
{
    assert forall|i: int, j: int| #[trigger] in_group(b, i, j) == in_group(a, i, j) by {
        if 0 <= i < a.len() {
            assert(b[i].first == a[i].first);
        }
    }
    assert(b.len() > 0 ==> b[0].parent == a[0].parent);
    assert forall|i: int, j: int| #[trigger] in_group(b, i, j) implies b[j].parent == i by {
        assert(in_group(a, i, j));
        assert(a[i].count > 0);
        assert(a[j].parent == i);
    }
    assert forall|j: int| 0 < j < b.len() implies (#[trigger] b[j].parent) < j && in_group(
        b,
        b[j].parent as int,
        j,
    ) by {
        assert(a[j].parent < j && in_group(a, a[j].parent as int, j));
        assert(in_group(b, b[j].parent as int, j));
    }
    assert forall|i: int, j: int| #[trigger] in_group(b, i, j) && b[j].count > 0 implies b[j].first
        >= b[i].first + b[i].count by {
        assert(in_group(a, i, j));
        assert(a[i].count > 0);
    }
}

/// A node that no loser is below keeps its children's sizes.
proof fn untouched_by_draining(cells: Seq<Cell>, ids: Seq<NodeId>, id: int)
    requires
        linked(cells),
        0 <= id < cells.len(),
        forall|k: int| 0 <= k < ids.len() ==> !above(cells, id, #[trigger] ids[k]),
    ensures
        forall|child: int| #[trigger] in_group(cells, id, child) ==> drained_all(cells, ids)[child] == cells[child],
    decreases ids.len(),
{
    if ids.len() > 0 {
        let less = ids.drop_last();
        let before = drained_all(cells, less);
        assert forall|k: int| 0 <= k < less.len() implies !above(cells, id, #[trigger] less[k]) by {
            assert(less[k] == ids[k]);
        }
        untouched_by_draining(cells, less, id);
        drained_all_keeps(cells, less);
        let last = ids.last();
        assert(ids[ids.len() - 1] == last);
        assert forall|child: int| #[trigger] in_group(cells, id, child) implies drained_all(cells, ids)[child]
            == cells[child] by {
            assert(cells[id].count > 0);
            assert(cells[child].parent == id);
            above_same(before, cells, child, last);
            if child == last {
                assert(above(cells, id, last));
            } else if above(cells, child, last) {
                above_parent(cells, child, last);
            }
        }
    }
}

pub proof fn above_parent(cells: Seq<Cell>, id: int, node: NodeId)
    requires
        linked(cells),
        above(cells, id, node),
        0 < id,
    ensures
        above(cells, cells[id].parent as int, node),
    decreases node,
{
    above_is_smaller(cells, id, node);
    let parent = parent_of(cells, node as int)->0;
    if parent == id {
        assert(cells[id].parent < id);
        assert(parent_of(cells, parent as int) == Some(cells[id].parent));
        assert(above(cells, cells[id].parent as int, parent));
    } else {
        above_parent(cells, id, parent);
    }
}

impl Ranked for Cell {
    open spec fn le(self, other: Self) -> bool {
        cell_le(self, other)
    }

    proof fn le_total(a: Self, b: Self) {
        super::larger_then_name_total(a.size, a.name, b.size, b.name);
    }

    proof fn le_transitive(a: Self, b: Self, c: Self) {
        super::larger_then_name_transitive(a.size, a.name, b.size, b.name, c.size, c.name);
    }
}

/// Where `id` stands in `order`.
pub open spec fn slot(order: Seq<usize>, id: int) -> int {
    choose|k: int| 0 <= k < order.len() && order[k] == id
}

/// Whether `id` is one of the ids from `start` on that `order` rearranges.
pub open spec fn in_range(start: int, order: Seq<usize>, id: int) -> bool {
    start <= id < start + order.len()
}

/// Cells whose range from `start` on is put in the given order, the nodes below following
/// their parents.
pub open spec fn resorted(cells: Seq<Cell>, start: int, order: Seq<usize>) -> Seq<Cell> {
    Seq::new(
        cells.len(),
        |j: int|
            if in_range(start, order, j) {
                cells[order[j - start] as int]
            } else if in_range(start, order, cells[j].parent as int) {
                Cell { parent: (start + slot(order, cells[j].parent as int)) as u32, ..cells[j] }
            } else {
                cells[j]
            },
    )
}

proof fn slot_is<T: Ranked>(s: Seq<T>, order: Seq<usize>, lo: int, hi: int, k: int)
    requires
        arranges(s, order, lo, hi),
        0 <= k < order.len(),
    ensures
        slot(order, order[k] as int) == k,
{
    arrangement_has_no_duplicates(s, order, lo, hi);
    let found = slot(order, order[k] as int);
    assert(order[k] == order[k] as int);
    assert(order[found] == order[k]);
}

proof fn slot_found<T: Ranked>(s: Seq<T>, order: Seq<usize>, lo: int, hi: int, id: int)
    requires
        arranges(s, order, lo, hi),
        lo <= id < hi,
        0 <= lo,
        hi <= usize::MAX,
    ensures
        0 <= slot(order, id) < order.len(),
        order[slot(order, id)] == id,
{
    arranges_reaches(s, order, lo, hi, id);
}

/// What sorting the group of `x` again does to the groups.
proof fn resorted_groups(cells: Seq<Cell>, x: int, order: Seq<usize>)
    requires
        linked(cells),
        0 <= x < cells.len(),
        arranges(cells, order, cells[x].first as int, cells[x].first + cells[x].count),
    ensures
        forall|i: int, j: int|
            #[trigger] in_group(resorted(cells, cells[x].first as int, order), i, j) == (if in_range(
                cells[x].first as int,
                order,
                i,
            ) {
                in_group(cells, order[i - cells[x].first] as int, j)
            } else {
                in_group(cells, i, j)
            }),
        forall|i: int, j: int|
            #[trigger] in_group(cells, i, j) && i != x ==> !in_range(cells[x].first as int, order, j),
{
    let start = cells[x].first as int;
    let after = resorted(cells, start, order);
    assert(cells[x].count > 0 ==> start + cells[x].count <= cells.len());
    assert forall|i: int, j: int| #[trigger] in_group(after, i, j) == (if in_range(start, order, i) {
        in_group(cells, order[i - start] as int, j)
    } else {
        in_group(cells, i, j)
    }) by {
        if in_range(start, order, i) {
            assert(after[i] == cells[order[i - start] as int]);
        } else if 0 <= i < cells.len() {
            assert(after[i].first == cells[i].first && after[i].count == cells[i].count);
        }
    }
    assert forall|i: int, j: int| #[trigger] in_group(cells, i, j) && i != x implies !in_range(start, order, j) by {
        if in_range(start, order, j) {
            assert(in_group(cells, x, j));
        }
    }
}

proof fn resorted_linked(cells: Seq<Cell>, x: int, order: Seq<usize>)
    requires
        linked(cells),
        0 <= x < cells.len(),
        arranges(cells, order, cells[x].first as int, cells[x].first + cells[x].count),
    ensures
        linked(resorted(cells, cells[x].first as int, order)),
{
    let start = cells[x].first as int;
    let end = start + cells[x].count;
    let after = resorted(cells, start, order);
    if order.len() == 0 {
        assert(after =~= cells);
    } else {
        resorted_groups(cells, x, order);
        assert(x < start && end <= cells.len());
        assert forall|k: int| 0 <= k < order.len() implies in_group(cells, x, #[trigger] order[k] as int) by {}
        assert(after[0] == cells[0]);
        assert forall|i: int| 0 <= i < after.len() implies {
            let cell = #[trigger] after[i];
            if cell.count == 0 {
                cell.first == 0
            } else {
                i < cell.first && cell.first + cell.count <= after.len()
            }
        } by {
            if in_range(start, order, i) {
                let old = order[i - start] as int;
                assert(in_group(cells, x, old));
                assert(after[i] == cells[old]);
            } else {
                assert(after[i].first == cells[i].first && after[i].count == cells[i].count);
            }
        }
        assert forall|i: int, j: int| #[trigger] in_group(after, i, j) implies after[j].parent == i by {
            if in_range(start, order, i) {
                let old = order[i - start] as int;
                assert(in_group(cells, x, old));
                assert(in_group(cells, old, j));
                assert(!in_range(start, order, j));
                assert(cells[old].count > 0);
                slot_is(cells, order, start, end, i - start);
                assert(cells[j].parent == old);
            } else if i == x {
                assert(in_group(cells, x, j));
                assert(in_group(cells, x, order[j - start] as int));
            } else {
                assert(in_group(cells, i, j));
                assert(cells[i].count > 0);
                assert(cells[j].parent == i);
            }
        }
        assert forall|j: int| 0 < j < after.len() implies (#[trigger] after[j].parent) < j && in_group(
            after,
            after[j].parent as int,
            j,
        ) by {
            if in_range(start, order, j) {
                assert(in_group(cells, x, order[j - start] as int));
                assert(in_group(cells, x, j));
                assert(after[j].parent == x);
                assert(in_group(after, x, j));
            } else {
                let p = cells[j].parent as int;
                assert(cells[j].parent < j && in_group(cells, p, j));
                if in_range(start, order, p) {
                    slot_found(cells, order, start, end, p);
                    let q = start + slot(order, p);
                    assert(in_group(cells, x, p));
                    assert(cells[p].count > 0);
                    assert(cells[p].first >= end);
                    assert(after[j].parent == q);
                    assert(in_group(after, q, j));
                } else {
                    assert(after[j].parent == p);
                    assert(in_group(after, p, j));
                }
            }
        }
        assert forall|i: int, j: int| #[trigger] in_group(after, i, j) && after[j].count > 0 implies after[j].first
            >= after[i].first + after[i].count by {
            if in_range(start, order, i) {
                let old = order[i - start] as int;
                assert(in_group(cells, x, old));
                assert(in_group(cells, old, j));
                assert(!in_range(start, order, j));
            } else if i == x {
                let old = order[j - start] as int;
                assert(in_group(cells, x, old));
            } else {
                assert(in_group(cells, i, j));
                assert(!in_range(start, order, j));
            }
        }
    }
}

/// Sorting the group of `x` again leaves the trees below it as they are.
proof fn resorted_shape(cells: Seq<Cell>, x: int, order: Seq<usize>, id: int)
    requires
        linked(cells),
        0 <= x < id < cells.len(),
        order.len() > 0,
        arranges(cells, order, cells[x].first as int, cells[x].first + cells[x].count),
        !in_range(cells[x].first as int, order, id),
    ensures
        shape(resorted(cells, cells[x].first as int, order), id) == shape(cells, id),
    decreases cells.len() - id,
{
    let start = cells[x].first as int;
    let after = resorted(cells, start, order);
    let cell = cells[id];
    resorted_groups(cells, x, order);
    assert(after[id].first == cell.first && after[id].count == cell.count);
    let new = shape(after, id);
    let old = shape(cells, id);
    assert forall|k: int| 0 <= k < cell.count implies new.children[k] == old.children[k] by {
        let child = cell.first + k;
        assert(in_group(cells, id, child));
        assert(id < child < cells.len());
        resorted_shape(cells, x, order, child);
    }
    assert(new.children =~= old.children);
}

/// A member of the group keeps the tree below it where it goes.
proof fn resorted_member(cells: Seq<Cell>, x: int, order: Seq<usize>, k: int)
    requires
        linked(cells),
        0 <= x < cells.len(),
        0 <= k < order.len(),
        arranges(cells, order, cells[x].first as int, cells[x].first + cells[x].count),
    ensures
        shape(resorted(cells, cells[x].first as int, order), cells[x].first + k) == shape(
            cells,
            order[k] as int,
        ),
{
    let start = cells[x].first as int;
    let after = resorted(cells, start, order);
    let id = order[k] as int;
    let cell = cells[id];
    resorted_groups(cells, x, order);
    assert(start + cells[x].count <= cells.len());
    assert(after[start + k] == cell);
    assert(in_group(cells, x, id));
    let new = shape(after, start + k);
    let old = shape(cells, id);
    assert forall|c: int| 0 <= c < cell.count implies new.children[c] == old.children[c] by {
        let child = cell.first + c;
        assert(in_group(cells, id, child));
        assert(cell.first >= start + cells[x].count);
        resorted_shape(cells, x, order, child);
    }
    assert(new.children =~= old.children);
}

/// `now` is `start` with the groups of every node from `from` on sorted again: the nodes
/// whose parents are still to come have not moved.
pub open spec fn settled(start: Seq<Cell>, now: Seq<Cell>, from: int) -> bool {
    &&& now.len() == start.len()
    &&& linked(now)
    &&& forall|y: int| 0 <= y < now.len() && (y == 0 || start[y].parent < from) ==> #[trigger] now[y] == start[y]
    &&& forall|y: int|
        from <= y < now.len() && (y == 0 || start[y].parent < from) ==> #[trigger] shape(now, y)
            == deep_sorted(shape(start, y))
    &&& forall|q: int, j: int, k: int|
        from <= q && #[trigger] in_group(now, q, j) && #[trigger] in_group(now, q, k) && j < k ==> cell_le(
            now[j],
            now[k],
        )
}

/// Whether `order` sorts the group of node `x`, ties staying in place.
pub open spec fn sorts_group(cells: Seq<Cell>, order: Seq<usize>, x: int) -> bool {
    arranges(cells, order, cells[x].first as int, cells[x].first + cells[x].count)
}

/// The order that sorts the group of node `x`.
pub open spec fn group_order(cells: Seq<Cell>, x: int) -> Seq<usize> {
    choose|order: Seq<usize>| sorts_group(cells, order, x)
}

/// Cells with the groups of every node from `from` on sorted, those of the deeper nodes first.
/// A group stays in its range of ids.
pub open spec fn regrouped(cells: Seq<Cell>, from: int) -> Seq<Cell>
    decreases cells.len() - from,
{
    if from >= cells.len() {
        cells
    } else {
        let now = regrouped(cells, from + 1);
        resorted(now, now[from].first as int, group_order(now, from))
    }
}

proof fn group_order_is(cells: Seq<Cell>, x: int, order: Seq<usize>)
    requires
        linked(cells),
        0 <= x < cells.len(),
        arranges(cells, order, cells[x].first as int, cells[x].first + cells[x].count),
    ensures
        group_order(cells, x) == order,
{
    let lo = cells[x].first as int;
    assert(sorts_group(cells, order, x));
    arrangement_unique(cells, group_order(cells, x), order, lo, lo + cells[x].count);
}

/// Sorting the group of the next node keeps everything from that node on settled.
proof fn settle(start: Seq<Cell>, now: Seq<Cell>, x: int, order: Seq<usize>)
    requires
        linked(start),
        0 <= x < start.len(),
        settled(start, now, x + 1),
        arranges(now, order, now[x].first as int, now[x].first + now[x].count),
    ensures
        settled(start, resorted(now, now[x].first as int, order), x),
{
    let lo = now[x].first as int;
    let hi = lo + now[x].count;
    let after = resorted(now, lo, order);
    resorted_linked(now, x, order);
    resorted_groups(now, x, order);
    if x == 0 {
        assert(start[0].parent == NO_PARENT);
    } else {
        assert(start[x].parent < x);
    }
    assert(now[x] == start[x]);
    assert(order.len() > 0 ==> x < lo && hi <= now.len());
    assert forall|c: int| in_range(lo, order, c) implies #[trigger] start[c].parent == x && now[c].parent == x by {
        assert(in_group(start, x, c));
        assert(in_group(now, x, c));
    }
    assert forall|y: int| 0 <= y < after.len() && (y == 0 || start[y].parent < x) implies #[trigger] after[y]
        == start[y] by {
        assert(now[y] == start[y]);
        assert(!in_range(lo, order, y));
        if y == 0 {
            assert(start[0].parent == NO_PARENT);
        }
    }
    assert forall|y: int| x <= y < after.len() && (y == 0 || start[y].parent < x) implies #[trigger] shape(after, y)
        == deep_sorted(shape(start, y)) by {
        if y == x {
            settle_node(start, now, x, order);
        } else {
            assert(!in_range(lo, order, y));
            assert(shape(now, y) == deep_sorted(shape(start, y)));
            if order.len() > 0 {
                resorted_shape(now, x, order, y);
            } else {
                assert(after =~= now);
            }
        }
    }
    assert forall|q: int, j: int, k: int| x <= q && #[trigger] in_group(after, q, j) && #[trigger] in_group(after, q, k) && j
        < k implies cell_le(after[j], after[k]) by {
        if in_range(lo, order, q) {
            let old = order[q - lo] as int;
            assert(in_group(now, old, j) && in_group(now, old, k));
            assert(!in_range(lo, order, j) && !in_range(lo, order, k));
            assert(cell_le(now[j], now[k]));
        } else if q == x {
            assert(in_group(now, x, j) && in_group(now, x, k));
            assert(comes_first(now, order[j - lo] as int, order[k - lo] as int));
        } else {
            assert(in_group(now, q, j) && in_group(now, q, k));
            assert(!in_range(lo, order, j) && !in_range(lo, order, k));
            assert(cell_le(now[j], now[k]));
        }
    }
}

proof fn settle_node(start: Seq<Cell>, now: Seq<Cell>, x: int, order: Seq<usize>)
    requires
        linked(start),
        0 <= x < start.len(),
        settled(start, now, x + 1),
        now[x] == start[x],
        arranges(now, order, now[x].first as int, now[x].first + now[x].count),
    ensures
        shape(resorted(now, now[x].first as int, order), x) == deep_sorted(shape(start, x)),
{
    let lo = now[x].first as int;
    let count = now[x].count as int;
    let after = resorted(now, lo, order);
    let old = shape(start, x).children;
    let sorts = all_deep_sorted(old);
    all_deep_sorted_at(old);
    resorted_groups(now, x, order);
    if count > 0 {
        assert(x < lo && lo + count <= now.len());
        assert(!in_range(lo, order, x));
        assert(!in_range(lo, order, now[x].parent as int)) by {
            if x == 0 {
                assert(now[0].parent == NO_PARENT);
            } else {
                assert(now[x].parent < x);
            }
        }
        assert(after[x] == now[x]);
    } else {
        assert(after =~= now);
    }
    assert forall|k: int| 0 <= k < count implies #[trigger] sorts[k] == shape(now, lo + k) by {
        assert(in_group(start, x, lo + k));
        assert(old[k] == shape(start, lo + k));
        assert(start[lo + k].parent == x);
    }
    let relative = Seq::new(order.len(), |k: int| (order[k] - lo) as usize);
    assert(arranges(sorts, relative, 0, sorts.len() as int)) by {
        assert forall|a: int, b: int| 0 <= a < b < relative.len() implies #[trigger] comes_first(
            sorts,
            relative[a] as int,
            relative[b] as int,
        ) by {
            assert(comes_first(now, order[a] as int, order[b] as int));
            assert(sorts[relative[a] as int] == shape(now, order[a] as int));
            assert(sorts[relative[b] as int] == shape(now, order[b] as int));
        }
    }
    arrangement_is(sorts, relative);
    let new = shape(after, x);
    assert forall|k: int| 0 <= k < count implies new.children[k] == sorted(sorts)[k] by {
        resorted_member(now, x, order, k);
        assert(new.children[k] == shape(after, lo + k));
        assert(sorted(sorts)[k] == sorts[relative[k] as int]);
        assert(sorts[relative[k] as int] == shape(now, order[k] as int));
    }
    assert(new.children =~= sorted(sorts));
}

/// A group that is in order already needs no sorting.
proof fn settle_in_order(start: Seq<Cell>, now: Seq<Cell>, x: int)
    requires
        linked(start),
        0 <= x < start.len(),
        settled(start, now, x + 1),
        forall|j: int, k: int|
            #[trigger] in_group(start, x, j) && #[trigger] in_group(start, x, k) && j < k ==> cell_le(
                start[j],
                start[k],
            ),
    ensures
        settled(start, now, x),
        resorted(now, now[x].first as int, group_order(now, x)) == now,
{
    if x == 0 {
        assert(start[0].parent == NO_PARENT);
    } else {
        assert(start[x].parent < x);
    }
    assert(now[x] == start[x]);
    let lo = now[x].first as int;
    let count = now[x].count as int;
    let order = Seq::new(count as nat, |k: int| (lo + k) as usize);
    assert(arranges(now, order, lo, lo + count)) by {
        assert forall|a: int, b: int| 0 <= a < b < order.len() implies #[trigger] comes_first(
            now,
            order[a] as int,
            order[b] as int,
        ) by {
            assert(in_group(start, x, lo + a) && in_group(start, x, lo + b));
            assert(start[lo + a].parent == x && start[lo + b].parent == x);
            assert(now[lo + a] == start[lo + a] && now[lo + b] == start[lo + b]);
            assert(cell_le(start[lo + a], start[lo + b]));
        }
    }
    settle(start, now, x, order);
    group_order_is(now, x, order);
    let after = resorted(now, lo, order);
    assert forall|j: int| 0 <= j < now.len() implies after[j] == now[j] by {
        if in_range(lo, order, j) {
            assert(order[j - lo] == j);
        } else {
            let p = now[j].parent as int;
            if in_range(lo, order, p) {
                slot_found(now, order, lo, lo + count, p);
            }
        }
    }
    assert(after =~= now);
}

/// The nodes of an arena without what the side tables say.
spec fn bare(nodes: Seq<Node>) -> Seq<Cell> {
    Seq::new(nodes.len(), |i: int| node_cell(nodes[i], None, None))
}

/// The nodes of an arena, each with the error that was recorded for the id it had before.
spec fn carrying(nodes: Seq<Node>, errors: Seq<(NodeId, Box<str>)>, was: Seq<int>) -> Seq<Cell> {
    Seq::new(nodes.len(), |i: int| node_cell(nodes[i], error_in(errors, was[i]), None))
}

/// A node to stand where one has been taken out: nameless, of no weight, without relatives.
fn vacant() -> (node: Node)
    ensures
        node.name@ == ""@,
        node.kind == NodeKind::Other,
        node.size == 0,
        node.logical_size == 0,
        node.file_count == 0,
        node.mtime == 0,
        node.links.parent() == NO_PARENT,
        node.links.first() == 0,
        node.links.count() == 0,
{
    Node::new("", NodeKind::Other, 0, 0, 0, 0)
}

/// Where a node that had this id is now.
spec fn now_at(moved: Map<NodeId, NodeId>, id: int) -> int {
    if 0 <= id <= u32::MAX && moved.contains_key(id as NodeId) {
        moved[id as NodeId] as int
    } else {
        id
    }
}

/// What putting a range in order adds to the record of who moved.
spec fn records(before: Map<NodeId, NodeId>, after: Map<NodeId, NodeId>, lo: int, order: Seq<usize>) -> bool {
    &&& forall|id: int| !in_range(lo, order, id) ==> #[trigger] now_at(after, id) == now_at(before, id)
    &&& forall|id: int|
        0 <= id <= u32::MAX && !in_range(lo, order, id) ==> #[trigger] after.contains_key(id as NodeId)
            == before.contains_key(id as NodeId)
    &&& forall|k: int| 0 <= k < order.len() ==> now_at(after, #[trigger] order[k] as int) == lo + k
}

/// Sorts the children of `parent` again after their sizes changed, recording every
/// node that changed id in `moved` (old id to new id).
fn resort_children(
    nodes: &mut Vec<Node>,
    parent: NodeId,
    moved: &mut HashMap<NodeId, NodeId>,
) -> (order: Vec<usize>)
    requires
        linked(bare(old(nodes)@)),
        parent < old(nodes).len(),
        forall|id: NodeId|
            in_group(bare(old(nodes)@), parent as int, id as int) ==> !#[trigger] old(moved)@.contains_key(id),
    ensures
        arranges(
            bare(old(nodes)@),
            order@,
            bare(old(nodes)@)[parent as int].first as int,
            bare(old(nodes)@)[parent as int].first + bare(old(nodes)@)[parent as int].count,
        ),
        bare(final(nodes)@) == resorted(
            bare(old(nodes)@),
            bare(old(nodes)@)[parent as int].first as int,
            order@,
        ),
        records(
            old(moved)@,
            final(moved)@,
            bare(old(nodes)@)[parent as int].first as int,
            order@,
        ),
{
    broadcast use vstd::std_specs::hash::group_hash_axioms;

    let ghost before = nodes@;
    let ghost cells = bare(before);
    let start: usize = nodes[parent as usize].links.first_child as usize;
    let count: usize = nodes[parent as usize].links.child_count as usize;
    assert(cells[parent as int].count == count && cells[parent as int].first == start);
    let end: usize = start + count;
    if count == 0 {
        let order: Vec<usize> = Vec::new();
        proof {
            assert(resorted(cells, start as int, order@) =~= cells);
        }
        return order;
    }
    let order: Vec<usize> = arrange_range(nodes, start, end);
    proof {
        assert forall|a: int, b: int| 0 <= a < b < order@.len() implies #[trigger] comes_first(
            cells,
            order@[a] as int,
            order@[b] as int,
        ) by {
            assert(comes_first(before, order@[a] as int, order@[b] as int));
        }
        assert(arranges(cells, order@, start as int, end as int));
        arrangement_has_no_duplicates(before, order@, start as int, end as int);
    }
    // The group is taken out, put in order and put back.
    let mut block: Vec<Node> = Vec::new();
    let mut positions: Vec<usize> = Vec::new();
    let mut k: usize = 0;
    while k < count
        invariant
            k <= count,
            end == start + count,
            end <= nodes.len() == before.len(),
            order.len() == count,
            forall|j: int| 0 <= j < order.len() ==> start <= #[trigger] order@[j] < end,
            block@ == before.subrange(start as int, start + k),
            positions.len() == k,
            forall|j: int| 0 <= j < k ==> #[trigger] positions@[j] == order@[j] - start,
            forall|j: int|
                0 <= j < before.len() && !(start <= j < start + k) ==> #[trigger] nodes@[j] == before[j],
        decreases count - k,
    {
        let mut taken: Node = vacant();
        core::mem::swap(&mut taken, &mut nodes[start + k]);
        block.push(taken);
        positions.push(order[k] - start);
        assert(before.subrange(start as int, start + k + 1) =~= before.subrange(
            start as int,
            start + k,
        ).push(before[start + k]));
        k += 1;
    }
    assert(positions@.no_duplicates()) by {
        assert forall|a: int, b: int| 0 <= a < positions@.len() && 0 <= b < positions@.len() && a != b implies positions@[a]
            != positions@[b] by {
            assert(order@[a] != order@[b]);
        }
    }
    let block: Vec<Node> = pick(block, &positions);
    let ghost picks = block@;
    assert forall|j: int| 0 <= j < count implies #[trigger] picks[j] == before[order@[j] as int] by {}
    let mut k: usize = 0;
    for node in it: block
        invariant
            it.seq() == picks,
            picks.len() == count,
            k == it.index(),
            end == start + count,
            end <= nodes.len() == before.len(),
            forall|j: int| 0 <= j < k ==> #[trigger] nodes@[start + j] == picks[j],
            forall|j: int|
                0 <= j < before.len() && !(start <= j < end) ==> #[trigger] nodes@[j] == before[j],
    {
        nodes[start + k] = node;
        k += 1;
    }
    let ghost placed = nodes@;
    assert forall|j: int| start <= j < end implies #[trigger] placed[j] == before[order@[j - start] as int] by {
        assert(placed[start + (j - start)] == picks[j - start]);
    }
    relink(nodes, start, end, Ghost(cells), Ghost(parent as int), Ghost(order@));
    let ghost was = moved@;
    let mut k: usize = 0;
    proof {
        resorted_groups(cells, parent as int, order@);
    }
    while k < count
        invariant
            k <= count,
            count == order.len(),
            end == start + count <= u32::MAX,
            order@.no_duplicates(),
            forall|j: int| 0 <= j < order.len() ==> start <= #[trigger] order@[j] < end,
            forall|id: int| !in_range(start as int, order@, id) ==> #[trigger] now_at(moved@, id) == now_at(was, id),
            forall|id: int|
                0 <= id <= u32::MAX && !in_range(start as int, order@, id) ==> #[trigger] moved@.contains_key(
                    id as NodeId,
                ) == was.contains_key(id as NodeId),
            forall|j: int| 0 <= j < k ==> now_at(moved@, #[trigger] order@[j] as int) == start + j,
            forall|j: int| k <= j < order.len() ==> !moved@.contains_key(#[trigger] order@[j] as NodeId),
        decreases count - k,
    {
        let ghost so_far = moved@;
        let old_id: NodeId = order[k] as NodeId;
        let new_id: NodeId = (start + k) as NodeId;
        if old_id != new_id {
            moved.insert(old_id, new_id);
        }
        assert forall|id: int| !in_range(start as int, order@, id) implies #[trigger] now_at(moved@, id) == now_at(
            was,
            id,
        ) by {
            assert(now_at(so_far, id) == now_at(was, id));
        }
        assert forall|j: int| 0 <= j <= k implies now_at(moved@, #[trigger] order@[j] as int) == start + j by {
            if j < k {
                assert(order@[j] != order@[k as int]);
                assert(now_at(so_far, order@[j] as int) == start + j);
            }
        }
        assert forall|j: int| k < j < order.len() implies !moved@.contains_key(#[trigger] order@[j] as NodeId) by {
            assert(order@[j] != order@[k as int]);
        }
        k += 1;
    }
    order
}

/// Points the children of every node in `start..end` back at it.
fn relink(
    nodes: &mut Vec<Node>,
    start: usize,
    end: usize,
    Ghost(cells): Ghost<Seq<Cell>>,
    Ghost(parent): Ghost<int>,
    Ghost(order): Ghost<Seq<usize>>,
)
    requires
        linked(cells),
        0 <= parent < cells.len(),
        start == cells[parent].first,
        end == start + cells[parent].count,
        start < end,
        arranges(cells, order, start as int, end as int),
        old(nodes).len() == cells.len(),
        forall|j: int|
            0 <= j < cells.len() ==> node_cell(#[trigger] old(nodes)@[j], None, None) == if start <= j < end {
                cells[order[j - start] as int]
            } else {
                cells[j]
            },
    ensures
        bare(final(nodes)@) == resorted(cells, start as int, order),
{
    let ghost before = nodes@;
    let ghost after = resorted(cells, start as int, order);
    proof {
        resorted_linked(cells, parent, order);
        resorted_groups(cells, parent, order);
    }
    let mut id: usize = start;
    while id < end
        invariant
            start <= id <= end <= nodes.len() == cells.len(),
            cells.len() <= u32::MAX,
            linked(cells),
            linked(after),
            after == resorted(cells, start as int, order),
            0 <= parent < cells.len(),
            start == cells[parent].first,
            end == start + cells[parent].count,
            start < end,
            arranges(cells, order, start as int, end as int),
            forall|i: int, j: int|
                #[trigger] in_group(after, i, j) == (if in_range(start as int, order, i) {
                    in_group(cells, order[i - start] as int, j)
                } else {
                    in_group(cells, i, j)
                }),
            forall|i: int, j: int|
                #[trigger] in_group(cells, i, j) && i != parent ==> !in_range(start as int, order, j),
            forall|j: int|
                0 <= j < cells.len() ==> node_cell(#[trigger] nodes@[j], None, None) == if start
                    <= after[j].parent < id {
                    after[j]
                } else if start <= j < end {
                    cells[order[j - start] as int]
                } else {
                    cells[j]
                },
        decreases end - id,
    {
        let first: usize = nodes[id].links.first_child as usize;
        let count: usize = nodes[id].links.child_count as usize;
        proof {
            let own = after[id as int];
            assert(own == cells[order[id - start] as int]);
            assert(in_group(cells, parent, order[id - start] as int));
            assert(node_cell(nodes@[id as int], None, None).first == own.first);
            assert(node_cell(nodes@[id as int], None, None).count == own.count);
            assert(in_group(after, parent, id as int));
            assert(own.parent == parent);
            assert(own.count > 0 ==> own.first >= end && own.first + own.count <= cells.len());
        }
        let mut child: usize = 0;
        while child < count
            invariant
                child <= count,
                start <= id < end <= nodes.len() == cells.len(),
                cells.len() <= u32::MAX,
                linked(after),
                linked(cells),
                after == resorted(cells, start as int, order),
                first == after[id as int].first,
                count == after[id as int].count,
                count > 0 ==> end <= first && first + count <= cells.len(),
                start == cells[parent].first,
                end == start + cells[parent].count,
                order.len() == end - start,
                forall|j: int|
                    0 <= j < cells.len() ==> node_cell(#[trigger] nodes@[j], None, None) == if (start
                        <= after[j].parent < id) || (first <= j < first + child) {
                        after[j]
                    } else if start <= j < end {
                        cells[order[j - start] as int]
                    } else {
                        cells[j]
                    },
            decreases count - child,
        {
            let ghost so_far = nodes@;
            let at: usize = first + child;
            proof {
                assert(in_group(after, id as int, at as int));
                assert(after[at as int].parent == id);
            }
            nodes[at].links.parent = id as u32;
            assert(node_cell(nodes@[at as int], None, None) == Cell {
                parent: id as u32,
                ..node_cell(so_far[at as int], None, None)
            });
            assert(after[at as int] == Cell { parent: after[at as int].parent, ..cells[at as int] });
            child += 1;
        }
        proof {
            assert forall|j: int| 0 <= j < cells.len() implies node_cell(
                #[trigger] nodes@[j],
                None,
                None,
            ) == (if start <= after[j].parent < id + 1 {
                after[j]
            } else if start <= j < end {
                cells[order[j - start] as int]
            } else {
                cells[j]
            }) by {
                if after[j].parent == id {
                    if j == 0 {
                        assert(after[0].parent == NO_PARENT);
                    }
                    assert(in_group(after, id as int, j));
                }
                if first <= j < first + count {
                    assert(in_group(after, id as int, j));
                }
            }
        }
        id += 1;
    }
    proof {
        assert forall|j: int| 0 <= j < cells.len() implies #[trigger] bare(nodes@)[j] == after[j] by {
            assert(node_cell(nodes@[j], None, None) == bare(nodes@)[j]);
            if !(start <= after[j].parent < end) && !(start <= j < end) {
                let p = cells[j].parent as int;
                if in_range(start as int, order, p) {
                    slot_found(cells, order, start as int, end as int, p);
                }
            }
        }
        assert(bare(nodes@) =~= after);
    }
}

/// Every node is where the record says that the node of its old id went.
spec fn tracks_back(was: Seq<int>, moved: Map<NodeId, NodeId>) -> bool {
    forall|j: int|
        0 <= j < was.len() ==> 0 <= #[trigger] was[j] < was.len() && now_at(moved, was[j]) == j
}

/// Every old id is found where the record says it went.
spec fn tracks_forth(was: Seq<int>, moved: Map<NodeId, NodeId>) -> bool {
    forall|y: int|
        0 <= y < was.len() ==> 0 <= #[trigger] now_at(moved, y) < was.len() && was[now_at(moved, y)] == y
}

/// Nodes whose parents come before `from` have not moved.
spec fn tracks_still(start: Seq<Cell>, was: Seq<int>, moved: Map<NodeId, NodeId>, from: int) -> bool {
    forall|y: int|
        0 <= y < was.len() && (y == 0 || start[y].parent < from) ==> #[trigger] was[y] == y
            && !moved.contains_key(y as NodeId)
}

/// The ids nodes had (`was`) and the record of who moved agree.
spec fn tracks(start: Seq<Cell>, was: Seq<int>, moved: Map<NodeId, NodeId>, from: int) -> bool {
    &&& was.len() == start.len()
    &&& tracks_back(was, moved)
    &&& tracks_forth(was, moved)
    &&& tracks_still(start, was, moved, from)
}

spec fn was_after(was: Seq<int>, lo: int, order: Seq<usize>) -> Seq<int> {
    Seq::new(
        was.len(),
        |j: int|
            if in_range(lo, order, j) {
                was[order[j - lo] as int]
            } else {
                was[j]
            },
    )
}

proof fn tracks_on(
    start: Seq<Cell>,
    was: Seq<int>,
    before: Map<NodeId, NodeId>,
    after: Map<NodeId, NodeId>,
    x: int,
    order: Seq<usize>,
)
    requires
        linked(start),
        0 <= x < start.len(),
        tracks(start, was, before, x + 1),
        order.len() == start[x].count,
        order.no_duplicates(),
        forall|k: int|
            0 <= k < order.len() ==> start[x].first <= #[trigger] order[k] < start[x].first + order.len(),
        forall|i: int| in_range(start[x].first as int, order, i) ==> #[trigger] reaches(order, i),
        records(before, after, start[x].first as int, order),
    ensures
        tracks(start, was_after(was, start[x].first as int, order), after, x),
{
    let lo = start[x].first as int;
    let next = was_after(was, lo, order);
    assert(start[x].count > 0 ==> lo + order.len() <= start.len());
    assert forall|c: int| in_range(lo, order, c) implies #[trigger] was[c] == c && !before.contains_key(
        c as NodeId,
    ) && start[c].parent == x by {
        assert(in_group(start, x, c));
    }
    assert(tracks_back(next, after)) by {
        assert forall|j: int| 0 <= j < next.len() implies 0 <= #[trigger] next[j] < next.len() && now_at(
            after,
            next[j],
        ) == j by {
            if in_range(lo, order, j) {
                let old = order[j - lo] as int;
                assert(was[old] == old);
                assert(now_at(after, order[j - lo] as int) == j);
            } else {
                assert(now_at(before, was[j]) == j);
                if in_range(lo, order, was[j]) {
                    assert(was[was[j]] == was[j]);
                    assert(now_at(before, was[j]) == was[j]);
                }
                assert(now_at(after, was[j]) == now_at(before, was[j]));
            }
        }
    }
    assert(tracks_forth(next, after)) by {
        assert forall|y: int| 0 <= y < next.len() implies 0 <= #[trigger] now_at(after, y) < next.len() && next[now_at(
            after,
            y,
        )] == y by {
            if in_range(lo, order, y) {
                assert(reaches(order, y));
                let k = choose|k: int| 0 <= k < order.len() && order[k] == y;
                assert(now_at(after, order[k] as int) == lo + k);
                assert(was[y] == y);
            } else {
                assert(now_at(after, y) == now_at(before, y));
                let j = now_at(before, y);
                assert(was[j] == y);
                if in_range(lo, order, j) {
                    assert(was[j] == j);
                }
            }
        }
    }
    assert(tracks_still(start, next, after, x)) by {
        assert forall|y: int| 0 <= y < next.len() && (y == 0 || start[y].parent < x) implies #[trigger] next[y] == y
            && !after.contains_key(y as NodeId) by {
            if in_range(lo, order, y) {
                assert(was[y] == y);
                assert(start[y].parent == x);
                assert(y != 0);
            }
            assert(was[y] == y);
            assert(after.contains_key(y as NodeId) == before.contains_key(y as NodeId));
        }
    }
}

/// Nodes above `node` that come before `current`, itself on the way up, are above `current`.
proof fn above_on_the_way(cells: Seq<Cell>, i: int, current: NodeId, node: NodeId)
    requires
        above(cells, i, node),
        i < current,
        current == node || above(cells, current as int, node),
    ensures
        above(cells, i, current),
    decreases node,
{
    if current != node {
        let parent = parent_of(cells, node as int)->0;
        if current != parent {
            above_is_smaller(cells, current as int, parent);
            above_on_the_way(cells, i, current, parent);
        }
    }
}

proof fn above_through(cells: Seq<Cell>, i: int, current: NodeId, node: NodeId)
    requires
        above(cells, i, current),
        current == node || above(cells, current as int, node),
    ensures
        above(cells, i, node),
    decreases node,
{
    if current != node {
        let parent = parent_of(cells, node as int)->0;
        if current != parent {
            above_through(cells, i, current, parent);
        }
    }
}

/// `drained`, as far up as `current`.
spec fn drained_up_to(cells: Seq<Cell>, id: NodeId, current: NodeId) -> Seq<Cell> {
    Seq::new(
        cells.len(),
        |i: int|
            if i < current {
                cells[i]
            } else {
                drained(cells, id)[i]
            },
    )
}

/// Takes the sizes of node `id` out of it and of its ancestors, which are marked.
fn drain(nodes: &mut Vec<Node>, id: NodeId, dirty: &mut Vec<bool>)
    requires
        linked(bare(old(nodes)@)),
        carried(bare(old(nodes)@), id),
        old(dirty).len() == old(nodes).len(),
    ensures
        bare(final(nodes)@) == drained(bare(old(nodes)@), id),
        final(dirty).len() == old(dirty).len(),
        forall|i: int|
            0 <= i < final(dirty).len() ==> #[trigger] final(dirty)@[i] == (old(dirty)@[i] || above(
                bare(old(nodes)@),
                i,
                id,
            )),
{
    let ghost cells = bare(nodes@);
    let ghost marks = dirty@;
    let size: u64 = nodes[id as usize].size;
    let logical_size: u64 = nodes[id as usize].logical_size;
    nodes[id as usize].size = 0;
    nodes[id as usize].logical_size = 0;
    let mut current: NodeId = id;
    proof {
        assert(size == cells[id as int].size && logical_size == cells[id as int].logical_size);
        assert forall|i: int| 0 <= i < cells.len() implies #[trigger] bare(nodes@)[i] == drained_up_to(
            cells,
            id,
            id,
        )[i] by {
            if above(cells, i, id) {
                above_is_smaller(cells, i, id);
            }
        }
        assert(bare(nodes@) =~= drained_up_to(cells, id, id));
        assert forall|i: int| 0 <= i < marks.len() implies #[trigger] dirty@[i] == (marks[i] || (above(
            cells,
            i,
            id,
        ) && i >= current)) by {
            if above(cells, i, id) {
                above_is_smaller(cells, i, id);
            }
        }
    }
    loop
        invariant
            linked(cells),
            carried(cells, id),
            size == cells[id as int].size,
            logical_size == cells[id as int].logical_size,
            nodes.len() == cells.len() == dirty.len() == marks.len(),
            current == id || above(cells, current as int, id),
            current < cells.len(),
            bare(nodes@) == drained_up_to(cells, id, current),
            forall|i: int|
                0 <= i < marks.len() ==> #[trigger] dirty@[i] == (marks[i] || (above(cells, i, id) && i
                    >= current)),
        ensures
            parent_of(cells, current as int) is None,
        decreases current,
    {
        let parent: u32 = nodes[current as usize].links.parent;
        proof {
            assert(bare(nodes@)[current as int].parent == parent);
            assert(cells[current as int].parent == parent);
            if current == 0 {
                assert(cells[0].parent == NO_PARENT);
            }
        }
        if parent == NO_PARENT {
            break;
        }
        let ghost so_far = nodes@;
        let ghost marked = dirty@;
        proof {
            assert(cells[current as int].parent < current);
            assert(parent_of(cells, current as int) == Some(parent));
            assert(above(cells, parent as int, current));
            above_through(cells, parent as int, current, id);
            assert(bare(so_far)[parent as int] == cells[parent as int]);
        }
        nodes[parent as usize].size = nodes[parent as usize].size - size;
        nodes[parent as usize].logical_size = nodes[parent as usize].logical_size - logical_size;
        dirty[parent as usize] = true;
        proof {
            let goal = drained_up_to(cells, id, parent);
            assert forall|i: int| 0 <= i < cells.len() implies #[trigger] bare(nodes@)[i] == goal[i] by {
                if i == parent {
                    assert(bare(nodes@)[i] == Cell {
                        size: (cells[i].size - size) as u64,
                        logical_size: (cells[i].logical_size - logical_size) as u64,
                        ..cells[i]
                    });
                    if parent == id {
                        above_is_smaller(cells, parent as int, id);
                    }
                } else {
                    assert(bare(nodes@)[i] == bare(so_far)[i]);
                    if parent < i < current && above(cells, i, id) {
                        above_on_the_way(cells, i, current, id);
                        above_is_smaller(cells, i, parent);
                    }
                    if i < current && i == id {
                        above_is_smaller(cells, current as int, id);
                    }
                }
            }
            assert(bare(nodes@) =~= goal);
            assert forall|i: int| 0 <= i < marks.len() implies #[trigger] dirty@[i] == (marks[i] || (above(
                cells,
                i,
                id,
            ) && i >= parent)) by {
                if i != parent {
                    assert(dirty@[i] == marked[i]);
                    if parent < i < current && above(cells, i, id) {
                        above_on_the_way(cells, i, current, id);
                        above_is_smaller(cells, i, parent);
                    }
                }
            }
        }
        current = parent;
    }
    proof {
        assert forall|i: int| above(cells, i, id) implies i >= current by {
            if i < current {
                above_on_the_way(cells, i, current, id);
            }
        }
        assert forall|i: int| 0 <= i < cells.len() implies drained_up_to(cells, id, current)[i] == drained(
            cells,
            id,
        )[i] by {
            if i < current && i == id {
                above_is_smaller(cells, current as int, id);
            }
        }
        assert(bare(nodes@) =~= drained(cells, id));
    }
}

/// `dressed` is `plain` with errors.
spec fn dresses(plain: Seq<Cell>, dressed: Seq<Cell>) -> bool {
    &&& plain.len() == dressed.len()
    &&& forall|i: int|
        0 <= i < plain.len() ==> #[trigger] dressed[i] == (Cell { error: dressed[i].error, ..plain[i] })
}

proof fn drained_dressed(plain: Seq<Cell>, dressed: Seq<Cell>, id: NodeId)
    requires
        dresses(plain, dressed),
        carried(dressed, id),
    ensures
        carried(plain, id),
        dresses(drained(plain, id), drained(dressed, id)),
        forall|i: int| 0 <= i < plain.len() ==> (#[trigger] drained(dressed, id)[i]).error == dressed[i].error,
        forall|i: int| #[trigger] above(plain, i, id) == above(dressed, i, id),
{
    assert forall|i: int| #[trigger] above(plain, i, id) == above(dressed, i, id) by {
        assert forall|k: int| 0 <= k < plain.len() implies (#[trigger] plain[k]).parent == dressed[k].parent by {
            assert(dressed[k] == (Cell { error: dressed[k].error, ..plain[k] }));
        }
        above_same(plain, dressed, i, id);
    }
    assert(dressed[id as int] == (Cell { error: dressed[id as int].error, ..plain[id as int] }));
    assert forall|i: int| #[trigger] above(plain, i, id) implies plain[i].size >= plain[id as int].size
        && plain[i].logical_size >= plain[id as int].logical_size by {
        assert(above(dressed, i, id));
        above_is_smaller(plain, i, id);
        assert(dressed[i] == (Cell { error: dressed[i].error, ..plain[i] }));
    }
    assert forall|i: int| 0 <= i < plain.len() implies #[trigger] drained(dressed, id)[i] == (Cell {
        error: drained(dressed, id)[i].error,
        ..drained(plain, id)[i]
    }) && drained(dressed, id)[i].error == dressed[i].error by {
        assert(dressed[i] == (Cell { error: dressed[i].error, ..plain[i] }));
        assert(above(plain, i, id) == above(dressed, i, id));
    }
}

/// The rows of hard-linked nodes, sorted, are those of their specifications.
proof fn rows_sorted(rows: Seq<Linked>, specs: Seq<LinkedSpec>)
    requires
        rows.len() == specs.len(),
        rows.len() <= usize::MAX,
        forall|i: int| 0 <= i < rows.len() ==> (#[trigger] rows[i])@ == specs[i],
        arranges(rows, arrangement(rows), 0, rows.len() as int),
    ensures
        forall|i: int| 0 <= i < rows.len() ==> (#[trigger] sorted(rows)[i])@ == sorted(specs)[i],
        sorted(specs).len() == specs.len(),
{
    arrangement_by_rank(rows, specs, arrangement(rows));
}

/// Of hard-linked nodes the ids that lose their sizes, in the order of the links.
fn find_losers(tree: &Tree, links: Vec<(u64, u64, NodeId)>) -> (ids: Vec<NodeId>)
    ensures
        ids@ == losers(tree.cells(), links@),
{
    let ghost cells = tree.cells();
    let ghost specs = located(cells, links@);
    let mut rows: Vec<Linked> = Vec::new();
    let mut i: usize = 0;
    while i < links.len()
        invariant
            i <= links.len(),
            rows.len() == i,
            cells == tree.cells(),
            specs == located(cells, links@),
            forall|k: int| 0 <= k < i ==> (#[trigger] rows@[k])@ == specs[k],
        decreases links.len() - i,
    {
        let (dev, ino, id): (u64, u64, NodeId) = links[i];
        let path: String = tree.path(id);
        rows.push(Linked { dev, ino, path: components(&path), id });
        i += 1;
    }
    let ghost all = rows@;
    let rows: Vec<Linked> = sort(rows);
    proof {
        rows_sorted(all, specs);
    }
    let mut ids: Vec<NodeId> = Vec::new();
    let mut i: usize = 0;
    while i < rows.len()
        invariant
            i <= rows.len(),
            rows.len() == links.len() == sorted(specs).len(),
            forall|k: int| 0 <= k < rows.len() ==> (#[trigger] rows@[k])@ == sorted(specs)[k],
            ids@ == repeated(sorted(specs), i as nat),
        decreases rows.len() - i,
    {
        assert(rows@[i as int]@ == sorted(specs)[i as int]);
        if i > 0 {
            assert(rows@[i - 1]@ == sorted(specs)[i - 1]);
        }
        if i > 0 && rows[i - 1].dev == rows[i].dev && rows[i - 1].ino == rows[i].ino {
            ids.push(rows[i].id);
        }
        i += 1;
    }
    ids
}

impl Ranked for (NodeId, Box<str>) {
    open spec fn le(self, other: Self) -> bool {
        self.0 <= other.0
    }

    proof fn le_total(a: Self, b: Self) {
    }

    proof fn le_transitive(a: Self, b: Self, c: Self) {
    }
}

impl Sortable for (NodeId, Box<str>) {
    fn at_most(&self, other: &Self) -> bool {
        self.0 <= other.0
    }
}

/// The error table of nodes that have moved.
fn follow(
    errors: Vec<(NodeId, Box<str>)>,
    moved: &HashMap<NodeId, NodeId>,
    Ghost(was): Ghost<Seq<int>>,
) -> (table: Vec<(NodeId, Box<str>)>)
    requires
        table_in_order(errors@),
        forall|row: int| 0 <= row < errors@.len() ==> (#[trigger] errors@[row]).0 < was.len(),
        was.len() <= u32::MAX,
        tracks_back(was, moved@),
        tracks_forth(was, moved@),
    ensures
        table_in_order(table@),
        forall|row: int| 0 <= row < table@.len() ==> (#[trigger] table@[row]).0 < was.len(),
        forall|j: int| 0 <= j < was.len() ==> #[trigger] error_in(table@, j) == error_in(errors@, was[j]),
{
    broadcast use vstd::std_specs::hash::group_hash_axioms;

    let ghost all = errors@;
    let mut rows: Vec<(NodeId, Box<str>)> = Vec::new();
    for entry in it: errors
        invariant
            it.seq() == all,
            rows.len() == it.index(),
            was.len() <= u32::MAX,
            forall|row: int| 0 <= row < all.len() ==> (#[trigger] all[row]).0 < was.len(),
            tracks_forth(was, moved@),
            forall|k: int|
                0 <= k < rows.len() ==> (#[trigger] rows@[k]).0 == now_at(moved@, all[k].0 as int)
                    && rows@[k].1 == all[k].1,
    {
        let ghost k = it.index();
        let (id, message): (NodeId, Box<str>) = entry;
        assert(all[k].0 == id);
        assert(0 <= now_at(moved@, id as int) < was.len());
        let now: NodeId = match moved.get(&id) {
            Some(now) => *now,
            None => id,
        };
        rows.push((now, message));
    }
    let ghost mapped = rows@;
    let table: Vec<(NodeId, Box<str>)> = sort(rows);
    proof {
        let order = arrangement(mapped);
        assert forall|k: int| 0 <= k < mapped.len() implies 0 <= (#[trigger] mapped[k]).0 < was.len() && was[mapped[k].0 as int]
            == all[k].0 by {
            assert(all[k].0 < was.len());
            assert(was[now_at(moved@, all[k].0 as int)] == all[k].0);
        }
        assert forall|i: int, j: int| 0 <= i < j < table@.len() implies (#[trigger] table@[i]).0 < (#[trigger] table@[j]).0 by {
            assert(comes_first(mapped, order[i] as int, order[j] as int));
            let a = order[i] as int;
            let b = order[j] as int;
            assert(mapped[a].0 <= mapped[b].0);
            if mapped[a].0 == mapped[b].0 {
                assert(all[a].0 == all[b].0);
                if a < b {
                    assert(all[a].0 < all[b].0);
                } else {
                    assert(all[b].0 < all[a].0);
                }
            }
        }
        assert forall|j: int| 0 <= j < was.len() implies #[trigger] error_in(table@, j) == error_in(all, was[j]) by {
            let y = was[j];
            if exists|row: int| row_of(all, row, y) {
                let row = choose|row: int| row_of(all, row, y);
                error_in_row(all, row);
                arranges_reaches(mapped, order, 0, mapped.len() as int, row);
                let k = choose|k: int| 0 <= k < order.len() && order[k] == row;
                assert(table@[k] == mapped[row]);
                assert(mapped[row].0 == now_at(moved@, y));
                error_in_row(table@, k);
            } else {
                assert forall|row: int| !row_of(table@, row, j) by {
                    if row_of(table@, row, j) {
                        let k = order[row] as int;
                        assert(table@[row] == mapped[k]);
                        assert(was[mapped[k].0 as int] == all[k].0);
                        assert(row_of(all, k, y));
                    }
                }
            }
        }
        assert forall|row: int| 0 <= row < table@.len() implies (#[trigger] table@[row]).0 < was.len() by {
            assert(table@[row] == mapped[order[row] as int]);
        }
    }
    table
}

/// A tree whose groups are in order is the sorting of itself.
pub proof fn deep_sorted_of_wf(cells: Seq<Cell>, id: int)
    requires
        linked(cells),
        groups_in_order(cells),
        0 <= id < cells.len(),
    ensures
        deep_sorted(shape(cells, id)) == shape(cells, id),
    decreases cells.len() - id,
{
    let all = shape(cells, id).children;
    all_deep_sorted_at(all);
    assert forall|k: int| 0 <= k < all.len() implies #[trigger] all_deep_sorted(all)[k] == all[k] by {
        deep_sorted_of_wf(cells, cells[id].first + k);
    }
    assert(all_deep_sorted(all) =~= all);
    children_in_order(cells, id);
    sorted_of_in_order(all);
}

impl Tree {
    /// Counts hard-linked data once. Among the nodes sharing a `(dev, ino)` the one with
    /// the smallest path keeps its sizes; the others drop to 0 (allocated and logical) and
    /// every ancestor shrinks by the same amounts, so the outcome does not depend on the
    /// order in which the walker met the links. Sibling ranges whose order changed are
    /// sorted again (children keep pointing at their parents, errors follow their nodes).
    /// Returns how many nodes were zeroed.
    pub fn attribute_hard_links(&mut self, links: Vec<(u64, u64, NodeId)>) -> (zeroed: u64)
        requires
            carried_all(old(self).cells(), losers(old(self).cells(), links@)),
        ensures
            zeroed == losers(old(self).cells(), links@).len(),
            final(self).wf(),
            final(self).cells().len() == old(self).cells().len(),
            zeroed == 0 ==> *final(self) == *old(self),
            zeroed > 0 ==> final(self).cells() == regrouped(
                drained_all(old(self).cells(), losers(old(self).cells(), links@)),
                0,
            ),
            old(self).cells().len() > 0 ==> final(self).shape() == deep_sorted(
                shape(drained_all(old(self).cells(), losers(old(self).cells(), links@)), 0),
            ),
    {
        broadcast use vstd::std_specs::hash::group_hash_axioms;

        proof {
            use_type_invariant(&*self);
        }
        let ghost cells = self.cells();
        let ids: Vec<NodeId> = find_losers(self, links);
        if ids.len() == 0 {
            proof {
                if cells.len() > 0 {
                    deep_sorted_of_wf(cells, 0);
                }
            }
            return 0;
        }
        let mut whole: Tree = Tree::empty();
        core::mem::swap(self, &mut whole);
        proof {
            use_type_invariant(&whole);
        }
        let Tree { nodes, errors } = whole;
        let mut nodes: Vec<Node> = nodes;
        let ghost table = errors@;
        let ghost same = Seq::new(cells.len(), |i: int| i);
        assert(carrying(nodes@, table, same) =~= cells);
        let dirty: Vec<bool> = drain_all(&mut nodes, &ids, Ghost(cells), Ghost(table), Ghost(same));
        let ghost start = drained_all(cells, ids@);
        proof {
            drained_all_keeps(cells, ids@);
            same_links(cells, start);
        }
        let mut moved: HashMap<NodeId, NodeId> = HashMap::new();
        let ghost mut was = same;
        let mut i: usize = nodes.len();
        // Deeper ranges first: a node moves only when its parent's range is sorted, and by
        // then the range it owns has already been handled.
        while i > 0
            invariant
                0 <= i <= nodes.len() == cells.len() == dirty.len(),
                linked(cells),
                groups_in_order(cells),
                linked(start),
                start == drained_all(cells, ids@),
                start.len() == cells.len(),
                forall|i: int, j: int| #[trigger] in_group(start, i, j) == in_group(cells, i, j),
                settled(start, carrying(nodes@, table, was), i as int),
                carrying(nodes@, table, was) == regrouped(start, i as int),
                tracks(start, was, moved@, i as int),
                forall|x: int| 0 <= x < dirty.len() ==> #[trigger] dirty@[x] == above_some(cells, ids@, x),
            decreases i,
        {
            let id: NodeId = (i - 1) as NodeId;
            let ghost now = carrying(nodes@, table, was);
            let ghost plain = bare(nodes@);
            proof {
                assert(dresses(plain, now));
                same_links(now, plain);
                if id > 0 {
                    assert(start[id as int].parent < id);
                }
                assert(now[id as int] == start[id as int]);
                assert(plain[id as int].first == start[id as int].first && plain[id as int].count
                    == start[id as int].count);
            }
            if dirty[i - 1] {
                let ghost before = moved@;
                let ghost held = nodes@;
                proof {
                    assert forall|c: NodeId| in_group(plain, id as int, c as int) implies !#[trigger] before.contains_key(
                    c) by {
                        assert(in_group(start, id as int, c as int));
                        assert(start[c as int].parent == id);
                        assert(was[c as int] == c);
                    }
                }
                let order: Vec<usize> = resort_children(&mut nodes, id, &mut moved);
                proof {
                    let lo = start[id as int].first as int;
                    let hi = lo + start[id as int].count;
                    assert(arranges(now, order@, lo, hi)) by {
                        assert forall|a: int, b: int| 0 <= a < b < order@.len() implies #[trigger] comes_first(
                            now,
                            order@[a] as int,
                            order@[b] as int,
                        ) by {
                            assert(comes_first(plain, order@[a] as int, order@[b] as int));
                            assert(dresses(plain, now));
                            assert(now[order@[a] as int].size == plain[order@[a] as int].size);
                            assert(now[order@[b] as int].size == plain[order@[b] as int].size);
                        }
                    }
                    settle(start, now, id as int, order@);
                    group_order_is(now, id as int, order@);
                    arrangement_has_no_duplicates(now, order@, lo, hi);
                    assert forall|y: int| in_range(lo, order@, y) implies #[trigger] reaches(order@, y) by {
                        arranges_reaches(now, order@, lo, hi, y);
                    }
                    tracks_on(start, was, before, moved@, id as int, order@);
                    let next = was_after(was, lo, order@);
                    resort_carries(held, nodes@, table, was, lo, order@);
                    was = next;
                }
            } else {
                proof {
                    assert forall|l: int| 0 <= l < ids.len() implies !above(cells, id as int, #[trigger] ids@[l]) by {
                        assert(!dirty@[id as int]);
                    }
                    untouched_by_draining(cells, ids@, id as int);
                    assert forall|j: int, k: int| #[trigger] in_group(start, id as int, j) && #[trigger] in_group(
                        start,
                        id as int,
                        k,
                    ) && j < k implies cell_le(start[j], start[k]) by {
                        assert(in_group(cells, id as int, j) && in_group(cells, id as int, k));
                        assert(cell_le(cells[j], cells[k]));
                    }
                    settle_in_order(start, now, id as int);
                    tracks_less(start, was, moved@, id as int);
                }
            }
            i -= 1;
        }
        let errors: Vec<(NodeId, Box<str>)> = follow(errors, &moved, Ghost(was));
        proof {
            let now = carrying(nodes@, table, was);
            let end = cells_of(nodes@, errors@);
            assert forall|j: int| 0 <= j < now.len() implies end[j] == now[j] by {
                assert(error_in(errors@, j) == error_in(table, was[j]));
            }
            assert(end =~= now);
            if cells.len() > 0 {
                assert(shape(now, 0) == deep_sorted(shape(start, 0)));
            }
        }
        *self = Tree { nodes, errors };
        ids.len() as u64
    }
}

/// Some of `ids` is below `x`.
spec fn above_some(cells: Seq<Cell>, ids: Seq<NodeId>, x: int) -> bool {
    exists|l: int| 0 <= l < ids.len() && above(cells, x, #[trigger] ids[l])
}

proof fn above_some_push(cells: Seq<Cell>, ids: Seq<NodeId>, id: NodeId, x: int)
    ensures
        above_some(cells, ids.push(id), x) == (above_some(cells, ids, x) || above(cells, x, id)),
{
    let more = ids.push(id);
    if above_some(cells, ids, x) {
        let l = choose|l: int| 0 <= l < ids.len() && above(cells, x, #[trigger] ids[l]);
        assert(above(cells, x, more[l]));
    }
    if above(cells, x, id) {
        assert(above(cells, x, more[ids.len() as int]));
    }
    if above_some(cells, more, x) {
        let l = choose|l: int| 0 <= l < more.len() && above(cells, x, #[trigger] more[l]);
        if l < ids.len() {
            assert(above(cells, x, ids[l]));
        }
    }
}

/// What draining one node does to the cells.
proof fn drained_next(
    cells: Seq<Cell>,
    ids: Seq<NodeId>,
    before: Seq<Node>,
    after: Seq<Node>,
    table: Seq<(NodeId, Box<str>)>,
    same: Seq<int>,
    id: NodeId,
)
    requires
        linked(cells),
        before.len() == cells.len() == same.len(),
        carrying(before, table, same) == drained_all(cells, ids),
        carried(drained_all(cells, ids), id),
        bare(after) == drained(bare(before), id),
    ensures
        carrying(after, table, same) == drained_all(cells, ids.push(id)),
{
    let dressed = carrying(before, table, same);
    let plain = bare(before);
    let next = carrying(after, table, same);
    assert(dresses(plain, dressed));
    drained_dressed(plain, dressed, id);
    assert(ids.push(id).drop_last() =~= ids);
    assert(bare(after).len() == plain.len());
    assert forall|j: int| 0 <= j < cells.len() implies #[trigger] next[j] == drained(dressed, id)[j] by {
        assert(next[j] == (Cell { error: dressed[j].error, ..bare(after)[j] }));
    }
    assert(next =~= drained(dressed, id));
}

/// What draining one node asks of the nodes holds of them.
proof fn drain_allowed(
    cells: Seq<Cell>,
    ids: Seq<NodeId>,
    nodes: Seq<Node>,
    table: Seq<(NodeId, Box<str>)>,
    same: Seq<int>,
    id: NodeId,
)
    requires
        linked(cells),
        nodes.len() == cells.len() == same.len(),
        carrying(nodes, table, same) == drained_all(cells, ids),
        carried(drained_all(cells, ids), id),
    ensures
        linked(bare(nodes)),
        carried(bare(nodes), id),
        forall|x: int| #[trigger] above(bare(nodes), x, id) == above(cells, x, id),
{
    let dressed = carrying(nodes, table, same);
    let plain = bare(nodes);
    drained_all_keeps(cells, ids);
    same_links(cells, dressed);
    assert(dresses(plain, dressed));
    same_links(dressed, plain);
    drained_dressed(plain, dressed, id);
    assert forall|x: int| #[trigger] above(plain, x, id) == above(cells, x, id) by {
        assert(above(plain, x, id) == above(dressed, x, id));
        above_same(dressed, cells, x, id);
    }
}

/// Takes the sizes of all of `ids` out of their ancestors, one after the other. Says which
/// nodes that concerned.
fn drain_all(
    nodes: &mut Vec<Node>,
    ids: &Vec<NodeId>,
    Ghost(cells): Ghost<Seq<Cell>>,
    Ghost(table): Ghost<Seq<(NodeId, Box<str>)>>,
    Ghost(same): Ghost<Seq<int>>,
) -> (dirty: Vec<bool>)
    requires
        linked(cells),
        carried_all(cells, ids@),
        old(nodes).len() == cells.len() == same.len(),
        carrying(old(nodes)@, table, same) == cells,
    ensures
        final(nodes).len() == cells.len() == dirty.len(),
        carrying(final(nodes)@, table, same) == drained_all(cells, ids@),
        forall|x: int| 0 <= x < dirty.len() ==> #[trigger] dirty@[x] == above_some(cells, ids@, x),
{
    let mut dirty: Vec<bool> = Vec::new();
    let mut i: usize = 0;
    while i < nodes.len()
        invariant
            i == dirty.len(),
            i <= nodes.len(),
            forall|k: int| 0 <= k < i ==> !dirty@[k],
        decreases nodes.len() - i,
    {
        dirty.push(false);
        i += 1;
    }
    let mut k: usize = 0;
    assert(ids@.take(0) =~= Seq::empty());
    while k < ids.len()
        invariant
            k <= ids.len(),
            linked(cells),
            carried_all(cells, ids@),
            nodes.len() == cells.len() == dirty.len() == same.len(),
            carrying(nodes@, table, same) == drained_all(cells, ids@.take(k as int)),
            forall|x: int|
                0 <= x < dirty.len() ==> #[trigger] dirty@[x] == above_some(
                    cells,
                    ids@.take(k as int),
                    x,
                ),
        decreases ids.len() - k,
    {
        let ghost before = nodes@;
        let ghost marks = dirty@;
        let ghost done = ids@.take(k as int);
        let id: NodeId = ids[k];
        proof {
            carried_prefix(cells, ids@, k + 1);
            assert(ids@.take(k + 1) =~= done.push(id));
            assert(done.push(id).drop_last() =~= done);
            drain_allowed(cells, done, before, table, same, id);
        }
        drain(nodes, id, &mut dirty);
        proof {
            assert(bare(nodes@).len() == bare(before).len());
            drained_next(cells, done, before, nodes@, table, same, id);
            assert forall|x: int| 0 <= x < dirty.len() implies #[trigger] dirty@[x] == above_some(
                cells,
                done.push(id),
                x,
            ) by {
                above_some_push(cells, done, id, x);
                assert(dirty@[x] == (marks[x] || above(bare(before), x, id)));
            }
        }
        k += 1;
    }
    assert(ids@.take(ids@.len() as int) =~= ids@);
    dirty
}

/// What a node carries goes where the node goes.
proof fn resort_carries(
    before: Seq<Node>,
    after: Seq<Node>,
    table: Seq<(NodeId, Box<str>)>,
    was: Seq<int>,
    lo: int,
    order: Seq<usize>,
)
    requires
        bare(after) == resorted(bare(before), lo, order),
        was.len() == before.len(),
        0 <= lo,
        forall|k: int| 0 <= k < order.len() ==> #[trigger] order[k] < before.len(),
        order.len() > 0 ==> lo + order.len() <= before.len(),
    ensures
        carrying(after, table, was_after(was, lo, order)) == resorted(
            carrying(before, table, was),
            lo,
            order,
        ),
{
    let next = was_after(was, lo, order);
    let now = carrying(before, table, was);
    let got = carrying(after, table, next);
    let goal = resorted(now, lo, order);
    assert(bare(after).len() == bare(before).len());
    assert forall|j: int| 0 <= j < got.len() implies #[trigger] got[j] == goal[j] by {
        assert(got[j] == (Cell { error: error_in(table, next[j]), ..bare(after)[j] }));
        assert(bare(after)[j] == resorted(bare(before), lo, order)[j]);
        if in_range(lo, order, j) {
            let old = order[j - lo] as int;
            assert(now[old] == (Cell { error: error_in(table, was[old]), ..bare(before)[old] }));
        } else {
            assert(now[j] == (Cell { error: error_in(table, was[j]), ..bare(before)[j] }));
        }
    }
    assert(got =~= goal);
}

proof fn tracks_less(start: Seq<Cell>, was: Seq<int>, moved: Map<NodeId, NodeId>, x: int)
    requires
        tracks(start, was, moved, x + 1),
    ensures
        tracks(start, was, moved, x),
{
}

proof fn carried_prefix(cells: Seq<Cell>, ids: Seq<NodeId>, k: int)
    requires
        carried_all(cells, ids),
        0 <= k <= ids.len(),
    ensures
        carried_all(cells, ids.take(k)),
    decreases ids.len(),
{
    if k == ids.len() {
        assert(ids.take(k) =~= ids);
    } else {
        carried_prefix(cells, ids.drop_last(), k);
        assert(ids.drop_last().take(k) =~= ids.take(k));
    }
}

} // verus!
