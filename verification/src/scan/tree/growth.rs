//! An arena that is being built breadth first: what it will be once every node that still
//! waits for its children has them.

use super::{breadth_first, cell_shape, groups_in_order, in_group, linked, shape};
use super::{shape_len, shapes_len, cell_le};
use super::{Cell, Shape};
use crate::order::{sorted, total, total_sorted};
use vstd::prelude::*;

verus! {

/// A placed node and the children it still has to be given.
pub struct Waiting {
    pub id: int,
    pub children: Seq<Shape>,
}

/// Whether row `row` of the queue is about `id`.
pub open spec fn wait_row(queue: Seq<Waiting>, row: int, id: int) -> bool {
    0 <= row < queue.len() && queue[row].id == id
}

/// Whether `id` still waits for its children.
pub open spec fn waits(queue: Seq<Waiting>, id: int) -> bool {
    exists|row: int| wait_row(queue, row, id)
}

/// The children `id` waits for.
pub open spec fn awaited(queue: Seq<Waiting>, id: int) -> Seq<Shape> {
    queue[choose|row: int| wait_row(queue, row, id)].children
}

/// The tree below `id` as it will be.
pub open spec fn growing(cells: Seq<Cell>, queue: Seq<Waiting>, id: int) -> Shape
    decreases cells.len() - id,
{
    let cell = cells[id];
    cell_shape(
        cell,
        if waits(queue, id) {
            awaited(queue, id)
        } else {
            Seq::new(
                cell.count as nat,
                |k: int|
                    if id < cell.first + k < cells.len() {
                        growing(cells, queue, cell.first + k)
                    } else {
                        arbitrary()
                    },
            )
        },
    )
}

/// Nodes that are still to be placed.
pub open spec fn awaited_len(queue: Seq<Waiting>) -> nat
    decreases queue.len(),
{
    if queue.len() == 0 {
        0
    } else {
        awaited_len(queue.drop_last()) + shapes_len(queue.last().children)
    }
}

/// An arena under construction: its links agree, and the nodes that wait come after every
/// node that has its children.
pub open spec fn under_construction(cells: Seq<Cell>, queue: Seq<Waiting>) -> bool {
    &&& linked(cells)
    &&& groups_in_order(cells)
    &&& breadth_first(cells)
    &&& ids_rise(queue)
    &&& forall|a: int|
        0 <= a < queue.len() ==> 0 <= (#[trigger] queue[a]).id < cells.len() && cells[queue[a].id].count
            == 0
    &&& forall|a: int, i: int|
        0 <= a < queue.len() && 0 <= i < cells.len() && (#[trigger] cells[i]).count > 0 ==> i < (
        #[trigger] queue[a]).id
}

/// `cells` with `group` appended as the children of `parent`.
pub open spec fn attached(cells: Seq<Cell>, parent: int, group: Seq<Cell>) -> Seq<Cell> {
    cells.update(
        parent,
        Cell { first: cells.len() as u32, count: group.len() as u32, ..cells[parent] },
    ) + group
}

/// What is asked of the children that are attached to the node waiting longest.
pub open spec fn fits(
    cells: Seq<Cell>,
    queue: Seq<Waiting>,
    group: Seq<Cell>,
    added: Seq<Waiting>,
) -> bool {
    &&& queue.len() > 0
    &&& group.len() == queue[0].children.len() > 0
    &&& cells.len() + group.len() <= u32::MAX
    &&& forall|k: int|
        0 <= k < group.len() ==> (#[trigger] group[k]).parent == queue[0].id && group[k].first == 0
            && group[k].count == 0 && queue[0].children[k] == cell_shape(
            group[k],
            if waits(added, cells.len() + k) {
                awaited(added, cells.len() + k)
            } else {
                Seq::empty()
            },
        )
    &&& forall|j: int, k: int| 0 <= j < k < group.len() ==> cell_le(#[trigger] group[j], #[trigger] group[k])
    &&& ids_rise(added)
    &&& forall|a: int|
        0 <= a < added.len() ==> cells.len() <= (#[trigger] added[a]).id < cells.len() + group.len()
}

pub proof fn awaited_is(queue: Seq<Waiting>, row: int)
    requires
        0 <= row < queue.len(),
        ids_rise(queue),
    ensures
        waits(queue, queue[row].id),
        awaited(queue, queue[row].id) == queue[row].children,
{
    let id = queue[row].id;
    assert(wait_row(queue, row, id));
    let found = choose|r: int| wait_row(queue, r, id);
    assert(wait_row(queue, found, id));
    if found < row {
        assert(queue[found].id < queue[row].id);
    } else if row < found {
        assert(queue[row].id < queue[found].id);
    }
}

/// Giving the node that waits longest its children changes nothing about what the tree will
/// be.
pub proof fn attach(cells: Seq<Cell>, queue: Seq<Waiting>, group: Seq<Cell>, added: Seq<Waiting>)
    requires
        under_construction(cells, queue),
        fits(cells, queue, group, added),
    ensures
        under_construction(
            attached(cells, queue[0].id, group),
            queue.drop_first() + added,
        ),
        forall|id: int|
            0 <= id < cells.len() ==> growing(
                attached(cells, queue[0].id, group),
                queue.drop_first() + added,
                id,
            ) == #[trigger] growing(cells, queue, id),
{
    let p = queue[0].id;
    let next = attached(cells, p, group);
    let rest = queue.drop_first() + added;
    let n = cells.len();
    assert forall|i: int| 0 <= i < next.len() implies #[trigger] next[i] == (if i == p {
        Cell { first: n as u32, count: group.len() as u32, ..cells[p] }
    } else if i < n {
        cells[i]
    } else {
        group[i - n]
    }) by {}
    assert forall|i: int, j: int| #[trigger] in_group(next, i, j) implies (if i == p {
        n <= j < n + group.len()
    } else {
        i < n && in_group(cells, i, j) && j < n && j != p || (i < n && in_group(cells, i, j) && j == p)
    }) by {
        if i >= n {
            assert(next[i].count == 0);
        } else if i != p {
            assert(next[i] == cells[i]);
            assert(cells[i].count > 0);
        }
    }
    assert(linked(next)) by {
        assert forall|i: int| 0 <= i < next.len() implies {
            let cell = #[trigger] next[i];
            if cell.count == 0 {
                cell.first == 0
            } else {
                i < cell.first && cell.first + cell.count <= next.len()
            }
        } by {
            if i < n && i != p {
                assert(next[i] == cells[i]);
            }
        }
        assert forall|i: int, j: int| #[trigger] in_group(next, i, j) implies next[j].parent == i by {
            if i == p {
                assert(next[j] == group[j - n]);
            } else {
                assert(in_group(cells, i, j));
                assert(cells[j].parent == i);
            }
        }
        assert forall|j: int| 0 < j < next.len() implies (#[trigger] next[j].parent) < j && in_group(
            next,
            next[j].parent as int,
            j,
        ) by {
            if j < n {
                assert(next[j].parent == cells[j].parent);
                let q = cells[j].parent as int;
                assert(cells[j].parent < j && in_group(cells, q, j));
                assert(cells[q].count > 0);
                assert(q != p);
                assert(next[q] == cells[q]);
                assert(in_group(next, q, j));
            } else {
                assert(next[j] == group[j - n]);
                assert(in_group(next, p, j));
            }
        }
        assert forall|i: int, j: int| #[trigger] in_group(next, i, j) && next[j].count > 0 implies next[j].first
            >= next[i].first + next[i].count by {
            if i == p {
                assert(next[j] == group[j - n]);
            } else {
                assert(in_group(cells, i, j));
                assert(next[i] == cells[i]);
                assert(cells[i].first + cells[i].count <= n);
                if j != p {
                    assert(next[j] == cells[j]);
                }
            }
        }
    }
    assert(groups_in_order(next)) by {
        assert forall|i: int, j: int, k: int| #[trigger] in_group(next, i, j) && #[trigger] in_group(next, i, k) && j
            < k implies cell_le(next[j], next[k]) by {
            if i == p {
                assert(cell_le(group[j - n], group[k - n]));
            } else {
                assert(in_group(cells, i, j) && in_group(cells, i, k));
                assert(cell_le(cells[j], cells[k]));
            }
        }
    }
    assert(breadth_first(next)) by {
        assert forall|i: int, j: int| 0 <= i < j < next.len() && (#[trigger] next[i]).count > 0 && (
        #[trigger] next[j]).count > 0 implies next[i].first + next[i].count <= next[j].first by {
            assert(j < n);
            if j == p {
                assert(next[i] == cells[i]);
            } else {
                assert(cells[j].count > 0);
                assert(j < queue[0].id);
                assert(next[i] == cells[i]);
                assert(next[j] == cells[j]);
            }
        }
    }
    assert forall|a: int, b: int| 0 <= a < b < rest.len() implies (#[trigger] rest[a]).id < (#[trigger] rest[b]).id by {
        let m = queue.len() - 1;
        if b < m {
            assert(queue[a + 1].id < queue[b + 1].id);
        } else if a < m {
            assert(rest[a] == queue[a + 1]);
            assert(rest[b] == added[b - m]);
        } else {
            assert(added[a - m].id < added[b - m].id);
        }
    }
    assert forall|a: int| 0 <= a < rest.len() implies 0 <= (#[trigger] rest[a]).id < next.len()
        && next[rest[a].id].count == 0 by {
        let m = queue.len() - 1;
        if a < m {
            assert(rest[a] == queue[a + 1]);
            assert(queue[0].id < queue[a + 1].id);
        } else {
            assert(rest[a] == added[a - m]);
            assert(next[rest[a].id] == group[rest[a].id - n]);
        }
    }
    assert forall|a: int, i: int| 0 <= a < rest.len() && 0 <= i < next.len() && (#[trigger] next[i]).count
        > 0 implies i < (#[trigger] rest[a]).id by {
        let m = queue.len() - 1;
        assert(i < n);
        if a < m {
            assert(rest[a] == queue[a + 1]);
            assert(queue[0].id < queue[a + 1].id);
            if i != p {
                assert(cells[i].count > 0);
            }
        } else {
            assert(rest[a] == added[a - m]);
        }
    }
    assert forall|id: int| 0 <= id < cells.len() implies growing(next, rest, id) == #[trigger] growing(
        cells,
        queue,
        id,
    ) by {
        attach_keeps(cells, queue, group, added, id);
    }
}

/// Ids in a queue that only grow.
pub open spec fn ids_rise(queue: Seq<Waiting>) -> bool {
    forall|a: int, b: int| 0 <= a < b < queue.len() ==> (#[trigger] queue[a]).id < (#[trigger] queue[b]).id
}

proof fn rest_waits(queue: Seq<Waiting>, added: Seq<Waiting>, n: int, id: int)
    requires
        queue.len() > 0,
        ids_rise(queue),
        ids_rise(added),
        ids_rise(queue.drop_first() + added),
        forall|a: int| 0 <= a < queue.len() ==> (#[trigger] queue[a]).id < n,
        forall|a: int| 0 <= a < added.len() ==> n <= (#[trigger] added[a]).id,
    ensures
        id == queue[0].id ==> !waits(queue.drop_first() + added, id),
        id != queue[0].id && id < n ==> waits(queue.drop_first() + added, id) == waits(queue, id),
        id != queue[0].id && id < n && waits(queue, id) ==> awaited(queue.drop_first() + added, id)
            == awaited(queue, id),
        id >= n ==> waits(queue.drop_first() + added, id) == waits(added, id),
        id >= n && waits(added, id) ==> awaited(queue.drop_first() + added, id) == awaited(added, id),
{
    let rest = queue.drop_first() + added;
    let m = queue.len() - 1;
    if waits(rest, id) {
        let row = choose|row: int| wait_row(rest, row, id);
        if row < m {
            assert(rest[row] == queue[row + 1]);
            assert(queue[0].id < queue[row + 1].id);
            assert(wait_row(queue, row + 1, id));
        } else {
            assert(rest[row] == added[row - m]);
            assert(wait_row(added, row - m, id));
        }
    }
    if id != queue[0].id && id < n && waits(queue, id) {
        let row = choose|row: int| wait_row(queue, row, id);
        awaited_is(queue, row);
        assert(rest[row - 1] == queue[row]);
        awaited_is(rest, row - 1);
    }
    if id >= n && waits(added, id) {
        let row = choose|row: int| wait_row(added, row, id);
        awaited_is(added, row);
        assert(rest[m + row] == added[row]);
        awaited_is(rest, m + row);
    }
}

proof fn attach_keeps(
    cells: Seq<Cell>,
    queue: Seq<Waiting>,
    group: Seq<Cell>,
    added: Seq<Waiting>,
    id: int,
)
    requires
        under_construction(cells, queue),
        fits(cells, queue, group, added),
        ids_rise(queue.drop_first() + added),
        0 <= id < cells.len(),
    ensures
        growing(attached(cells, queue[0].id, group), queue.drop_first() + added, id) == growing(
            cells,
            queue,
            id,
        ),
    decreases cells.len() - id,
{
    let p = queue[0].id;
    let next = attached(cells, p, group);
    let rest = queue.drop_first() + added;
    let n = cells.len() as int;
    assert(ids_rise(queue) && ids_rise(added));
    rest_waits(queue, added, n, id);
    let before = growing(cells, queue, id);
    let after = growing(next, rest, id);
    if id == p {
        awaited_is(queue, 0);
        assert(after.children.len() == group.len());
        assert forall|k: int| 0 <= k < group.len() implies after.children[k] == queue[0].children[k] by {
            attached_child(cells, queue, group, added, k);
            assert(next[p].first + k == n + k);
        }
        assert(after.children =~= queue[0].children);
    } else {
        assert(next[id] == cells[id]);
        if !waits(queue, id) {
            let cell = cells[id];
            assert forall|k: int| 0 <= k < cell.count implies after.children[k] == before.children[k] by {
                assert(id < cell.first + k < n);
                attach_keeps(cells, queue, group, added, cell.first + k);
            }
            assert(after.children =~= before.children);
        }
    }
}

proof fn attached_child(
    cells: Seq<Cell>,
    queue: Seq<Waiting>,
    group: Seq<Cell>,
    added: Seq<Waiting>,
    k: int,
)
    requires
        under_construction(cells, queue),
        fits(cells, queue, group, added),
        ids_rise(queue.drop_first() + added),
        0 <= k < group.len(),
    ensures
        growing(attached(cells, queue[0].id, group), queue.drop_first() + added, cells.len() + k)
            == queue[0].children[k],
{
    let p = queue[0].id;
    let next = attached(cells, p, group);
    let rest = queue.drop_first() + added;
    let n = cells.len() as int;
    let child = n + k;
    assert(ids_rise(queue) && ids_rise(added));
    rest_waits(queue, added, n, child);
    assert(next[child] == group[k]);
    if !waits(added, child) {
        assert(growing(next, rest, child).children =~= Seq::empty());
    }
}

/// A node that waits for no children can stop waiting.
pub proof fn skip(cells: Seq<Cell>, queue: Seq<Waiting>)
    requires
        under_construction(cells, queue),
        queue.len() > 0,
        queue[0].children.len() == 0,
    ensures
        under_construction(cells, queue.drop_first()),
        forall|id: int|
            0 <= id < cells.len() ==> growing(cells, queue.drop_first(), id) == #[trigger] growing(
                cells,
                queue,
                id,
            ),
{
    let rest = queue.drop_first();
    assert forall|a: int, b: int| 0 <= a < b < rest.len() implies (#[trigger] rest[a]).id < (#[trigger] rest[b]).id by {
        assert(queue[a + 1].id < queue[b + 1].id);
    }
    assert forall|a: int, i: int| 0 <= a < rest.len() && 0 <= i < cells.len() && (#[trigger] cells[i]).count
        > 0 implies i < (#[trigger] rest[a]).id by {
        assert(rest[a] == queue[a + 1]);
    }
    assert forall|id: int| 0 <= id < cells.len() implies growing(cells, rest, id) == #[trigger] growing(
        cells,
        queue,
        id,
    ) by {
        skip_keeps(cells, queue, id);
    }
}

proof fn skip_keeps(cells: Seq<Cell>, queue: Seq<Waiting>, id: int)
    requires
        under_construction(cells, queue),
        queue.len() > 0,
        queue[0].children.len() == 0,
        ids_rise(queue.drop_first()),
        0 <= id < cells.len(),
    ensures
        growing(cells, queue.drop_first(), id) == growing(cells, queue, id),
    decreases cells.len() - id,
{
    let rest = queue.drop_first();
    let n = cells.len() as int;
    let none = Seq::<Waiting>::empty();
    assert(rest + none =~= rest);
    rest_waits(queue, none, n, id);
    let before = growing(cells, queue, id);
    let after = growing(cells, rest, id);
    if id == queue[0].id {
        awaited_is(queue, 0);
        assert(cells[queue[0].id].count == 0);
        assert(after.children =~= before.children);
    } else if !waits(queue, id) {
        let cell = cells[id];
        assert forall|k: int| 0 <= k < cell.count implies after.children[k] == before.children[k] by {
            assert(id < cell.first + k < n);
            skip_keeps(cells, queue, cell.first + k);
        }
        assert(after.children =~= before.children);
    }
}

/// With nobody waiting, the tree is what it was going to be.
pub proof fn grown(cells: Seq<Cell>, id: int)
    requires
        linked(cells),
        0 <= id < cells.len(),
    ensures
        growing(cells, Seq::empty(), id) == shape(cells, id),
    decreases cells.len() - id,
{
    let cell = cells[id];
    let before = growing(cells, Seq::empty(), id);
    let after = shape(cells, id);
    assert forall|k: int| 0 <= k < cell.count implies after.children[k] == before.children[k] by {
        grown(cells, cell.first + k);
    }
    assert(after.children =~= before.children);
}

pub proof fn shapes_len_first(shapes: Seq<Shape>)
    requires
        shapes.len() > 0,
    ensures
        shapes_len(shapes) == shape_len(shapes[0]) + shapes_len(shapes.drop_first()),
    decreases shapes.len(),
{
    if shapes.len() == 1 {
        assert(shapes.drop_first() =~= Seq::empty());
        assert(shapes.drop_last() =~= Seq::empty());
    } else {
        shapes_len_first(shapes.drop_last());
        assert(shapes.drop_last().drop_first() =~= shapes.drop_first().drop_last());
    }
}

pub proof fn awaited_len_first(queue: Seq<Waiting>)
    requires
        queue.len() > 0,
    ensures
        awaited_len(queue) == shapes_len(queue[0].children) + awaited_len(queue.drop_first()),
    decreases queue.len(),
{
    if queue.len() == 1 {
        assert(queue.drop_first() =~= Seq::empty());
        assert(queue.drop_last() =~= Seq::empty());
    } else {
        awaited_len_first(queue.drop_last());
        assert(queue.drop_last().drop_first() =~= queue.drop_first().drop_last());
    }
}

proof fn shapes_len_is_total(shapes: Seq<Shape>)
    ensures
        shapes_len(shapes) == total(shapes, |shape: Shape| shape_len(shape)),
    decreases shapes.len(),
{
    if shapes.len() > 0 {
        shapes_len_is_total(shapes.drop_last());
    }
}

/// Sorting keeps every node.
pub proof fn shapes_len_sorted(shapes: Seq<Shape>)
    requires
        shapes.len() <= usize::MAX,
    ensures
        shapes_len(sorted(shapes)) == shapes_len(shapes),
        sorted(shapes).len() == shapes.len(),
{
    total_sorted(shapes, |shape: Shape| shape_len(shape));
    shapes_len_is_total(shapes);
    shapes_len_is_total(sorted(shapes));
}

} // verus!
