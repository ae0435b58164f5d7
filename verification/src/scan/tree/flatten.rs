//! The nested form of a tree, as a walk produces it, and its arena.

use super::growth::{attach, awaited, awaited_is, awaited_len, awaited_len_first, fits, growing};
use super::growth::{attached, grown, ids_rise, shapes_len_sorted, under_construction, waits, wait_row};
use super::growth::Waiting;
use super::{breadth_first, cell_shape, error_in, error_in_row, groups_in_order, in_group};
use super::{larger_then_name, larger_then_name_total, larger_then_name_transitive, linked};
use super::{row_of, shape, shape_len, shapes_len, table_in_order, cells_of, cell_le};
use super::{by_size_then_name, Cell, Links, Node, NodeId, Shape, Tree, NO_PARENT};
use crate::order::{arrangement, arrangement_by_rank, arranges};
use crate::order::{picked_in_order, sort, sorted, Ranked, Sortable};
use std::collections::VecDeque;
use vstd::prelude::*;

verus! {

/// Nested form produced by the walker before it is flattened into an arena.
#[derive(Debug)]
pub struct Subtree {
    pub node: Node,
    pub children: Vec<Subtree>,
    /// `(dev, ino)` of an entry with more than one hard link; [`Subtree::flatten`] reports
    /// these so the scanner can count the shared data once.
    pub hardlink: Option<(u64, u64)>,
    /// Why the directory could not be read (fully); becomes [`Tree::error`].
    pub error: Option<Box<str>>,
}

impl Ranked for Subtree {
    open spec fn le(self, other: Self) -> bool {
        larger_then_name(self.node.size, self.node.name@, other.node.size, other.node.name@)
    }

    proof fn le_total(a: Self, b: Self) {
        larger_then_name_total(a.node.size, a.node.name@, b.node.size, b.node.name@);
    }

    proof fn le_transitive(a: Self, b: Self, c: Self) {
        larger_then_name_transitive(
            a.node.size,
            a.node.name@,
            b.node.size,
            b.node.name@,
            c.node.size,
            c.node.name@,
        );
    }
}

impl Sortable for Subtree {
    fn at_most(&self, other: &Self) -> bool {
        by_size_then_name(&self.node, &other.node)
    }
}

/// Nodes in a subtree, itself included.
pub open spec fn nodes_in(subtree: Subtree) -> nat
    decreases subtree,
{
    1 + nodes_in_all(subtree.children@)
}

/// Nodes in several subtrees.
pub open spec fn nodes_in_all(subtrees: Seq<Subtree>) -> nat
    decreases subtrees,
{
    if subtrees.len() == 0 {
        0
    } else {
        nodes_in_all(subtrees.drop_last()) + nodes_in(subtrees.last())
    }
}

/// The text of an optional message.
pub open spec fn message_text(message: Option<Box<str>>) -> Option<Seq<char>> {
    match message {
        Some(text) => Some(text@),
        None => None,
    }
}

/// A subtree with every group of siblings in order.
pub open spec fn subtree_shape(subtree: Subtree) -> Shape
    decreases subtree,
{
    Shape {
        name: subtree.node.name@,
        kind: subtree.node.kind,
        size: subtree.node.size,
        logical_size: subtree.node.logical_size,
        file_count: subtree.node.file_count,
        mtime: subtree.node.mtime,
        error: message_text(subtree.error),
        link: subtree.hardlink,
        children: sorted(subtree_shapes(subtree.children@)),
    }
}

/// The shapes of several subtrees.
pub open spec fn subtree_shapes(subtrees: Seq<Subtree>) -> Seq<Shape>
    decreases subtrees,
{
    if subtrees.len() == 0 {
        Seq::empty()
    } else {
        subtree_shapes(subtrees.drop_last()).push(subtree_shape(subtrees.last()))
    }
}

pub proof fn subtree_shapes_at(subtrees: Seq<Subtree>)
    ensures
        subtree_shapes(subtrees).len() == subtrees.len(),
        forall|i: int|
            0 <= i < subtrees.len() ==> #[trigger] subtree_shapes(subtrees)[i] == subtree_shape(subtrees[i]),
    decreases subtrees.len(),
{
    if subtrees.len() > 0 {
        subtree_shapes_at(subtrees.drop_last());
    }
}

/// Sorting subtrees sorts their shapes.
proof fn shapes_of_sorted(subtrees: Seq<Subtree>)
    requires
        arranges(subtrees, arrangement(subtrees), 0, subtrees.len() as int),
        subtrees.len() <= usize::MAX,
    ensures
        subtree_shapes(sorted(subtrees)) == sorted(subtree_shapes(subtrees)),
{
    let shapes = subtree_shapes(subtrees);
    let order = arrangement(subtrees);
    subtree_shapes_at(subtrees);
    subtree_shapes_at(sorted(subtrees));
    assert forall|i: int, j: int| 0 <= i < subtrees.len() && 0 <= j < subtrees.len() implies (#[trigger] subtrees[i]).le(
    #[trigger] subtrees[j]) == shapes[i].le(shapes[j]) by {}
    arrangement_by_rank(subtrees, shapes, order);
    assert(subtree_shapes(sorted(subtrees)) =~= sorted(shapes));
}

/// A subtree has as many nodes as its shape.
pub proof fn shape_len_is_nodes_in(subtree: Subtree)
    requires
        nodes_in(subtree) <= usize::MAX,
    ensures
        shape_len(subtree_shape(subtree)) == nodes_in(subtree),
    decreases subtree,
{
    let children = subtree.children@;
    subtree_shapes_at(children);
    nodes_in_all_at_least(children);
    shapes_len_sorted(subtree_shapes(children));
    shapes_len_is_nodes_in_all(children);
}

proof fn shapes_len_is_nodes_in_all(subtrees: Seq<Subtree>)
    requires
        nodes_in_all(subtrees) <= usize::MAX,
    ensures
        shapes_len(subtree_shapes(subtrees)) == nodes_in_all(subtrees),
    decreases subtrees,
{
    if subtrees.len() > 0 {
        assert(subtree_shapes(subtrees).drop_last() =~= subtree_shapes(subtrees.drop_last()));
        shapes_len_is_nodes_in_all(subtrees.drop_last());
        shape_len_is_nodes_in(subtrees.last());
    }
}

pub proof fn nodes_in_all_at_least(subtrees: Seq<Subtree>)
    ensures
        nodes_in_all(subtrees) >= subtrees.len(),
    decreases subtrees.len(),
{
    if subtrees.len() > 0 {
        nodes_in_all_at_least(subtrees.drop_last());
        assert(nodes_in(subtrees.last()) >= 1);
    }
}

pub proof fn nodes_in_member(subtrees: Seq<Subtree>, k: int)
    requires
        0 <= k < subtrees.len(),
    ensures
        nodes_in(subtrees[k]) <= nodes_in_all(subtrees),
    decreases subtrees.len(),
{
    if k < subtrees.len() - 1 {
        nodes_in_member(subtrees.drop_last(), k);
    }
}

/// Whether row `row` of a list of links is about `id`.
pub open spec fn link_row(links: Seq<(u64, u64, NodeId)>, row: int, id: int) -> bool {
    0 <= row < links.len() && links[row].2 == id
}

/// What a list of links says about `id`.
pub open spec fn link_in(links: Seq<(u64, u64, NodeId)>, id: int) -> Option<(u64, u64)> {
    if exists|row: int| link_row(links, row, id) {
        let row = choose|row: int| link_row(links, row, id);
        Some((links[row].0, links[row].1))
    } else {
        None
    }
}

/// Links in id order, each id at most once, all within an arena of `len` nodes.
pub open spec fn links_in_order(links: Seq<(u64, u64, NodeId)>, len: nat) -> bool {
    &&& forall|i: int, j: int| 0 <= i < j < links.len() ==> (#[trigger] links[i]).2 < (#[trigger] links[j]).2
    &&& forall|i: int| 0 <= i < links.len() ==> (#[trigger] links[i]).2 < len
}

/// Cells with the links a list reports.
pub open spec fn with_links(cells: Seq<Cell>, links: Seq<(u64, u64, NodeId)>) -> Seq<Cell> {
    Seq::new(cells.len(), |i: int| Cell { link: link_in(links, i), ..cells[i] })
}

struct Arena {
    nodes: Vec<Node>,
    errors: Vec<(NodeId, Box<str>)>,
    hardlinks: Vec<(u64, u64, NodeId)>,
    /// Nodes already placed whose children still have to be appended, in id order.
    pending: VecDeque<(NodeId, Vec<Subtree>)>,
}

/// The cell of a subtree's node where it has just been placed.
spec fn placed(subtree: Subtree, parent: u32) -> Cell {
    Cell {
        name: subtree.node.name@,
        kind: subtree.node.kind,
        size: subtree.node.size,
        logical_size: subtree.node.logical_size,
        file_count: subtree.node.file_count,
        mtime: subtree.node.mtime,
        error: message_text(subtree.error),
        link: subtree.hardlink,
        parent,
        first: 0,
        count: 0,
    }
}

/// The queue as the growth of an arena sees it.
spec fn queue_of(pending: Seq<(NodeId, Vec<Subtree>)>) -> Seq<Waiting> {
    Seq::new(
        pending.len(),
        |k: int|
            Waiting {
                id: pending[k].0 as int,
                children: sorted(subtree_shapes(pending[k].1@)),
            },
    )
}

/// What placing the first `k` of `group` from id `n` on adds to the queue.
spec fn rows_added(group: Seq<Subtree>, n: int, k: int) -> Seq<(NodeId, Vec<Subtree>)>
    decreases k,
{
    if k <= 0 {
        Seq::empty()
    } else {
        let before = rows_added(group, n, k - 1);
        if group[k - 1].children@.len() > 0 {
            before.push(((n + k - 1) as NodeId, group[k - 1].children))
        } else {
            before
        }
    }
}

impl Arena {
    spec fn cells(self) -> Seq<Cell> {
        with_links(cells_of(self.nodes@, self.errors@), self.hardlinks@)
    }

    /// The side tables are in order.
    spec fn tables(self) -> bool {
        &&& table_in_order(self.errors@)
        &&& forall|row: int|
            0 <= row < self.errors@.len() ==> (#[trigger] self.errors@[row]).0 < self.nodes@.len()
        &&& links_in_order(self.hardlinks@, self.nodes@.len())
    }

    fn place(&mut self, subtree: Subtree, parent: u32)
        requires
            old(self).tables(),
            old(self).nodes@.len() < u32::MAX,
        ensures
            final(self).tables(),
            final(self).cells() == old(self).cells().push(placed(subtree, parent)),
            final(self).pending@ == if subtree.children@.len() > 0 {
                old(self).pending@.push((old(self).nodes@.len() as NodeId, subtree.children))
            } else {
                old(self).pending@
            },
    {
        let ghost before = *self;
        let id: NodeId = self.nodes.len() as NodeId;
        let Subtree { node, children, hardlink, error } = subtree;
        let mut node = node;
        node.links = Links::below(parent);
        if let Some((dev, ino)) = hardlink {
            self.hardlinks.push((dev, ino, id));
        }
        if let Some(message) = error {
            self.errors.push((id, message));
        }
        if children.len() > 0 {
            self.pending.push_back((id, children));
        }
        self.nodes.push(node);
        proof {
            let n = id as int;
            assert forall|i: int| 0 <= i <= n implies error_in(self.errors@, i) == (if i == n {
                message_text(subtree.error)
            } else {
                error_in(before.errors@, i)
            }) by {
                table_after_push(before.errors@, self.errors@, n, i);
            }
            assert forall|i: int| 0 <= i <= n implies link_in(self.hardlinks@, i) == (if i == n {
                subtree.hardlink
            } else {
                link_in(before.hardlinks@, i)
            }) by {
                links_after_push(before.hardlinks@, self.hardlinks@, n, i);
            }
            assert(self.cells() =~= before.cells().push(placed(subtree, parent)));
        }
    }
}

pub proof fn table_after_push(
    before: Seq<(NodeId, Box<str>)>,
    after: Seq<(NodeId, Box<str>)>,
    n: int,
    id: int,
)
    requires
        table_in_order(after),
        table_in_order(before),
        forall|row: int| 0 <= row < before.len() ==> (#[trigger] before[row]).0 < n,
        after == before || (after.len() == before.len() + 1 && after.drop_last() =~= before
            && after.last().0 == n),
        0 <= id <= n,
    ensures
        id < n ==> error_in(after, id) == error_in(before, id),
        id == n && after == before ==> error_in(after, id) is None,
        id == n && after != before ==> error_in(after, id) == Some(after.last().1@),
{
    if after != before {
        error_in_row(after, after.len() - 1);
        if exists|row: int| row_of(before, row, id) {
            let row = choose|row: int| row_of(before, row, id);
            error_in_row(before, row);
            assert(after.drop_last()[row] == after[row]);
            error_in_row(after, row);
        } else if id < n {
            assert forall|row: int| !row_of(after, row, id) by {
                if row_of(after, row, id) {
                    assert(after.drop_last()[row] == after[row]);
                    assert(row_of(before, row, id));
                }
            }
        }
    } else if id == n {
        assert forall|row: int| !row_of(after, row, id) by {}
    }
}

pub proof fn link_in_row(links: Seq<(u64, u64, NodeId)>, len: nat, row: int)
    requires
        links_in_order(links, len),
        0 <= row < links.len(),
    ensures
        link_in(links, links[row].2 as int) == Some((links[row].0, links[row].1)),
{
    let id = links[row].2 as int;
    assert(link_row(links, row, id));
    let found = choose|r: int| link_row(links, r, id);
    if found < row {
        assert(links[found].2 < links[row].2);
    } else if found > row {
        assert(links[row].2 < links[found].2);
    }
}

proof fn links_after_push(
    before: Seq<(u64, u64, NodeId)>,
    after: Seq<(u64, u64, NodeId)>,
    n: int,
    id: int,
)
    requires
        0 <= n,
        links_in_order(before, n as nat),
        links_in_order(after, (n + 1) as nat),
        after == before || (after.len() == before.len() + 1 && after.drop_last() =~= before
            && after.last().2 == n),
        0 <= id <= n,
    ensures
        id < n ==> link_in(after, id) == link_in(before, id),
        id == n && after == before ==> link_in(after, id) is None,
        id == n && after != before ==> link_in(after, id) == Some((after.last().0, after.last().1)),
{
    if after != before {
        link_in_row(after, (n + 1) as nat, after.len() - 1);
        if exists|row: int| link_row(before, row, id) {
            let row = choose|row: int| link_row(before, row, id);
            link_in_row(before, n as nat, row);
            assert(after.drop_last()[row] == after[row]);
            link_in_row(after, (n + 1) as nat, row);
        } else if id < n {
            assert forall|row: int| !link_row(after, row, id) by {
                if link_row(after, row, id) {
                    assert(after.drop_last()[row] == after[row]);
                    assert(link_row(before, row, id));
                }
            }
        }
    } else if id == n {
        assert forall|row: int| !link_row(after, row, id) by {}
    }
}

spec fn referents(stack: Seq<&Subtree>) -> Seq<Subtree> {
    Seq::new(stack.len(), |i: int| *stack[i])
}

proof fn nodes_in_all_push(subtrees: Seq<Subtree>, subtree: Subtree)
    ensures
        nodes_in_all(subtrees.push(subtree)) == nodes_in_all(subtrees) + nodes_in(subtree),
{
    assert(subtrees.push(subtree).drop_last() =~= subtrees);
}

/// How many nodes the rows added for a group stand for.
proof fn added_len(group: Seq<Subtree>, n: int, k: int)
    requires
        0 <= n,
        0 <= k <= group.len(),
        forall|i: int| 0 <= i < group.len() ==> (#[trigger] group[i]).children@.len() <= usize::MAX,
    ensures
        k + awaited_len(queue_of(rows_added(group, n, k))) == shapes_len(
            subtree_shapes(group).take(k),
        ),
    decreases k,
{
    let shapes = subtree_shapes(group);
    subtree_shapes_at(group);
    if k == 0 {
        assert(shapes.take(0) =~= Seq::empty());
        assert(queue_of(rows_added(group, n, 0)) =~= Seq::empty());
    } else {
        added_len(group, n, k - 1);
        assert(shapes.take(k).drop_last() =~= shapes.take(k - 1));
        let child = group[k - 1];
        assert(shapes.take(k).last() == subtree_shape(child));
        assert(shape_len(subtree_shape(child)) == 1 + shapes_len(subtree_shape(child).children));
        let before = queue_of(rows_added(group, n, k - 1));
        let after = queue_of(rows_added(group, n, k));
        if child.children@.len() > 0 {
            assert(after.drop_last() =~= before);
            assert(after.last().children == subtree_shape(child).children);
        } else {
            subtree_shapes_at(child.children@);
            shapes_len_sorted(subtree_shapes(child.children@));
            assert(subtree_shape(child).children.len() == 0);
            assert(after =~= before);
        }
    }
}

pub proof fn awaited_len_concat(a: Seq<Waiting>, b: Seq<Waiting>)
    ensures
        awaited_len(a + b) == awaited_len(a) + awaited_len(b),
    decreases b.len(),
{
    if b.len() == 0 {
        assert(a + b =~= a);
    } else {
        awaited_len_concat(a, b.drop_last());
        assert((a + b).drop_last() =~= a + b.drop_last());
    }
}

/// The rows added for a group: one for each member that has children.
proof fn added_rows(group: Seq<Subtree>, n: int, k: int)
    requires
        0 <= n,
        0 <= k <= group.len(),
        n + group.len() <= u32::MAX,
        forall|i: int| 0 <= i < group.len() ==> (#[trigger] group[i]).children@.len() <= usize::MAX,
    ensures
        ids_rise(queue_of(rows_added(group, n, k))),
        forall|a: int|
            0 <= a < rows_added(group, n, k).len() ==> n <= (#[trigger] queue_of(
                rows_added(group, n, k),
            )[a]).id < n + k && queue_of(rows_added(group, n, k))[a].children.len() > 0,
        forall|i: int|
            0 <= i < k ==> waits(queue_of(rows_added(group, n, k)), n + i) == ((#[trigger] group[i]).children@.len()
                > 0),
        forall|i: int|
            0 <= i < k && (#[trigger] group[i]).children@.len() > 0 ==> awaited(
                queue_of(rows_added(group, n, k)),
                n + i,
            ) == sorted(subtree_shapes(group[i].children@)),
    decreases k,
{
    if k > 0 {
        added_rows(group, n, k - 1);
        let child = group[k - 1];
        let before = queue_of(rows_added(group, n, k - 1));
        let after = queue_of(rows_added(group, n, k));
        subtree_shapes_at(child.children@);
        shapes_len_sorted(subtree_shapes(child.children@));
        if child.children@.len() > 0 {
            assert(after =~= before.push(
                Waiting { id: n + k - 1, children: sorted(subtree_shapes(child.children@)) },
            ));
            assert(ids_rise(after));
            assert forall|i: int| 0 <= i < k implies waits(after, n + i) == ((#[trigger] group[i]).children@.len() > 0)
                && (group[i].children@.len() > 0 ==> awaited(after, n + i) == sorted(
                subtree_shapes(group[i].children@),
            )) by {
                let id = n + i;
                if i == k - 1 {
                    awaited_is(after, after.len() - 1);
                } else {
                    if waits(before, id) {
                        let row = choose|row: int| wait_row(before, row, id);
                        awaited_is(before, row);
                        assert(after[row] == before[row]);
                        awaited_is(after, row);
                    } else if waits(after, id) {
                        let row = choose|row: int| wait_row(after, row, id);
                        assert(row < before.len());
                        assert(wait_row(before, row, id));
                    }
                }
            }
        } else {
            assert(after =~= before);
            let id = n + k - 1;
            assert(!waits(after, id)) by {
                if waits(after, id) {
                    let row = choose|row: int| wait_row(after, row, id);
                    assert(before[row].id < n + k - 1);
                }
            }
        }
    }
}

impl Subtree {
    pub fn new(node: Node) -> (subtree: Subtree)
        ensures
            subtree.node == node,
            subtree.children@.len() == 0,
            subtree.hardlink is None,
            subtree.error is None,
    {
        Subtree::with_children(node, Vec::new())
    }

    pub fn with_children(node: Node, children: Vec<Subtree>) -> (subtree: Subtree)
        ensures
            subtree.node == node,
            subtree.children == children,
            subtree.hardlink is None,
            subtree.error is None,
    {
        Subtree { node, children, hardlink: None, error: None }
    }

    /// Nodes in this subtree, itself included.
    pub fn count(&self) -> (total: usize)
        requires
            nodes_in(*self) <= usize::MAX,
        ensures
            total == nodes_in(*self),
    {
        let mut total: usize = 0;
        let mut stack: Vec<&Subtree> = Vec::new();
        stack.push(self);
        proof {
            assert(referents(stack@) =~= Seq::empty().push(*self));
            nodes_in_all_push(Seq::empty(), *self);
        }
        loop
            invariant
                total + nodes_in_all(referents(stack@)) == nodes_in(*self),
                nodes_in(*self) <= usize::MAX,
            ensures
                stack.len() == 0,
            decreases nodes_in(*self) - total,
        {
            let ghost before = referents(stack@);
            let top: &Subtree = match stack.pop() {
                Some(top) => top,
                None => {
                    break;
                },
            };
            proof {
                assert(before.drop_last() =~= referents(stack@));
                assert(nodes_in(*top) >= 1);
            }
            total += 1;
            let ghost rest = referents(stack@);
            let mut i: usize = 0;
            assert(top.children@.take(0) =~= Seq::empty());
            while i < top.children.len()
                invariant
                    i <= top.children.len(),
                    nodes_in_all(referents(stack@)) == nodes_in_all(rest) + nodes_in_all(
                        top.children@.take(i as int),
                    ),
                decreases top.children.len() - i,
            {
                let ghost so_far = referents(stack@);
                stack.push(&top.children[i]);
                proof {
                    assert(referents(stack@) =~= so_far.push(top.children@[i as int]));
                    nodes_in_all_push(so_far, top.children@[i as int]);
                    assert(top.children@.take(i + 1).drop_last() =~= top.children@.take(i as int));
                }
                i += 1;
            }
            assert(top.children@.take(i as int) =~= top.children@);
        }
        assert(referents(stack@) =~= Seq::empty());
        total
    }

    /// Moves the nodes into an arena in breadth-first order (see [`Tree`]). Also returns
    /// `(dev, ino, id)` for every node that had [`Subtree::hardlink`] set, in id order.
    pub fn flatten(self) -> (flat: (Tree, Vec<(u64, u64, NodeId)>))
        requires
            nodes_in(self) <= u32::MAX,
        ensures
            flat.0.wf(),
            breadth_first(flat.0.cells()),
            flat.0.cells().len() == nodes_in(self),
            links_in_order(flat.1@, flat.0.cells().len()),
            shape(with_links(flat.0.cells(), flat.1@), 0) == subtree_shape(self),
    {
        let ghost goal = subtree_shape(self);
        proof {
            shape_len_is_nodes_in(self);
        }
        let mut arena = Arena {
            nodes: Vec::new(),
            errors: Vec::new(),
            hardlinks: Vec::new(),
            pending: VecDeque::new(),
        };
        let ghost root = self;
        assert(arena.cells() =~= Seq::empty());
        assert(self.children.len() <= usize::MAX);
        arena.place(self, NO_PARENT);
        proof {
            first_placed(arena, root);
        }
        loop
            invariant
                arena.tables(),
                under_construction(arena.cells(), queue_of(arena.pending@)),
                arena.nodes@.len() > 0,
                growing(arena.cells(), queue_of(arena.pending@), 0) == goal,
                arena.nodes@.len() + awaited_len(queue_of(arena.pending@)) == shape_len(goal),
                shape_len(goal) <= u32::MAX,
                forall|a: int|
                    0 <= a < arena.pending@.len() ==> (#[trigger] queue_of(arena.pending@)[a]).children.len()
                        > 0,
            ensures
                arena.pending@.len() == 0,
            decreases shape_len(goal) - arena.nodes@.len(),
        {
            let ghost cells = arena.cells();
            let ghost queue = queue_of(arena.pending@);
            let ghost waiting = arena.pending@;
            let (parent, children): (NodeId, Vec<Subtree>) = match arena.pending.pop_front() {
                Some(next) => next,
                None => {
                    break;
                },
            };
            let ghost rest = arena.pending@;
            let n: usize = arena.nodes.len();
            let group: Vec<Subtree> = sort(children);
            let ghost members = group@;
            let ghost placing = Seq::new(members.len(), |i: int| placed(members[i], parent));
            proof {
                assert(queue[0].id == parent);
                assert(queue[0].children == sorted(subtree_shapes(children@)));
                shapes_of_sorted(children@);
                assert(queue[0].children == subtree_shapes(members));
                assert forall|i: int| 0 <= i < members.len() implies (#[trigger] members[i]).children@.len()
                    <= usize::MAX by {
                    assert(members[i].children.len() <= usize::MAX);
                }
                added_len(members, n as int, members.len() as int);
                subtree_shapes_at(members);
                assert(subtree_shapes(members).take(members.len() as int) =~= subtree_shapes(members));
                awaited_len_first(queue);
                assert(queue.drop_first() =~= queue_of(rest));
                assert(group.len() + n <= u32::MAX);
            }
            arena.nodes[parent as usize].links.first_child = n as NodeId;
            arena.nodes[parent as usize].links.child_count = group.len() as u32;
            let ghost base = cells.update(
                parent as int,
                Cell { first: n as u32, count: members.len() as u32, ..cells[parent as int] },
            );
            let ghost total = group.len();
            assert(arena.cells() =~= base + placing.take(0));
            assert(arena.pending@ =~= rest + rows_added(members, n as int, 0));
            for child in it: group
                invariant
                    it.seq() == members,
                    members.len() == total,
                    placing == Seq::new(members.len(), |i: int| placed(members[i], parent)),
                    base.len() == n,
                    n + total <= u32::MAX,
                    arena.tables(),
                    arena.cells() == base + placing.take(it.index()),
                    arena.pending@ == rest + rows_added(members, n as int, it.index()),
            {
                let ghost k = it.index();
                assert(arena.cells().len() == arena.nodes@.len());
                arena.place(child, parent);
                assert(base + placing.take(k + 1) =~= (base + placing.take(k)).push(placing[k]));
                assert(arena.pending@ =~= rest + rows_added(members, n as int, k + 1));
            }
            proof {
                let added = rows_added(members, n as int, members.len() as int);
                assert(arena.cells() =~= attached(cells, parent as int, placing));
                assert(queue_of(arena.pending@) =~= queue.drop_first() + queue_of(added));
                group_fits(cells, queue, members, parent, children@);
                attach(cells, queue, placing, queue_of(added));
                awaited_len_concat(queue.drop_first(), queue_of(added));
                assert(shapes_len(queue[0].children) > 0) by {
                    assert(members.len() > 0);
                }
                assert(growing(cells, queue, 0) == goal);
                added_rows(members, n as int, members.len() as int);
                assert forall|a: int| 0 <= a < arena.pending@.len() implies (#[trigger] queue_of(
                    arena.pending@,
                )[a]).children.len() > 0 by {
                    if a < rest.len() {
                        assert(queue_of(arena.pending@)[a] == queue[a + 1]);
                    } else {
                        assert(queue_of(arena.pending@)[a] == queue_of(added)[a - rest.len()]);
                    }
                }
            }
        }
        let Arena { nodes, errors, hardlinks, pending } = arena;
        proof {
            let cells = with_links(cells_of(nodes@, errors@), hardlinks@);
            assert(queue_of(pending@) =~= Seq::empty());
            grown(cells, 0);
            without_links(cells_of(nodes@, errors@), hardlinks@);
        }
        (Tree { nodes, errors }, hardlinks)
    }
}

proof fn first_placed(arena: Arena, root: Subtree)
    requires
        root.children@.len() <= usize::MAX,
        arena.cells() == Seq::<Cell>::empty().push(placed(root, NO_PARENT)),
        arena.pending@ == if root.children@.len() > 0 {
            Seq::empty().push((0 as NodeId, root.children))
        } else {
            Seq::empty()
        },
    ensures
        under_construction(arena.cells(), queue_of(arena.pending@)),
        forall|a: int|
            0 <= a < arena.pending@.len() ==> (#[trigger] queue_of(arena.pending@)[a]).children.len() > 0,
        growing(arena.cells(), queue_of(arena.pending@), 0) == subtree_shape(root),
        1 + awaited_len(queue_of(arena.pending@)) == shape_len(subtree_shape(root)),
{
    let cells = arena.cells();
    let queue = queue_of(arena.pending@);
    subtree_shapes_at(root.children@);
    shapes_len_sorted(subtree_shapes(root.children@));
    assert forall|i: int, j: int| !#[trigger] in_group(cells, i, j) by {}
    assert(linked(cells));
    assert(shape_len(subtree_shape(root)) == 1 + shapes_len(subtree_shape(root).children));
    if root.children@.len() > 0 {
        awaited_is(queue, 0);
        assert(queue.drop_last() =~= Seq::empty());
        assert(awaited_len(queue.drop_last()) == 0);
        assert(awaited_len(queue) == shapes_len(queue.last().children));
    } else {
        assert(!waits(queue, 0));
        assert(growing(cells, queue, 0).children =~= Seq::empty());
        assert(subtree_shape(root).children =~= Seq::empty());
        assert(shapes_len(subtree_shape(root).children) == 0);
        assert(queue =~= Seq::empty());
        assert(awaited_len(queue) == 0);
    }
}

/// A sorted group of subtrees is what its parent waits for.
proof fn group_fits(
    cells: Seq<Cell>,
    queue: Seq<Waiting>,
    members: Seq<Subtree>,
    parent: NodeId,
    children: Seq<Subtree>,
)
    requires
        under_construction(cells, queue),
        queue.len() > 0,
        queue[0].id == parent,
        queue[0].children == subtree_shapes(members),
        members == sorted(children),
        queue[0].children.len() > 0,
        arranges(children, arrangement(children), 0, children.len() as int),
        cells.len() + members.len() <= u32::MAX,
        forall|i: int| 0 <= i < members.len() ==> (#[trigger] members[i]).children@.len() <= usize::MAX,
    ensures
        fits(
            cells,
            queue,
            Seq::new(members.len(), |i: int| placed(members[i], parent)),
            queue_of(rows_added(members, cells.len() as int, members.len() as int)),
        ),
{
    let n = cells.len() as int;
    let group = Seq::new(members.len(), |i: int| placed(members[i], parent));
    let added = queue_of(rows_added(members, n, members.len() as int));
    subtree_shapes_at(members);
    added_rows(members, n, members.len() as int);
    picked_in_order(children, arrangement(children));
    assert forall|j: int, k: int| 0 <= j < k < group.len() implies cell_le(
        #[trigger] group[j],
        #[trigger] group[k],
    ) by {
        assert(members[j].le(members[k]));
    }
    assert forall|k: int| 0 <= k < group.len() implies (#[trigger] group[k]).parent == queue[0].id && group[k].first
        == 0 && group[k].count == 0 && queue[0].children[k] == cell_shape(
        group[k],
        if waits(added, n + k) {
            awaited(added, n + k)
        } else {
            Seq::empty()
        },
    ) by {
        assert(queue[0].children[k] == subtree_shape(members[k]));
        if members[k].children@.len() == 0 {
            subtree_shapes_at(members[k].children@);
            shapes_len_sorted(subtree_shapes(members[k].children@));
            assert(subtree_shape(members[k]).children =~= Seq::empty());
        }
    }
}

/// Links say nothing about how an arena is linked.
pub proof fn without_links(cells: Seq<Cell>, links: Seq<(u64, u64, NodeId)>)
    requires
        linked(with_links(cells, links)),
        groups_in_order(with_links(cells, links)),
        breadth_first(with_links(cells, links)),
    ensures
        linked(cells),
        groups_in_order(cells),
        breadth_first(cells),
{
    let other = with_links(cells, links);
    assert(cells.len() > 0 ==> other[0].parent == cells[0].parent);
    assert forall|i: int, j: int| in_group(cells, i, j) == #[trigger] in_group(other, i, j) by {
        if 0 <= i < cells.len() {
            assert(other[i].first == cells[i].first);
        }
    }
    assert forall|i: int| 0 <= i < cells.len() implies {
        let cell = #[trigger] cells[i];
        if cell.count == 0 {
            cell.first == 0
        } else {
            i < cell.first && cell.first + cell.count <= cells.len()
        }
    } by {
        assert(other[i].count == cells[i].count);
    }
    assert forall|i: int, j: int| #[trigger] in_group(cells, i, j) implies cells[j].parent == i by {
        assert(in_group(other, i, j));
        assert(other[i].count > 0);
        assert(other[j].parent == i);
    }
    assert forall|j: int| 0 < j < cells.len() implies (#[trigger] cells[j].parent) < j && in_group(
        cells,
        cells[j].parent as int,
        j,
    ) by {
        assert(other[j].parent == cells[j].parent);
        assert(in_group(other, other[j].parent as int, j));
    }
    assert forall|i: int, j: int| #[trigger] in_group(cells, i, j) && cells[j].count > 0 implies cells[j].first
        >= cells[i].first + cells[i].count by {
        assert(in_group(other, i, j));
        assert(other[i].count > 0);
    }
    assert forall|i: int, j: int, k: int| #[trigger] in_group(cells, i, j) && #[trigger] in_group(cells, i, k) && j
        < k implies cell_le(cells[j], cells[k]) by {
        assert(in_group(other, i, j) && in_group(other, i, k));
        assert(other[i].count > 0);
        assert(cell_le(other[j], other[k]));
    }
    assert forall|i: int, j: int| 0 <= i < j < cells.len() && (#[trigger] cells[i]).count > 0 && (
    #[trigger] cells[j]).count > 0 implies cells[i].first + cells[i].count <= cells[j].first by {
        assert(other[i].count > 0 && other[j].count > 0);
    }
}

/// Without hard links a flattened tree is the shape of its subtree.
pub proof fn no_links_in(cells: Seq<Cell>, links: Seq<(u64, u64, NodeId)>, subtree: Subtree)
    requires
        linked(cells),
        cells.len() == 1,
        links_in_order(links, cells.len()),
        subtree.hardlink is None,
        shape(with_links(cells, links), 0) == subtree_shape(subtree),
        forall|i: int| 0 <= i < cells.len() ==> (#[trigger] cells[i]).link is None,
    ensures
        shape(cells, 0) == subtree_shape(subtree),
{
    let tagged = with_links(cells, links);
    let whole = shape(tagged, 0);
    assert(whole.link == tagged[0].link);
    assert(tagged[0] == cells[0]);
    assert(tagged =~= cells);
}

} // verus!
