//! How many nodes a tree has, and how many a patched one can have.

use super::growth::shapes_len_sorted;
use super::splice::{applicable, asked, patched, patched_children, replaced, touched};
use super::{in_group, linked, shape, shape_len, shapes_len, Cell, NodeId, Shape, Tree};
use crate::order::{sorted, total, total_sorted};
use vstd::prelude::*;

verus! {

/// What `f` makes of the nodes `from..to` whose parents come before `bound`.
spec fn frontier(cells: Seq<Cell>, f: spec_fn(int) -> nat, from: int, to: int, bound: int) -> nat
    decreases to - from,
{
    if to <= from {
        0
    } else {
        frontier(cells, f, from, to - 1, bound) + (if to - 1 == 0 || cells[to - 1].parent < bound {
            f(to - 1)
        } else {
            0
        })
    }
}

/// What `f` makes of the first `k` children of `id`.
spec fn group_total(cells: Seq<Cell>, f: spec_fn(int) -> nat, id: int, k: nat) -> nat
    decreases k,
{
    if k == 0 {
        0
    } else {
        group_total(cells, f, id, (k - 1) as nat) + f(cells[id].first + k - 1)
    }
}

proof fn frontier_first(cells: Seq<Cell>, f: spec_fn(int) -> nat, from: int, to: int, bound: int)
    requires
        from < to,
    ensures
        frontier(cells, f, from, to, bound) == (if from == 0 || cells[from].parent < bound {
            f(from)
        } else {
            0
        }) + frontier(cells, f, from + 1, to, bound),
    decreases to - from,
{
    if from + 1 < to {
        frontier_first(cells, f, from, to - 1, bound);
    } else {
        assert(frontier(cells, f, from, to - 1, bound) == 0);
        assert(frontier(cells, f, from + 1, to, bound) == 0);
    }
}

/// Letting the children of `x` in adds exactly what they amount to.
proof fn frontier_widens(cells: Seq<Cell>, f: spec_fn(int) -> nat, x: int, to: int)
    requires
        linked(cells),
        0 <= x < to <= cells.len(),
    ensures
        frontier(cells, f, x + 1, to, x + 1) == frontier(cells, f, x + 1, to, x) + group_total(
            cells,
            f,
            x,
            (if cells[x].count == 0 || to <= cells[x].first {
                0
            } else if to >= cells[x].first + cells[x].count {
                cells[x].count as int
            } else {
                to - cells[x].first
            }) as nat,
        ),
    decreases to,
{
    if x + 1 < to {
        frontier_widens(cells, f, x, to - 1);
        let j = to - 1;
        assert(cells[j].parent < j && in_group(cells, cells[j].parent as int, j));
        assert((cells[j].parent == x) == in_group(cells, x, j));
    } else {
        assert(cells[x].count > 0 ==> x < cells[x].first);
    }
}

/// Taking in node `x` trades its children for itself.
proof fn frontier_step(cells: Seq<Cell>, f: spec_fn(int) -> nat, x: int)
    requires
        linked(cells),
        0 <= x < cells.len(),
    ensures
        frontier(cells, f, x, cells.len() as int, x) + group_total(cells, f, x, cells[x].count as nat)
            == frontier(cells, f, x + 1, cells.len() as int, x + 1) + f(x),
{
    let n = cells.len() as int;
    frontier_first(cells, f, x, n, x);
    frontier_widens(cells, f, x, n);
    if x > 0 {
        assert(cells[x].parent < x);
    }
    assert(cells[x].count > 0 ==> cells[x].first + cells[x].count <= n);
}

proof fn frontier_of_root(cells: Seq<Cell>, f: spec_fn(int) -> nat, to: int)
    requires
        0 < to <= cells.len(),
    ensures
        frontier(cells, f, 0, to, 0) == f(0),
    decreases to,
{
    if to > 1 {
        frontier_of_root(cells, f, to - 1);
    } else {
        assert(frontier(cells, f, 0, 0, 0) == 0);
    }
}

spec fn lens(cells: Seq<Cell>) -> spec_fn(int) -> nat {
    |id: int| shape_len(shape(cells, id))
}

proof fn group_len(cells: Seq<Cell>, id: int, k: nat)
    requires
        linked(cells),
        0 <= id < cells.len(),
        k <= cells[id].count,
    ensures
        group_total(cells, lens(cells), id, k) == shapes_len(shape(cells, id).children.take(k as int)),
    decreases k,
{
    let all = shape(cells, id).children;
    if k > 0 {
        group_len(cells, id, (k - 1) as nat);
        assert(all.take(k as int).drop_last() =~= all.take(k - 1));
        assert(all[k - 1] == shape(cells, cells[id].first + k - 1));
    } else {
        assert(all.take(0) =~= Seq::empty());
    }
}

proof fn frontier_counts(cells: Seq<Cell>, x: int)
    requires
        linked(cells),
        0 <= x <= cells.len(),
    ensures
        frontier(cells, lens(cells), x, cells.len() as int, x) == cells.len() - x,
    decreases cells.len() - x,
{
    if x < cells.len() {
        frontier_counts(cells, x + 1);
        frontier_step(cells, lens(cells), x);
        group_len(cells, x, cells[x].count as nat);
        let all = shape(cells, x).children;
        assert(all.take(all.len() as int) =~= all);
        assert(shape_len(shape(cells, x)) == 1 + shapes_len(all));
    }
}

/// A tree has as many nodes as its arena: every node hangs on the root.
pub proof fn every_node_hangs_on_the_root(tree: Tree)
    requires
        tree.wf(),
        tree.cells().len() > 0,
    ensures
        shape_len(tree.shape()) == tree.cells().len(),
{
    let cells = tree.cells();
    frontier_counts(cells, 0);
    frontier_of_root(cells, lens(cells), cells.len() as int);
}

/// What `g` makes of every node of a tree, together.
pub open spec fn measure(shape: Shape, g: spec_fn(Shape) -> nat) -> nat
    decreases shape,
{
    g(shape) + measures(shape.children, g)
}

/// What `g` makes of every node of several trees, together.
pub open spec fn measures(shapes: Seq<Shape>, g: spec_fn(Shape) -> nat) -> nat
    decreases shapes,
{
    if shapes.len() == 0 {
        0
    } else {
        measures(shapes.drop_last(), g) + measure(shapes.last(), g)
    }
}

/// What `g` makes of the nodes of an arena from `from` on, each with what is below it.
pub open spec fn node_sum(cells: Seq<Cell>, g: spec_fn(Shape) -> nat, from: int) -> nat
    decreases cells.len() - from,
{
    if from < 0 || from >= cells.len() {
        0
    } else {
        g(shape(cells, from)) + node_sum(cells, g, from + 1)
    }
}

spec fn measuring(cells: Seq<Cell>, g: spec_fn(Shape) -> nat) -> spec_fn(int) -> nat {
    |id: int| measure(shape(cells, id), g)
}

proof fn group_measure(cells: Seq<Cell>, g: spec_fn(Shape) -> nat, id: int, k: nat)
    requires
        linked(cells),
        0 <= id < cells.len(),
        k <= cells[id].count,
    ensures
        group_total(cells, measuring(cells, g), id, k) == measures(
            shape(cells, id).children.take(k as int),
            g,
        ),
    decreases k,
{
    let all = shape(cells, id).children;
    if k > 0 {
        group_measure(cells, g, id, (k - 1) as nat);
        assert(all.take(k as int).drop_last() =~= all.take(k - 1));
        assert(all[k - 1] == shape(cells, cells[id].first + k - 1));
    } else {
        assert(all.take(0) =~= Seq::empty());
    }
}

proof fn frontier_measures(cells: Seq<Cell>, g: spec_fn(Shape) -> nat, x: int)
    requires
        linked(cells),
        0 <= x <= cells.len(),
    ensures
        frontier(cells, measuring(cells, g), x, cells.len() as int, x) == node_sum(cells, g, x),
    decreases cells.len() - x,
{
    if x < cells.len() {
        frontier_measures(cells, g, x + 1);
        frontier_step(cells, measuring(cells, g), x);
        group_measure(cells, g, x, cells[x].count as nat);
        let all = shape(cells, x).children;
        assert(all.take(all.len() as int) =~= all);
        assert(measure(shape(cells, x), g) == g(shape(cells, x)) + measures(all, g));
    }
}

/// Every node of an arena is a node of its tree, once.
pub proof fn every_node_is_measured(cells: Seq<Cell>, g: spec_fn(Shape) -> nat)
    requires
        linked(cells),
        cells.len() > 0,
    ensures
        measure(shape(cells, 0), g) == node_sum(cells, g, 0),
{
    frontier_measures(cells, g, 0);
    frontier_of_root(cells, measuring(cells, g), cells.len() as int);
}

/// Several trees come to what each comes to.
pub proof fn measures_is_total(shapes: Seq<Shape>, g: spec_fn(Shape) -> nat)
    ensures
        measures(shapes, g) == total(shapes, |shape: Shape| measure(shape, g)),
    decreases shapes.len(),
{
    if shapes.len() > 0 {
        measures_is_total(shapes.drop_last(), g);
    }
}

/// Sorting changes nothing about what several trees come to.
pub proof fn measures_sorted(shapes: Seq<Shape>, g: spec_fn(Shape) -> nat)
    requires
        shapes.len() <= usize::MAX,
    ensures
        measures(sorted(shapes), g) == measures(shapes, g),
{
    total_sorted(shapes, |shape: Shape| measure(shape, g));
    measures_is_total(shapes, g);
    measures_is_total(sorted(shapes), g);
}

/// Trees side by side come to what they come to one after the other.
pub proof fn measures_together(a: Seq<Shape>, b: Seq<Shape>, g: spec_fn(Shape) -> nat)
    ensures
        measures(a + b, g) == measures(a, g) + measures(b, g),
    decreases b.len(),
{
    if b.len() == 0 {
        assert(a + b =~= a);
    } else {
        measures_together(a, b.drop_last(), g);
        assert((a + b).drop_last() =~= a + b.drop_last());
        assert((a + b).last() == b.last());
    }
}

/// How many nodes a replacement brings.
pub open spec fn brought(replacement: Option<Tree>) -> nat {
    match replacement {
        Some(tree) => tree.cells().len(),
        None => 0,
    }
}

/// How many nodes the patches of the ids before `n` bring.
pub open spec fn brought_before(patches: Map<NodeId, Option<Tree>>, n: nat) -> nat
    decreases n,
{
    if n == 0 {
        0
    } else {
        brought_before(patches, (n - 1) as nat) + (if n - 1 <= u32::MAX && patches.contains_key(
            (n - 1) as NodeId,
        ) {
            brought(patches[(n - 1) as NodeId])
        } else {
            0
        })
    }
}

/// How many nodes a list of patches brings.
pub open spec fn brought_by(patches: Seq<(NodeId, Option<Tree>)>) -> nat
    decreases patches.len(),
{
    if patches.len() == 0 {
        0
    } else {
        brought_by(patches.drop_last()) + brought(patches.last().1)
    }
}

spec fn left_len(left: Option<Shape>) -> nat {
    match left {
        Some(shape) => shape_len(shape),
        None => 0,
    }
}

spec fn left_lens(cells: Seq<Cell>, patches: Map<NodeId, Option<Tree>>) -> spec_fn(int) -> nat {
    |id: int| left_len(patched(cells, patches, id))
}

proof fn left_group_len(cells: Seq<Cell>, patches: Map<NodeId, Option<Tree>>, id: int, k: nat)
    requires
        linked(cells),
        0 <= id < cells.len(),
        k <= cells[id].count,
    ensures
        group_total(cells, left_lens(cells, patches), id, k) == shapes_len(
            patched_children(cells, patches, id, k),
        ),
        patched_children(cells, patches, id, k).len() <= k,
    decreases k,
{
    if k > 0 {
        left_group_len(cells, patches, id, (k - 1) as nat);
        let child = cells[id].first + k - 1;
        let before = patched_children(cells, patches, id, (k - 1) as nat);
        let after = patched_children(cells, patches, id, k);
        assert(id < child < cells.len());
        match patched(cells, patches, child) {
            Some(left) => {
                assert(after == before.push(left));
                assert(after.drop_last() =~= before);
            },
            None => {
                assert(after == before);
            },
        }
    }
}

proof fn untouched_group_len(cells: Seq<Cell>, patches: Map<NodeId, Option<Tree>>, id: int, k: nat)
    requires
        linked(cells),
        0 <= id < cells.len(),
        k <= cells[id].count,
        !touched(cells, patches.dom(), id),
    ensures
        group_total(cells, left_lens(cells, patches), id, k) == group_total(cells, lens(cells), id, k),
    decreases k,
{
    if k > 0 {
        untouched_group_len(cells, patches, id, (k - 1) as nat);
        let child = cells[id].first + k - 1;
        assert(in_group(cells, id, child));
        assert(!patches.dom().contains(child as NodeId));
        assert(!touched(cells, patches.dom(), child));
        assert(patched(cells, patches, child) == Some(shape(cells, child)));
    }
}

proof fn left_step(cells: Seq<Cell>, patches: Map<NodeId, Option<Tree>>, x: int)
    requires
        linked(cells),
        0 <= x < cells.len(),
        forall|id: NodeId|
            #[trigger] patches.contains_key(id) ==> (patches[id] matches Some(tree) ==> tree.wf()),
    ensures
        left_lens(cells, patches)(x) <= 1 + group_total(
            cells,
            left_lens(cells, patches),
            x,
            cells[x].count as nat,
        ) || (patches.contains_key(x as NodeId) && left_lens(cells, patches)(x) <= brought(
            patches[x as NodeId],
        )),
{
    let f = left_lens(cells, patches);
    if patches.contains_key(x as NodeId) {
        match patches[x as NodeId] {
            Some(tree) => {
                if tree.cells().len() > 0 {
                    every_node_hangs_on_the_root(tree);
                    let whole = replaced(cells[x].name, Some(tree))->0;
                    assert(shape_len(whole) == 1 + shapes_len(whole.children));
                    assert(shape_len(tree.shape()) == 1 + shapes_len(tree.shape().children));
                    assert(whole.children == tree.shape().children);
                }
            },
            None => {},
        }
    } else if touched(cells, patches.dom(), x) {
        let below = patched_children(cells, patches, x, cells[x].count as nat);
        left_group_len(cells, patches, x, cells[x].count as nat);
        shapes_len_sorted(below);
        let whole = patched(cells, patches, x)->0;
        assert(shape_len(whole) == 1 + shapes_len(whole.children));
    } else {
        untouched_group_len(cells, patches, x, cells[x].count as nat);
        group_len(cells, x, cells[x].count as nat);
        let all = shape(cells, x).children;
        assert(all.take(all.len() as int) =~= all);
        assert(shape_len(shape(cells, x)) == 1 + shapes_len(all));
    }
}

proof fn left_counts(cells: Seq<Cell>, patches: Map<NodeId, Option<Tree>>, x: int)
    requires
        linked(cells),
        0 <= x <= cells.len(),
        forall|id: NodeId|
            #[trigger] patches.contains_key(id) ==> (patches[id] matches Some(tree) ==> tree.wf()),
    ensures
        frontier(cells, left_lens(cells, patches), x, cells.len() as int, x) + brought_before(
            patches,
            x as nat,
        ) <= cells.len() - x + brought_before(patches, cells.len()),
    decreases cells.len() - x,
{
    if x < cells.len() {
        left_counts(cells, patches, x + 1);
        frontier_step(cells, left_lens(cells, patches), x);
        left_step(cells, patches, x);
    }
}

/// Asking for one more patch brings no more nodes than it holds.
proof fn brought_insert(patches: Map<NodeId, Option<Tree>>, id: NodeId, replacement: Option<Tree>, n: nat)
    ensures
        brought_before(patches.insert(id, replacement), n) <= brought_before(patches, n) + brought(
            replacement,
        ),
        n <= id ==> brought_before(patches.insert(id, replacement), n) == brought_before(patches, n),
    decreases n,
{
    if n > 0 {
        brought_insert(patches, id, replacement, (n - 1) as nat);
    }
}

proof fn brought_submap(some: Map<NodeId, Option<Tree>>, all: Map<NodeId, Option<Tree>>, n: nat)
    requires
        forall|id: NodeId|
            #[trigger] some.contains_key(id) ==> all.contains_key(id) && all[id] == some[id],
    ensures
        brought_before(some, n) <= brought_before(all, n),
    decreases n,
{
    if n > 0 {
        brought_submap(some, all, (n - 1) as nat);
    }
}

proof fn brought_asked(patches: Seq<(NodeId, Option<Tree>)>, len: nat, n: nat)
    ensures
        brought_before(asked(patches, len), n) <= brought_by(patches),
    decreases patches.len(),
{
    if patches.len() == 0 {
        brought_none(n);
    } else {
        brought_asked(patches.drop_last(), len, n);
        let (id, replacement) = patches.last();
        brought_insert(asked(patches.drop_last(), len), id, replacement, n);
    }
}

proof fn brought_none(n: nat)
    ensures
        brought_before(Map::empty(), n) == 0,
    decreases n,
{
    if n > 0 {
        brought_none((n - 1) as nat);
    }
}

proof fn asked_from(patches: Seq<(NodeId, Option<Tree>)>, len: nat, id: NodeId)
    requires
        asked(patches, len).contains_key(id),
    ensures
        exists|k: int|
            0 <= k < patches.len() && #[trigger] patches[k].0 == id && patches[k].1 == asked(
                patches,
                len,
            )[id],
    decreases patches.len(),
{
    if patches.len() > 0 {
        let less = patches.drop_last();
        if patches.last().0 == id && id != 0 && id < len {
            assert(patches[patches.len() - 1].0 == id);
        } else {
            asked_from(less, len, id);
            let k = choose|k: int|
                0 <= k < less.len() && #[trigger] less[k].0 == id && less[k].1 == asked(less, len)[id];
            assert(patches[k].0 == id);
        }
    }
}

/// A patched tree has at most the nodes it had and those the patches bring.
pub proof fn patches_bring_what_they_hold(tree: Tree, patches: Seq<(NodeId, Option<Tree>)>)
    requires
        tree.wf(),
        tree.cells().len() > 0,
        forall|k: int|
            0 <= k < patches.len() ==> ((#[trigger] patches[k]).1 matches Some(part) ==> part.wf()),
    ensures
        patched(tree.cells(), applicable(tree.cells(), patches), 0) is Some,
        shape_len(patched(tree.cells(), applicable(tree.cells(), patches), 0)->0)
            <= tree.cells().len() + brought_by(patches),
{
    let cells = tree.cells();
    let all = asked(patches, cells.len());
    let applied = applicable(cells, patches);
    super::rebuild::root_not_patched(cells, patches);
    assert forall|id: NodeId| #[trigger] applied.contains_key(id) implies (applied[id] matches Some(part)
        ==> part.wf()) by {
        asked_from(patches, cells.len(), id);
        let k = choose|k: int|
            0 <= k < patches.len() && #[trigger] patches[k].0 == id && patches[k].1 == all[id];
        assert(patches[k].1 == applied[id]);
    }
    left_counts(cells, applied, 0);
    frontier_of_root(cells, left_lens(cells, applied), cells.len() as int);
    brought_submap(applied, all, cells.len());
    brought_asked(patches, cells.len(), cells.len());
}

} // verus!
