//! Patching a tree: branches replaced by fresh ones or dropped, ancestors weighed again.

use super::{cell_shape, in_group, linked, parent_of, shape, Cell, Node, NodeId, Shape, Tree};
use std::collections::HashMap;
use vstd::prelude::*;

verus! {

/// The three subtree totals of a node: what a patch below it changes about it.
#[derive(Debug, Clone, Copy, PartialEq, Eq, Structural)]
pub struct Totals {
    pub size: u64,
    pub logical_size: u64,
    pub file_count: u32,
}

pub open spec fn capped_u64(value: int) -> u64 {
    if value > u64::MAX {
        u64::MAX
    } else if value < 0 {
        0
    } else {
        value as u64
    }
}

pub open spec fn capped_u32(value: int) -> u32 {
    if value > u32::MAX {
        u32::MAX
    } else if value < 0 {
        0
    } else {
        value as u32
    }
}

/// The totals a cell carries.
pub open spec fn cell_totals(cell: Cell) -> Totals {
    Totals { size: cell.size, logical_size: cell.logical_size, file_count: cell.file_count }
}

/// Nothing.
pub open spec fn no_totals() -> Totals {
    Totals { size: 0, logical_size: 0, file_count: 0 }
}

impl Totals {
    /// The sum, held at what the fields can carry.
    pub open spec fn added(self, other: Totals) -> Totals {
        Totals {
            size: capped_u64(self.size + other.size),
            logical_size: capped_u64(self.logical_size + other.logical_size),
            file_count: capped_u32(self.file_count + other.file_count),
        }
    }

    /// The difference, held at zero.
    pub open spec fn reduced(self, other: Totals) -> Totals {
        Totals {
            size: capped_u64(self.size - other.size),
            logical_size: capped_u64(self.logical_size - other.logical_size),
            file_count: capped_u32(self.file_count - other.file_count),
        }
    }

    pub fn of(node: &Node) -> (totals: Totals)
        ensures
            totals.size == node.size,
            totals.logical_size == node.logical_size,
            totals.file_count == node.file_count,
    {
        Totals {
            size: node.size,
            logical_size: node.logical_size,
            file_count: node.file_count,
        }
    }

    pub fn plus(self, other: Totals) -> (totals: Totals)
        ensures
            totals == self.added(other),
    {
        Totals {
            size: self.size.saturating_add(other.size),
            logical_size: self.logical_size.saturating_add(other.logical_size),
            file_count: self.file_count.saturating_add(other.file_count),
        }
    }

    /// Saturating, because this is where a directory's own blocks are recovered: a walked
    /// tree always weighs at least as much as its children, a tree assembled by hand need
    /// not, and patching one is not the place to panic over the difference.
    pub fn minus(self, other: Totals) -> (totals: Totals)
        ensures
            totals == self.reduced(other),
    {
        Totals {
            size: self.size.saturating_sub(other.size),
            logical_size: self.logical_size.saturating_sub(other.logical_size),
            file_count: self.file_count.saturating_sub(other.file_count),
        }
    }
}

/// The patches a list asks for that name a node of a tree of `len` nodes other than its
/// root; of several for one node the last counts.
pub open spec fn asked(patches: Seq<(NodeId, Option<Tree>)>, len: nat) -> Map<NodeId, Option<Tree>>
    decreases patches.len(),
{
    if patches.len() == 0 {
        Map::empty()
    } else {
        let before = asked(patches.drop_last(), len);
        let (id, replacement) = patches.last();
        if id != 0 && id < len {
            before.insert(id, replacement)
        } else {
            before
        }
    }
}

/// Whether an ancestor of `id` is in `ids`.
pub open spec fn below_any(cells: Seq<Cell>, ids: Set<NodeId>, id: NodeId) -> bool
    decreases id,
{
    match parent_of(cells, id as int) {
        Some(parent) if parent < id => ids.contains(parent) || below_any(cells, ids, parent),
        _ => false,
    }
}

/// The patches that are applied: those asked for that are not below another one.
pub open spec fn applicable(cells: Seq<Cell>, patches: Seq<(NodeId, Option<Tree>)>) -> Map<
    NodeId,
    Option<Tree>,
> {
    let wanted = asked(patches, cells.len());
    Map::new(
        |id: NodeId| wanted.contains_key(id) && !below_any(cells, wanted.dom(), id),
        |id: NodeId| wanted[id],
    )
}

/// Whether a node below `id` is patched.
pub open spec fn touched(cells: Seq<Cell>, ids: Set<NodeId>, id: int) -> bool
    decreases cells.len() - id,
{
    exists|child: int|
        #[trigger] in_group(cells, id, child) && id < child < cells.len() && (ids.contains(
            child as NodeId,
        ) || touched(cells, ids, child))
}

/// What node `id` weighs without its first `k` children: with all of them taken out, the
/// blocks that are the directory's own.
pub open spec fn without_children(cells: Seq<Cell>, id: int, k: nat) -> Totals
    decreases k,
{
    if k == 0 {
        cell_totals(cells[id])
    } else {
        without_children(cells, id, (k - 1) as nat).reduced(
            cell_totals(cells[cells[id].first + k - 1]),
        )
    }
}

/// What the root of a tree weighs when it is measured again from its own children.
pub open spec fn measured(cells: Seq<Cell>, k: nat) -> Totals
    decreases k,
{
    if k == 0 {
        without_children(cells, 0, cells[0].count as nat)
    } else {
        measured(cells, (k - 1) as nat).added(cell_totals(cells[cells[0].first + k - 1]))
    }
}

/// What a replacement weighs once it is spliced in.
pub open spec fn replacement_weight(replacement: Option<Tree>) -> Totals {
    match replacement {
        Some(tree) if tree.cells().len() > 0 => measured(
            tree.cells(),
            tree.cells()[0].count as nat,
        ),
        _ => no_totals(),
    }
}

/// What a node weighs after the patch: the replacement's weight when it is patched, what its
/// children weigh now on top of its own blocks when something below it is, its own totals
/// otherwise.
pub open spec fn patched_weight(
    cells: Seq<Cell>,
    patches: Map<NodeId, Option<Tree>>,
    id: int,
) -> Totals
    decreases cells.len() - id, u32::MAX + 1,
{
    if patches.contains_key(id as NodeId) {
        replacement_weight(patches[id as NodeId])
    } else if touched(cells, patches.dom(), id) {
        weighed(cells, patches, id, cells[id].count as nat)
    } else {
        cell_totals(cells[id])
    }
}

/// The own blocks of `id` and what its first `k` children weigh after the patch.
pub open spec fn weighed(
    cells: Seq<Cell>,
    patches: Map<NodeId, Option<Tree>>,
    id: int,
    k: nat,
) -> Totals
    decreases cells.len() - id, k,
{
    if k == 0 {
        without_children(cells, id, cells[id].count as nat)
    } else if id < cells[id].first + k - 1 < cells.len() {
        weighed(cells, patches, id, (k - 1) as nat).added(
            patched_weight(cells, patches, cells[id].first + k - 1),
        )
    } else {
        arbitrary()
    }
}

/// A shape with other totals.
pub open spec fn with_totals(shape: Shape, totals: Totals) -> Shape {
    Shape {
        size: totals.size,
        logical_size: totals.logical_size,
        file_count: totals.file_count,
        ..shape
    }
}

/// A replacement in the place of a node: under the name the node had, measured again.
pub open spec fn replaced(name: Seq<char>, replacement: Option<Tree>) -> Option<Shape> {
    match replacement {
        Some(tree) if tree.cells().len() > 0 => Some(
            with_totals(Shape { name, ..tree.shape() }, replacement_weight(replacement)),
        ),
        _ => None,
    }
}

/// The tree below `id` after the patch, if anything is left of it.
pub open spec fn patched(cells: Seq<Cell>, patches: Map<NodeId, Option<Tree>>, id: int) -> Option<
    Shape,
>
    decreases cells.len() - id, u32::MAX + 1,
{
    if patches.contains_key(id as NodeId) {
        replaced(cells[id].name, patches[id as NodeId])
    } else if touched(cells, patches.dom(), id) {
        Some(
            with_totals(
                cell_shape(
                    cells[id],
                    crate::order::sorted(patched_children(cells, patches, id, cells[id].count as nat)),
                ),
                patched_weight(cells, patches, id),
            ),
        )
    } else {
        Some(shape(cells, id))
    }
}

/// What is left of the first `k` children of `id`, in the order they had.
pub open spec fn patched_children(
    cells: Seq<Cell>,
    patches: Map<NodeId, Option<Tree>>,
    id: int,
    k: nat,
) -> Seq<Shape>
    decreases cells.len() - id, k,
{
    if k == 0 {
        Seq::empty()
    } else if id < cells[id].first + k - 1 < cells.len() {
        let before = patched_children(cells, patches, id, (k - 1) as nat);
        match patched(cells, patches, cells[id].first + k - 1) {
            Some(child) => before.push(child),
            None => before,
        }
    } else {
        arbitrary()
    }
}

/// The patches that can be applied, by id: the root, an id the tree does not know and a
/// patch below another patch are dropped. A repeated id keeps the last patch given for it.
pub fn applicable_patches(tree: &Tree, patches: Vec<(NodeId, Option<Tree>)>) -> (replacements: HashMap<
    NodeId,
    Option<Tree>,
>)
    ensures
        replacements@ == applicable(tree.cells(), patches@),
{
    broadcast use vstd::std_specs::hash::group_hash_axioms;

    let ghost all = patches@;
    let ghost len = tree.cells().len();
    let mut replacements: HashMap<NodeId, Option<Tree>> = HashMap::new();
    let mut ids: Vec<NodeId> = Vec::new();
    assert(all.take(0) =~= Seq::empty());
    for patch in it: patches
        invariant
            it.seq() == all,
            len == tree.cells().len(),
            replacements@ == asked(all.take(it.index()), len),
            forall|id: NodeId| #[trigger] replacements@.contains_key(id) == ids@.contains(id),
    {
        let ghost k = it.index();
        let ghost before = ids@;
        assert(all.take(k + 1).drop_last() =~= all.take(k));
        assert(all.take(k + 1).last() == patch);
        let (id, replacement): (NodeId, Option<Tree>) = patch;
        if id != Tree::ROOT && (id as usize) < tree.len() {
            replacements.insert(id, replacement);
            ids.push(id);
            assert forall|other: NodeId| #[trigger] replacements@.contains_key(other) == ids@.contains(other) by {
                assert(ids@.last() == id);
                if before.contains(other) {
                    let j = choose|j: int| 0 <= j < before.len() && before[j] == other;
                    assert(ids@[j] == other);
                }
                if ids@.contains(other) && other != id {
                    let j = choose|j: int| 0 <= j < ids@.len() && ids@[j] == other;
                    assert(before[j] == other);
                }
            }
        }
    }
    assert(all.take(all.len() as int) =~= all);
    let ghost wanted = replacements@;
    let mut nested: Vec<NodeId> = Vec::new();
    let mut i: usize = 0;
    while i < ids.len()
        invariant
            i <= ids.len(),
            replacements@ == wanted,
            forall|k: int|
                0 <= k < nested.len() ==> below_any(tree.cells(), wanted.dom(), #[trigger] nested@[k]),
            forall|k: int|
                0 <= k < i && below_any(tree.cells(), wanted.dom(), #[trigger] ids@[k])
                    ==> nested@.contains(ids@[k]),
        decreases ids.len() - i,
    {
        let ghost before = nested@;
        if is_nested(tree, &replacements, ids[i]) {
            nested.push(ids[i]);
            assert(nested@.last() == ids@[i as int]);
        }
        assert forall|k: int| 0 <= k <= i && below_any(tree.cells(), wanted.dom(), #[trigger] ids@[k]) implies nested@.contains(
        ids@[k]) by {
            if k < i {
                let j = choose|j: int| 0 <= j < before.len() && before[j] == ids@[k];
                assert(nested@[j] == ids@[k]);
            }
        }
        i += 1;
    }
    let mut k: usize = 0;
    while k < nested.len()
        invariant
            k <= nested.len(),
            forall|id: NodeId| #[trigger]
                replacements@.contains_key(id) == (wanted.contains_key(id) && !nested@.take(
                    k as int,
                ).contains(id)),
            forall|id: NodeId| #[trigger] replacements@.contains_key(id) ==> replacements@[id] == wanted[id],
        decreases nested.len() - k,
    {
        let ghost before = replacements@;
        replacements.remove(&nested[k]);
        assert forall|id: NodeId| #[trigger] replacements@.contains_key(id) == (wanted.contains_key(id)
            && !nested@.take(k + 1).contains(id)) by {
            assert(nested@.take(k + 1)[k as int] == nested@[k as int]);
            assert(nested@.take(k + 1) =~= nested@.take(k as int).push(nested@[k as int]));
            if nested@.take(k as int).contains(id) {
                let j = choose|j: int| 0 <= j < k && nested@.take(k as int)[j] == id;
                assert(nested@.take(k + 1)[j] == id);
            }
            assert(replacements@.contains_key(id) == (before.contains_key(id) && id != nested@[k as int]));
        }
        k += 1;
    }
    proof {
        assert(nested@.take(nested.len() as int) =~= nested@);
        let result = applicable(tree.cells(), all);
        assert forall|id: NodeId| replacements@.contains_key(id) == #[trigger] result.contains_key(id) by {
            if wanted.contains_key(id) {
                assert(ids@.contains(id));
                let j = choose|j: int| 0 <= j < ids@.len() && ids@[j] == id;
                if below_any(tree.cells(), wanted.dom(), id) {
                    assert(below_any(tree.cells(), wanted.dom(), ids@[j]));
                } else if nested@.contains(id) {
                    let x = choose|x: int| 0 <= x < nested@.len() && nested@[x] == id;
                    assert(below_any(tree.cells(), wanted.dom(), nested@[x]));
                }
            }
        }
        assert(replacements@ =~= result);
    }
    replacements
}

/// Whether an ancestor of `id` is patched.
fn is_nested(tree: &Tree, replacements: &HashMap<NodeId, Option<Tree>>, id: NodeId) -> (r: bool)
    ensures
        r == below_any(tree.cells(), replacements@.dom(), id),
{
    broadcast use vstd::std_specs::hash::group_hash_axioms;

    proof {
        use_type_invariant(tree);
    }
    let mut current: NodeId = id;
    loop
        invariant
            linked(tree.cells()),
            below_any(tree.cells(), replacements@.dom(), id) == below_any(
                tree.cells(),
                replacements@.dom(),
                current,
            ),
        decreases current,
    {
        let parent: NodeId = match tree.parent(current) {
            Some(parent) => parent,
            None => {
                return false;
            },
        };
        proof {
            if current == 0 {
                assert(tree.cells()[0].parent == super::NO_PARENT);
            }
            assert(tree.cells()[current as int].parent < current);
        }
        if replacements.contains_key(&parent) {
            return true;
        }
        current = parent;
    }
}

/// `base` and everything in `weights`.
pub open spec fn summed(base: Totals, weights: Seq<Totals>) -> Totals
    decreases weights.len(),
{
    if weights.len() == 0 {
        base
    } else {
        summed(base, weights.drop_last()).added(weights.last())
    }
}

/// A directory's own allocated blocks plus what its children weigh now. The blocks are what
/// is left of its total when its children's totals are taken out, and they survive a patch:
/// a directory of a million entries occupies megabytes that belong to no child.
pub fn aggregate(tree: &Tree, id: NodeId, child_totals: &Vec<Totals>) -> (sum: Totals)
    requires
        id < tree.cells().len(),
    ensures
        sum == summed(
            without_children(tree.cells(), id as int, tree.cells()[id as int].count as nat),
            child_totals@,
        ),
{
    proof {
        use_type_invariant(tree);
    }
    let mut sum: Totals = Totals::of(&tree.nodes[id as usize]);
    let range: std::ops::Range<NodeId> = tree.children(id);
    let mut child: NodeId = range.start;
    assert(tree.cells()[id as int].count > 0 ==> range.end <= tree.cells().len());
    while child < range.end
        invariant
            id < tree.cells().len(),
            range.start <= child <= range.end <= tree.cells().len(),
            range.start == tree.cells()[id as int].first,
            range.end == range.start + tree.cells()[id as int].count,
            sum == without_children(tree.cells(), id as int, (child - range.start) as nat),
        decreases range.end - child,
    {
        sum = sum.minus(Totals::of(&tree.nodes[child as usize]));
        assert(tree.cells()[child as int].size == tree.nodes[child as int].size);
        child += 1;
    }
    let ghost blocks = sum;
    let mut i: usize = 0;
    assert(child_totals@.take(0) =~= Seq::empty());
    while i < child_totals.len()
        invariant
            i <= child_totals.len(),
            sum == summed(blocks, child_totals@.take(i as int)),
        decreases child_totals.len() - i,
    {
        assert(child_totals@.take(i + 1).drop_last() =~= child_totals@.take(i as int));
        sum = sum.plus(child_totals[i]);
        i += 1;
    }
    assert(child_totals@.take(i as int) =~= child_totals@);
    sum
}

/// What a replacement weighs once it is spliced in: its root, measured again from its own
/// children. A tree that came out of the walker answers with the totals it already carries,
/// and one assembled by hand cannot splice in a directory that disagrees with the children
/// listed right under it.
pub fn spliced_totals(replacement: &Tree) -> (totals: Totals)
    requires
        replacement.cells().len() > 0,
    ensures
        totals == measured(replacement.cells(), replacement.cells()[0].count as nat),
{
    proof {
        use_type_invariant(replacement);
    }
    let range: std::ops::Range<NodeId> = replacement.children(Tree::ROOT);
    let mut child_totals: Vec<Totals> = Vec::new();
    let mut child: NodeId = range.start;
    let ghost cells = replacement.cells();
    let ghost blocks = without_children(cells, 0, cells[0].count as nat);
    assert(cells[0].count > 0 ==> range.end <= cells.len());
    while child < range.end
        invariant
            cells == replacement.cells(),
            range.start <= child <= range.end <= cells.len(),
            range.start == cells[0].first,
            range.end == range.start + cells[0].count,
            blocks == without_children(cells, 0, cells[0].count as nat),
            summed(blocks, child_totals@) == measured(cells, (child - range.start) as nat),
        decreases range.end - child,
    {
        let ghost before = child_totals@;
        child_totals.push(Totals::of(&replacement.nodes[child as usize]));
        assert(child_totals@.drop_last() =~= before);
        assert(child_totals@.last() == cell_totals(cells[child as int]));
        child += 1;
    }
    aggregate(replacement, Tree::ROOT, &child_totals)
}

/// The recomputed totals say what every touched node from `from` on weighs.
pub open spec fn totals_from(
    cells: Seq<Cell>,
    patches: Map<NodeId, Option<Tree>>,
    totals: Map<NodeId, Totals>,
    from: int,
) -> bool {
    forall|id: NodeId|
        from <= id < cells.len() ==> {
            &&& #[trigger] totals.contains_key(id) == (touched(cells, patches.dom(), id as int)
                && !patches.contains_key(id))
            &&& totals.contains_key(id) ==> totals[id] == patched_weight(cells, patches, id as int)
        }
}

/// What a node of the old tree weighs after the patch: nothing when it is dropped, the
/// replacement's totals when it is replaced, the recomputed ones when it is an ancestor of
/// a patch, its own otherwise.
pub fn patched_totals(
    tree: &Tree,
    id: NodeId,
    replacements: &HashMap<NodeId, Option<Tree>>,
    totals: &HashMap<NodeId, Totals>,
) -> (weight: Totals)
    requires
        id < tree.cells().len(),
        totals_from(tree.cells(), replacements@, totals@, id as int),
    ensures
        weight == patched_weight(tree.cells(), replacements@, id as int),
{
    broadcast use vstd::std_specs::hash::group_hash_axioms;

    match replacements.get(&id) {
        Some(Some(replacement)) => {
            if replacement.is_empty() {
                Totals { size: 0, logical_size: 0, file_count: 0 }
            } else {
                spliced_totals(replacement)
            }
        },
        Some(None) => Totals { size: 0, logical_size: 0, file_count: 0 },
        None => match totals.get(&id) {
            Some(weight) => *weight,
            None => {
                assert(!totals@.contains_key(id));
                assert(tree.cells()[id as int].size == tree.nodes[id as int].size);
                Totals::of(&tree.nodes[id as usize])
            },
        },
    }
}

/// Whether a child of `id` from `from` on is patched or has a patch below it.
spec fn touched_from(cells: Seq<Cell>, ids: Set<NodeId>, id: int, from: int) -> bool {
    exists|child: int|
        #[trigger] in_group(cells, id, child) && from <= child < cells.len() && (ids.contains(
            child as NodeId,
        ) || touched(cells, ids, child))
}

proof fn touched_from_own(cells: Seq<Cell>, ids: Set<NodeId>, id: int)
    requires
        linked(cells),
        0 <= id < cells.len(),
    ensures
        touched_from(cells, ids, id, id + 1) == touched(cells, ids, id),
{
    if touched_from(cells, ids, id, id + 1) {
        let child = choose|child: int|
            #[trigger] in_group(cells, id, child) && id + 1 <= child < cells.len() && (ids.contains(
                child as NodeId,
            ) || touched(cells, ids, child));
        assert(in_group(cells, id, child));
    }
    if touched(cells, ids, id) {
        let child = choose|child: int|
            #[trigger] in_group(cells, id, child) && id < child < cells.len() && (ids.contains(
                child as NodeId,
            ) || touched(cells, ids, child));
        assert(in_group(cells, id, child));
    }
}

/// The new totals of every ancestor of a patch.
pub fn re_aggregate_ancestors(
    tree: &Tree,
    replacements: &HashMap<NodeId, Option<Tree>>,
) -> (totals: HashMap<NodeId, Totals>)
    ensures
        totals_from(tree.cells(), replacements@, totals@, 0),
{
    broadcast use vstd::std_specs::hash::group_hash_axioms;

    proof {
        use_type_invariant(tree);
    }
    let ghost cells = tree.cells();
    let ghost ids = replacements@.dom();
    let mut totals: HashMap<NodeId, Totals> = HashMap::new();
    let mut ancestor: Vec<bool> = Vec::new();
    let mut i: usize = 0;
    while i < tree.len()
        invariant
            i == ancestor.len(),
            i <= tree.cells().len(),
            forall|k: int| 0 <= k < i ==> !ancestor@[k],
        decreases tree.cells().len() - i,
    {
        ancestor.push(false);
        i += 1;
    }
    assert forall|k: int| 0 <= k < cells.len() implies ancestor@[k] == #[trigger] touched_from(
        cells,
        ids,
        k,
        i as int,
    ) by {}
    // Deepest first: a child's id is always larger than its parent's, so a node is
    // aggregated only once every node below it has been.
    while i > 0
        invariant
            linked(cells),
            cells == tree.cells(),
            ids == replacements@.dom(),
            0 <= i <= cells.len() == ancestor.len(),
            totals_from(cells, replacements@, totals@, i as int),
            forall|id: NodeId| #[trigger] totals@.contains_key(id) ==> i <= id,
            forall|k: int| 0 <= k < cells.len() ==> ancestor@[k] == #[trigger] touched_from(cells, ids, k, i as int),
        decreases i,
    {
        let id: NodeId = (i - 1) as NodeId;
        let ghost before = ancestor@;
        let patched_here: bool = replacements.contains_key(&id);
        proof {
            touched_from_own(cells, ids, id as int);
            assert(ancestor@[id as int] == touched_from(cells, ids, id as int, i as int));
        }
        let ghost old_totals = totals@;
        if ancestor[i - 1] && !patched_here {
            let sum: Totals = reweigh(tree, id, replacements, &totals);
            totals.insert(id, sum);
        }
        assert(totals_from(cells, replacements@, totals@, id as int)) by {
            assert forall|x: NodeId| id <= x < cells.len() implies {
                &&& #[trigger] totals@.contains_key(x) == (touched(cells, ids, x as int)
                    && !replacements@.contains_key(x))
                &&& totals@.contains_key(x) ==> totals@[x] == patched_weight(
                    cells,
                    replacements@,
                    x as int,
                )
            } by {
                assert(x != id ==> old_totals.contains_key(x) == totals@.contains_key(x));
                if x == id && !(ancestor@[id as int] && !patched_here) {
                    assert(!totals@.contains_key(id));
                }
            }
        }
        if patched_here || ancestor[i - 1] {
            if let Some(parent) = tree.parent(id) {
                proof {
                    if id == 0 {
                        assert(cells[0].parent == super::NO_PARENT);
                    }
                    assert(cells[id as int].parent < id);
                }
                ancestor[parent as usize] = true;
            }
        }
        proof {
            assert forall|k: int| 0 <= k < cells.len() implies ancestor@[k] == #[trigger] touched_from(
                cells,
                ids,
                k,
                id as int,
            ) by {
                assert(before[k] == touched_from(cells, ids, k, i as int));
                if before[k] {
                    let child = choose|child: int|
                        #[trigger] in_group(cells, k, child) && i <= child < cells.len() && (ids.contains(
                            child as NodeId,
                        ) || touched(cells, ids, child));
                    assert(in_group(cells, k, child));
                }
                if touched_from(cells, ids, k, id as int) && !before[k] {
                    let child = choose|child: int|
                        #[trigger] in_group(cells, k, child) && id <= child < cells.len() && (ids.contains(
                            child as NodeId,
                        ) || touched(cells, ids, child));
                    assert(child == id);
                    assert(cells[child].parent == k);
                }
                if ancestor@[k] && !before[k] {
                    assert(in_group(cells, k, id as int));
                }
            }
        }
        i -= 1;
    }
    totals
}

/// What an ancestor of a patch weighs, once the nodes below it have been weighed.
fn reweigh(
    tree: &Tree,
    id: NodeId,
    replacements: &HashMap<NodeId, Option<Tree>>,
    totals: &HashMap<NodeId, Totals>,
) -> (sum: Totals)
    requires
        id < tree.cells().len(),
        totals_from(tree.cells(), replacements@, totals@, id + 1),
    ensures
        sum == weighed(tree.cells(), replacements@, id as int, tree.cells()[id as int].count as nat),
{
    proof {
        use_type_invariant(tree);
    }
    let range: std::ops::Range<NodeId> = tree.children(id);
    let mut child_totals: Vec<Totals> = Vec::new();
    let mut child: NodeId = range.start;
    let ghost cells = tree.cells();
    let ghost blocks = without_children(cells, id as int, cells[id as int].count as nat);
    assert(cells[id as int].count > 0 ==> id < range.start && range.end <= cells.len());
    while child < range.end
        invariant
            cells == tree.cells(),
            id < cells.len(),
            range.start <= child <= range.end <= cells.len(),
            range.start < range.end ==> id < range.start,
            range.start == cells[id as int].first,
            range.end == range.start + cells[id as int].count,
            totals_from(cells, replacements@, totals@, id + 1),
            blocks == without_children(cells, id as int, cells[id as int].count as nat),
            summed(blocks, child_totals@) == weighed(
                cells,
                replacements@,
                id as int,
                (child - range.start) as nat,
            ),
        decreases range.end - child,
    {
        let ghost before = child_totals@;
        child_totals.push(patched_totals(tree, child, replacements, totals));
        assert(child_totals@.drop_last() =~= before);
        child += 1;
    }
    aggregate(tree, id, &child_totals)
}

} // verus!
