//! Arena representation of a scanned directory tree.
//!
//! Nodes live in one `Vec` in breadth-first order: the root is id 0 and the children of a
//! node occupy a contiguous id range, largest first. Directory errors are rare and live in a
//! side table.

use crate::order::{Ranked, Sortable};
use crate::path::{components, join, opens, Part, PartSpec};
use crate::path::{joined, parts, views};
use crate::text::{at_most, boxed, bytes_le_total, bytes_le_transitive, same, text_le};
use vstd::prelude::*;
use vstd::utf8::encode_utf8;

pub mod ceiling;
pub mod flatten;
pub mod growth;
pub mod hardlinks;
pub mod laws;
pub mod rebuild;
pub mod splice;
pub mod weight;

verus! {

/// Index of a node inside a [`Tree`].
pub type NodeId = u32;

/// The parent of a root.
pub const NO_PARENT: u32 = u32::MAX;

#[derive(Debug, Clone, Copy, PartialEq, Eq, Structural, Hash)]
pub enum NodeKind {
    Dir,
    File,
    Symlink,
    Other,
}

impl NodeKind {
    /// Classifies an entry from what a stat that did not follow symlinks says about it. The
    /// one place that decides: a scan and the re-validation before a deletion must agree, or
    /// an entry that is neither a file nor a directory would look like it had changed kind
    /// and could never be deleted.
    pub fn from_metadata(is_dir: bool, is_symlink: bool, is_file: bool) -> (kind: NodeKind)
        ensures
            kind == if is_dir {
                NodeKind::Dir
            } else if is_symlink {
                NodeKind::Symlink
            } else if is_file {
                NodeKind::File
            } else {
                NodeKind::Other
            },
    {
        if is_dir {
            NodeKind::Dir
        } else if is_symlink {
            NodeKind::Symlink
        } else if is_file {
            NodeKind::File
        } else {
            NodeKind::Other
        }
    }
}

/// One entry of a scanned tree. Links to relatives are private; navigate with
/// [`Tree::parent`], [`Tree::children`] and [`Tree::ancestors`].
#[derive(Debug, PartialEq, Eq)]
pub struct Node {
    /// File name; the root node holds its absolute path instead.
    pub name: Box<str>,
    pub kind: NodeKind,
    /// Allocated bytes on disk; for directories the subtree total.
    pub size: u64,
    /// Logical bytes; for directories the subtree total.
    pub logical_size: u64,
    /// Entries in the subtree that are not directories (1 for a file, 0 for an empty directory).
    pub file_count: u32,
    /// Modification time in seconds since the Unix epoch.
    pub mtime: i64,
    pub links: Links,
}

/// The relatives of a node.
#[derive(Debug, Clone, Copy, PartialEq, Eq, Structural)]
pub struct Links {
    parent: u32,
    first_child: u32,
    child_count: u32,
}

impl Links {
    pub closed spec fn parent(self) -> u32 {
        self.parent
    }

    pub closed spec fn first(self) -> u32 {
        self.first_child
    }

    pub closed spec fn count(self) -> u32 {
        self.child_count
    }

    /// No relatives but the parent.
    fn below(parent: u32) -> (links: Links)
        ensures
            links.parent() == parent,
            links.first() == 0,
            links.count() == 0,
    {
        Links { parent, first_child: 0, child_count: 0 }
    }
}

/// Larger first, then by name, so listings are stable across scans. One definition, used
/// when a scan is flattened and when a group is sorted again, so a rebuilt group ends up in
/// the order a fresh walk would have put it in.
pub open spec fn larger_then_name(
    size: u64,
    name: Seq<char>,
    other_size: u64,
    other_name: Seq<char>,
) -> bool {
    size > other_size || (size == other_size && text_le(name, other_name))
}

pub proof fn larger_then_name_total(a: u64, x: Seq<char>, b: u64, y: Seq<char>)
    ensures
        larger_then_name(a, x, b, y) || larger_then_name(b, y, a, x),
{
    bytes_le_total(encode_utf8(x), encode_utf8(y));
}

pub proof fn larger_then_name_transitive(
    a: u64,
    x: Seq<char>,
    b: u64,
    y: Seq<char>,
    c: u64,
    z: Seq<char>,
)
    requires
        larger_then_name(a, x, b, y),
        larger_then_name(b, y, c, z),
    ensures
        larger_then_name(a, x, c, z),
{
    if a == b && b == c {
        bytes_le_transitive(encode_utf8(x), encode_utf8(y), encode_utf8(z));
    }
}

/// Whether a node of one size and name may stand before another.
pub fn order_key(size: u64, name: &str, other_size: u64, other_name: &str) -> (r: bool)
    ensures
        r == larger_then_name(size, name@, other_size, other_name@),
{
    size > other_size || (size == other_size && at_most(name, other_name))
}

/// Whether `a` may stand before `b` among its siblings.
pub fn by_size_then_name(a: &Node, b: &Node) -> (r: bool)
    ensures
        r == larger_then_name(a.size, a.name@, b.size, b.name@),
{
    order_key(a.size, &a.name, b.size, &b.name)
}

impl Ranked for Node {
    open spec fn le(self, other: Self) -> bool {
        larger_then_name(self.size, self.name@, other.size, other.name@)
    }

    proof fn le_total(a: Self, b: Self) {
        larger_then_name_total(a.size, a.name@, b.size, b.name@);
    }

    proof fn le_transitive(a: Self, b: Self, c: Self) {
        larger_then_name_transitive(a.size, a.name@, b.size, b.name@, c.size, c.name@);
    }
}

impl Sortable for Node {
    fn at_most(&self, other: &Self) -> bool {
        by_size_then_name(self, other)
    }
}

impl Node {
    /// A node without relatives; [`Subtree::flatten`](flatten::Subtree::flatten) links it
    /// into a tree.
    pub fn new(
        name: &str,
        kind: NodeKind,
        size: u64,
        logical_size: u64,
        file_count: u32,
        mtime: i64,
    ) -> (node: Node)
        ensures
            node.name@ == name@,
            node.kind == kind,
            node.size == size,
            node.logical_size == logical_size,
            node.file_count == file_count,
            node.mtime == mtime,
            node.links.parent() == NO_PARENT,
            node.links.first() == 0,
            node.links.count() == 0,
    {
        Node {
            name: boxed(name),
            kind,
            size,
            logical_size,
            file_count,
            mtime,
            links: Links::below(NO_PARENT),
        }
    }
}

impl Clone for Node {
    fn clone(&self) -> (copy: Self)
        ensures
            node_cell(copy, None, None) == node_cell(*self, None, None),
    {
        Node {
            name: boxed(&self.name),
            kind: self.kind,
            size: self.size,
            logical_size: self.logical_size,
            file_count: self.file_count,
            mtime: self.mtime,
            links: self.links,
        }
    }
}

/// One node of an arena in specifications: what it says, what is recorded about it on the
/// side, and its links.
pub struct Cell {
    pub name: Seq<char>,
    pub kind: NodeKind,
    pub size: u64,
    pub logical_size: u64,
    pub file_count: u32,
    pub mtime: i64,
    /// Why it could not be read (fully), if it could not.
    pub error: Option<Seq<char>>,
    /// `(dev, ino)` when other names share its data.
    pub link: Option<(u64, u64)>,
    pub parent: u32,
    pub first: u32,
    pub count: u32,
}

/// A node with what the side tables say about it.
pub open spec fn node_cell(node: Node, error: Option<Seq<char>>, link: Option<(u64, u64)>) -> Cell {
    Cell {
        name: node.name@,
        kind: node.kind,
        size: node.size,
        logical_size: node.logical_size,
        file_count: node.file_count,
        mtime: node.mtime,
        error,
        link,
        parent: node.links.parent(),
        first: node.links.first(),
        count: node.links.count(),
    }
}

/// A tree without ids: a node and what is below it, in the order it is listed.
pub struct Shape {
    pub name: Seq<char>,
    pub kind: NodeKind,
    pub size: u64,
    pub logical_size: u64,
    pub file_count: u32,
    pub mtime: i64,
    pub error: Option<Seq<char>>,
    pub link: Option<(u64, u64)>,
    pub children: Seq<Shape>,
}

impl Ranked for Shape {
    open spec fn le(self, other: Self) -> bool {
        larger_then_name(self.size, self.name, other.size, other.name)
    }

    proof fn le_total(a: Self, b: Self) {
        larger_then_name_total(a.size, a.name, b.size, b.name);
    }

    proof fn le_transitive(a: Self, b: Self, c: Self) {
        larger_then_name_transitive(a.size, a.name, b.size, b.name, c.size, c.name);
    }
}

/// A cell with the given children below it.
pub open spec fn cell_shape(cell: Cell, children: Seq<Shape>) -> Shape {
    Shape {
        name: cell.name,
        kind: cell.kind,
        size: cell.size,
        logical_size: cell.logical_size,
        file_count: cell.file_count,
        mtime: cell.mtime,
        error: cell.error,
        link: cell.link,
        children,
    }
}

/// The tree below node `id` of an arena.
pub open spec fn shape(cells: Seq<Cell>, id: int) -> Shape
    decreases cells.len() - id,
{
    let cell = cells[id];
    cell_shape(
        cell,
        Seq::new(
            cell.count as nat,
            |k: int|
                if id < cell.first + k < cells.len() {
                    shape(cells, cell.first + k)
                } else {
                    arbitrary()
                },
        ),
    )
}

/// How many nodes a tree has.
pub open spec fn shape_len(shape: Shape) -> nat
    decreases shape,
{
    1 + shapes_len(shape.children)
}

/// How many nodes several trees have together.
pub open spec fn shapes_len(shapes: Seq<Shape>) -> nat
    decreases shapes,
{
    if shapes.len() == 0 {
        0
    } else {
        shapes_len(shapes.drop_last()) + shape_len(shapes.last())
    }
}

/// Whether `child` is among the children of `id`.
pub open spec fn in_group(cells: Seq<Cell>, id: int, child: int) -> bool {
    0 <= id < cells.len() && cells[id].first <= child < cells[id].first + cells[id].count
}

/// Whether cell `a` may stand before cell `b` among its siblings.
pub open spec fn cell_le(a: Cell, b: Cell) -> bool {
    larger_then_name(a.size, a.name, b.size, b.name)
}

/// The links of an arena agree: every group of siblings is a range of ids after its parent,
/// before any group below it and in order; every node but the root is in the group of its
/// parent, and a node without children points nowhere.
pub open spec fn linked(cells: Seq<Cell>) -> bool {
    &&& cells.len() <= u32::MAX
    &&& cells.len() > 0 ==> cells[0].parent == NO_PARENT
    &&& forall|i: int|
        0 <= i < cells.len() ==> {
            let cell = #[trigger] cells[i];
            if cell.count == 0 {
                cell.first == 0
            } else {
                i < cell.first && cell.first + cell.count <= cells.len()
            }
        }
    &&& forall|i: int, j: int| #[trigger] in_group(cells, i, j) ==> cells[j].parent == i
    &&& forall|j: int|
        0 < j < cells.len() ==> (#[trigger] cells[j].parent) < j && in_group(
            cells,
            cells[j].parent as int,
            j,
        )
    &&& forall|i: int, j: int|
        #[trigger] in_group(cells, i, j) && cells[j].count > 0 ==> cells[j].first >= cells[i].first
            + cells[i].count
}

/// Every group of siblings is listed largest first, ties by name.
pub open spec fn groups_in_order(cells: Seq<Cell>) -> bool {
    forall|i: int, j: int, k: int|
        #[trigger] in_group(cells, i, j) && #[trigger] in_group(cells, i, k) && j < k ==> cell_le(
            cells[j],
            cells[k],
        )
}

/// The groups follow each other in the order of their parents.
pub open spec fn breadth_first(cells: Seq<Cell>) -> bool {
    forall|i: int, j: int|
        0 <= i < j < cells.len() && (#[trigger] cells[i]).count > 0 && (#[trigger] cells[j]).count > 0
            ==> cells[i].first + cells[i].count <= cells[j].first
}

/// A side table in id order, each id at most once.
pub open spec fn table_in_order<V>(table: Seq<(NodeId, V)>) -> bool {
    forall|i: int, j: int| 0 <= i < j < table.len() ==> (#[trigger] table[i]).0 < (#[trigger] table[j]).0
}

/// Whether row `row` of a table is about `id`.
pub open spec fn row_of<V>(table: Seq<(NodeId, V)>, row: int, id: int) -> bool {
    0 <= row < table.len() && table[row].0 == id
}

/// What the error table says about `id`.
pub open spec fn error_in(table: Seq<(NodeId, Box<str>)>, id: int) -> Option<Seq<char>> {
    if exists|row: int| row_of(table, row, id) {
        Some(table[choose|row: int| row_of(table, row, id)].1@)
    } else {
        None
    }
}

pub proof fn error_in_row(table: Seq<(NodeId, Box<str>)>, row: int)
    requires
        table_in_order(table),
        0 <= row < table.len(),
    ensures
        error_in(table, table[row].0 as int) == Some(table[row].1@),
{
    let id = table[row].0 as int;
    assert(row_of(table, row, id));
    let found = choose|r: int| row_of(table, r, id);
    if found < row {
        assert(table[found].0 < table[row].0);
    } else if found > row {
        assert(table[row].0 < table[found].0);
    }
}

/// A scanned tree stored as an arena. The root is always node 0.
#[derive(Debug)]
pub struct Tree {
    nodes: Vec<Node>,
    /// Sorted by id.
    errors: Vec<(NodeId, Box<str>)>,
}

/// The cells of an arena and its error table.
pub open spec fn cells_of(nodes: Seq<Node>, errors: Seq<(NodeId, Box<str>)>) -> Seq<Cell> {
    Seq::new(nodes.len(), |i: int| node_cell(nodes[i], error_in(errors, i), None))
}

impl Tree {
    pub const ROOT: NodeId = 0;

    pub closed spec fn arena(self) -> Seq<Node> {
        self.nodes@
    }

    pub closed spec fn error_table(self) -> Seq<(NodeId, Box<str>)> {
        self.errors@
    }

    /// The nodes with their errors.
    pub open spec fn cells(self) -> Seq<Cell> {
        cells_of(self.arena(), self.error_table())
    }

    /// What holds of every tree.
    pub open spec fn wf(self) -> bool {
        &&& linked(self.cells())
        &&& groups_in_order(self.cells())
        &&& table_in_order(self.error_table())
        &&& forall|row: int|
            0 <= row < self.error_table().len() ==> (#[trigger] self.error_table()[row]).0
                < self.arena().len()
    }

    /// The tree without its ids.
    pub open spec fn shape(self) -> Shape {
        shape(self.cells(), 0)
    }

    #[verifier::type_invariant]
    pub open spec fn always_wf(self) -> bool {
        self.wf()
    }

    pub fn len(&self) -> (len: usize)
        ensures
            len == self.cells().len(),
    {
        self.nodes.len()
    }

    pub fn is_empty(&self) -> (r: bool)
        ensures
            r == (self.cells().len() == 0),
    {
        self.nodes.len() == 0
    }

    /// A tree without nodes.
    pub fn empty() -> (tree: Tree)
        ensures
            tree.cells().len() == 0,
            tree.wf(),
    {
        let nodes: Vec<Node> = Vec::new();
        let errors: Vec<(NodeId, Box<str>)> = Vec::new();
        Tree { nodes, errors }
    }

    pub fn get(&self, id: NodeId) -> (node: Option<&Node>)
        ensures
            node == if id < self.cells().len() {
                Some(&self.arena()[id as int])
            } else {
                None
            },
    {
        if (id as usize) < self.nodes.len() {
            Some(&self.nodes[id as usize])
        } else {
            None
        }
    }

    pub fn root(&self) -> (node: &Node)
        requires
            self.cells().len() > 0,
        ensures
            *node == self.arena()[0],
    {
        &self.nodes[0]
    }

    pub fn parent(&self, id: NodeId) -> (parent: Option<NodeId>)
        ensures
            parent == parent_of(self.cells(), id as int),
    {
        if (id as usize) < self.nodes.len() && self.nodes[id as usize].links.parent != NO_PARENT {
            Some(self.nodes[id as usize].links.parent)
        } else {
            None
        }
    }

    /// Ids of the children of `id`, sorted by size descending then name ascending;
    /// empty for leaves and unknown ids.
    pub fn children(&self, id: NodeId) -> (range: std::ops::Range<NodeId>)
        ensures
            range.start == if id < self.cells().len() {
                self.cells()[id as int].first as int
            } else {
                0
            },
            range.end == if id < self.cells().len() {
                self.cells()[id as int].first + self.cells()[id as int].count
            } else {
                0
            },
    {
        if (id as usize) < self.nodes.len() {
            proof {
                use_type_invariant(self);
                assert(self.cells()[id as int].count == 0 || self.cells()[id as int].first
                    + self.cells()[id as int].count <= self.cells().len());
            }
            let links: Links = self.nodes[id as usize].links;
            links.first_child..links.first_child + links.child_count
        } else {
            0..0
        }
    }

    pub fn child_count(&self, id: NodeId) -> (count: u32)
        ensures
            count == if id < self.cells().len() {
                self.cells()[id as int].count
            } else {
                0
            },
    {
        if (id as usize) < self.nodes.len() {
            self.nodes[id as usize].links.child_count
        } else {
            0
        }
    }

    pub fn has_children(&self, id: NodeId) -> (r: bool)
        ensures
            r == (id < self.cells().len() && self.cells()[id as int].count > 0),
    {
        self.child_count(id) > 0
    }

    /// Ids from the root down to `id`, inclusive.
    pub fn ancestors(&self, id: NodeId) -> (chain: Vec<NodeId>)
        ensures
            chain@ == chain_to(self.cells(), id),
    {
        proof {
            use_type_invariant(self);
        }
        let mut up: Vec<NodeId> = Vec::new();
        up.push(id);
        let mut current: NodeId = id;
        proof {
            assert(chain_to(self.cells(), current) + seq![id].drop_last() =~= chain_to(
                self.cells(),
                id,
            ));
            assert(up@.reverse() =~= seq![id]);
            assert(seq![id].drop_first() =~= Seq::empty());
        }
        loop
            invariant
                linked(self.cells()),
                up.len() > 0,
                up@.last() == current,
                chain_to(self.cells(), current) + up@.reverse().drop_first() == chain_to(
                    self.cells(),
                    id,
                ),
            ensures
                up.len() > 0,
                up@.last() == current,
                chain_to(self.cells(), current) + up@.reverse().drop_first() == chain_to(
                    self.cells(),
                    id,
                ),
                parent_of(self.cells(), current as int) is None,
            decreases current,
        {
            let parent: NodeId = match self.parent(current) {
                Some(parent) => parent,
                None => {
                    break;
                },
            };
            let ghost before = up@;
            proof {
                if current == 0 {
                    assert(self.cells()[0].parent == NO_PARENT);
                }
                assert(self.cells()[current as int].parent < current);
            }
            up.push(parent);
            proof {
                assert(up@.reverse().drop_first() =~= before.reverse());
                assert(before.reverse() =~= seq![current] + before.reverse().drop_first());
                assert(chain_to(self.cells(), parent) + before.reverse() =~= chain_to(
                    self.cells(),
                    current,
                ) + before.reverse().drop_first());
            }
            current = parent;
        }
        let mut chain: Vec<NodeId> = Vec::new();
        let mut i: usize = up.len();
        while i > 0
            invariant
                i <= up.len(),
                chain.len() == up.len() - i,
                forall|k: int| 0 <= k < chain.len() ==> chain@[k] == up@[up.len() - 1 - k],
            decreases i,
        {
            i -= 1;
            chain.push(up[i]);
        }
        proof {
            assert(chain@ =~= up@.reverse());
            assert(up@.reverse() =~= seq![current] + up@.reverse().drop_first());
            assert(chain_to(self.cells(), current) =~= seq![current]);
        }
        chain
    }

    /// Absolute path of a node, rebuilt from the root's absolute name.
    pub fn path(&self, id: NodeId) -> (path: String)
        ensures
            path@ == path_of(self.cells(), id as int),
    {
        proof {
            use_type_invariant(self);
        }
        let chain: Vec<NodeId> = self.ancestors(id);
        let mut path: String = String::new();
        proof {
            chain_facts(self.cells(), id);
        }
        let mut i: usize = 0;
        while i < chain.len()
            invariant
                i <= chain.len(),
                chain@ == chain_to(self.cells(), id),
                linked(self.cells()),
                chain_links(self.cells(), chain@),
                path@ == if i == 0 {
                    Seq::empty()
                } else {
                    path_of(self.cells(), chain@[i - 1] as int)
                },
            decreases chain.len() - i,
        {
            if let Some(node) = self.get(chain[i]) {
                path = join(&path, &node.name);
                assert(i > 0 ==> parent_of(self.cells(), chain@[i as int] as int) == Some(
                    chain@[i - 1],
                ));
                proof {
                    assert(joined(Seq::empty(), node.name@) =~= node.name@);
                }
            } else {
                assert(i == 0);
            }
            i += 1;
        }
        path
    }

    /// Every node with its id, in id order.
    pub fn iter(&self) -> (all: Vec<(NodeId, &Node)>)
        ensures
            all.len() == self.cells().len(),
            forall|i: int|
                0 <= i < all.len() ==> (#[trigger] all[i]).0 == i && *all[i].1 == self.arena()[i],
    {
        proof {
            use_type_invariant(self);
        }
        let mut all: Vec<(NodeId, &Node)> = Vec::new();
        let mut i: usize = 0;
        while i < self.nodes.len()
            invariant
                i <= self.nodes.len() <= u32::MAX,
                all.len() == i,
                forall|k: int| 0 <= k < i ==> (#[trigger] all[k]).0 == k && *all[k].1 == self.nodes[k],
            decreases self.nodes.len() - i,
        {
            all.push((i as NodeId, &self.nodes[i]));
            i += 1;
        }
        all
    }

    /// The node at an absolute path, or `None` when the path is not in this tree. The
    /// inverse of [`Tree::path`], which is how a path that has been through the UI finds
    /// its node again.
    ///
    /// The match is component by component against the root's absolute name and then the
    /// names below it, so a trailing separator changes nothing and a path that merely
    /// starts with the root's name is not in the tree. Anything but a plain name below the
    /// root, `..` in particular, matches nothing rather than being resolved: a patch is
    /// spliced onto what the path says, and the path has to say it.
    ///
    /// The path has to be spelled the way the scan spelled it: no symlink is resolved, no
    /// case is folded, no Unicode is normalized.
    pub fn find(&self, path: &str) -> (id: Option<NodeId>)
        ensures
            id == found_at(self.cells(), path@),
    {
        proof {
            use_type_invariant(self);
        }
        if self.nodes.len() == 0 {
            return None;
        }
        let base: Vec<Part> = components(&self.nodes[0].name);
        let whole: Vec<Part> = components(path);
        if !opens(&base, &whole) {
            return None;
        }
        let ghost all = views(whole@);
        let mut current: NodeId = 0;
        let mut i: usize = base.len();
        while i < whole.len()
            invariant
                base.len() <= i <= whole.len(),
                all == views(whole@),
                views(base@) == parts(self.nodes[0].name@),
                parts(path@) == all,
                self.nodes.len() > 0,
                linked(self.cells()),
                current < self.nodes.len(),
                descended(self.cells(), current, all.skip(i as int)) == descended(
                    self.cells(),
                    0,
                    all.skip(base.len() as int),
                ),
                parts(self.cells()[0].name).is_prefix_of(parts(path@)),
            decreases whole.len() - i,
        {
            proof {
                assert(all.skip(i as int)[0] == whole[i as int]@);
                assert(all.skip(i as int).drop_first() =~= all.skip(i + 1));
            }
            match &whole[i] {
                Part::Name(name) => {
                    match self.child_named(current, name) {
                        Some(child) => {
                            current = child;
                        },
                        None => {
                            return None;
                        },
                    }
                },
                _ => {
                    return None;
                },
            }
            i += 1;
        }
        Some(current)
    }

    /// The first child of `id` with this name.
    fn child_named(&self, id: NodeId, name: &str) -> (child: Option<NodeId>)
        requires
            id < self.nodes.len(),
        ensures
            child == named_child(self.cells(), id as int, name@),
            child is Some ==> child->0 < self.nodes.len(),
    {
        proof {
            use_type_invariant(self);
        }
        let range: std::ops::Range<NodeId> = self.children(id);
        let mut child: NodeId = range.start;
        assert(self.cells()[id as int].count > 0 ==> range.end <= self.nodes.len());
        while child < range.end
            invariant
                range.start <= child <= range.end <= self.nodes.len(),
                id < self.nodes.len(),
                range.start == self.cells()[id as int].first,
                range.end == range.start + self.cells()[id as int].count,
                forall|j: int| range.start <= j < child ==> (#[trigger] self.cells()[j]).name != name@,
            decreases range.end - child,
        {
            if same(&self.nodes[child as usize].name, name) {
                proof {
                    assert(is_named(self.cells(), id as int, name@, child));
                    named_child_is(self.cells(), id as int, name@, child);
                }
                return Some(child);
            }
            child += 1;
        }
        assert forall|j: NodeId| !is_named(self.cells(), id as int, name@, j) by {
            if is_named(self.cells(), id as int, name@, j) {
                assert(self.cells()[j as int].name == name@);
            }
        }
        None
    }

    /// Why a directory could not be read (fully), if it could not.
    pub fn error(&self, id: NodeId) -> (message: Option<&str>)
        ensures
            message is Some == error_in(self.error_table(), id as int) is Some,
            message is Some ==> message->0@ == error_in(self.error_table(), id as int)->0,
    {
        proof {
            use_type_invariant(self);
        }
        let mut lo: usize = 0;
        let mut hi: usize = self.errors.len();
        while lo < hi
            invariant
                0 <= lo <= hi <= self.errors.len(),
                table_in_order(self.errors@),
                forall|k: int| 0 <= k < lo ==> (#[trigger] self.errors@[k]).0 < id,
                forall|k: int| hi <= k < self.errors.len() ==> (#[trigger] self.errors@[k]).0 > id,
            decreases hi - lo,
        {
            let mid: usize = lo + (hi - lo) / 2;
            let at: NodeId = self.errors[mid].0;
            if at == id {
                proof {
                    error_in_row(self.errors@, mid as int);
                }
                return Some(&self.errors[mid].1);
            }
            if at < id {
                lo = mid + 1;
            } else {
                hi = mid;
            }
        }
        assert forall|row: int| !row_of(self.errors@, row, id as int) by {}
        None
    }

    /// Every recorded error, sorted by id.
    pub fn errors(&self) -> (table: &[(NodeId, Box<str>)])
        ensures
            table@ == self.error_table(),
    {
        self.errors.as_slice()
    }
}

impl Clone for Tree {
    fn clone(&self) -> (copy: Self)
        ensures
            copy.cells() == self.cells(),
            copy.wf(),
    {
        proof {
            use_type_invariant(self);
        }
        let mut nodes: Vec<Node> = Vec::new();
        let mut i: usize = 0;
        while i < self.nodes.len()
            invariant
                i <= self.nodes.len(),
                nodes.len() == i,
                forall|k: int|
                    0 <= k < i ==> node_cell(#[trigger] nodes@[k], None, None) == node_cell(
                        self.nodes@[k],
                        None,
                        None,
                    ),
            decreases self.nodes.len() - i,
        {
            let node: Node = self.nodes[i].clone();
            nodes.push(node);
            i += 1;
        }
        let mut errors: Vec<(NodeId, Box<str>)> = Vec::new();
        let mut i: usize = 0;
        while i < self.errors.len()
            invariant
                i <= self.errors.len(),
                errors.len() == i,
                forall|k: int|
                    0 <= k < i ==> (#[trigger] errors@[k]).0 == self.errors@[k].0 && errors@[k].1@
                        == self.errors@[k].1@,
            decreases self.errors.len() - i,
        {
            errors.push((self.errors[i].0, boxed(&self.errors[i].1)));
            i += 1;
        }
        proof {
            assert forall|id: int| error_in(errors@, id) == error_in(self.errors@, id) by {
                same_tables(self.errors@, errors@, id);
            }
            let copy = cells_of(nodes@, errors@);
            assert forall|k: int| 0 <= k < copy.len() implies copy[k] == self.cells()[k] by {
                assert(node_cell(nodes@[k], None, None) == node_cell(self.nodes@[k], None, None));
            }
            assert(copy =~= self.cells());
        }
        Tree { nodes, errors }
    }
}

pub proof fn same_tables(a: Seq<(NodeId, Box<str>)>, b: Seq<(NodeId, Box<str>)>, id: int)
    requires
        table_in_order(a),
        a.len() == b.len(),
        forall|k: int| 0 <= k < a.len() ==> a[k].0 == (#[trigger] b[k]).0 && a[k].1@ == b[k].1@,
    ensures
        table_in_order(b),
        error_in(b, id) == error_in(a, id),
{
    assert forall|i: int, j: int| 0 <= i < j < b.len() implies (#[trigger] b[i]).0 < (#[trigger] b[j]).0 by {
        assert(a[i].0 < a[j].0);
    }
    if exists|row: int| row_of(a, row, id) {
        let row = choose|row: int| row_of(a, row, id);
        assert(row_of(b, row, id));
        error_in_row(b, row);
    } else {
        assert forall|row: int| !row_of(b, row, id) by {
            if row_of(b, row, id) {
                assert(row_of(a, row, id));
            }
        }
    }
}

/// The parent of a node, if it has one.
pub open spec fn parent_of(cells: Seq<Cell>, id: int) -> Option<NodeId> {
    if 0 <= id < cells.len() && cells[id].parent != NO_PARENT {
        Some(cells[id].parent)
    } else {
        None
    }
}

/// Ids from the root down to `id`, inclusive.
pub open spec fn chain_to(cells: Seq<Cell>, id: NodeId) -> Seq<NodeId>
    decreases id,
{
    match parent_of(cells, id as int) {
        Some(parent) if parent < id => chain_to(cells, parent).push(id),
        _ => seq![id],
    }
}

/// Each id of a chain is the parent of the next, and the first has none.
pub open spec fn chain_links(cells: Seq<Cell>, chain: Seq<NodeId>) -> bool {
    &&& chain.len() > 0
    &&& parent_of(cells, chain[0] as int) is None
    &&& forall|k: int| 0 < k < chain.len() ==> parent_of(cells, (#[trigger] chain[k]) as int) == Some(chain[k - 1])
}

pub proof fn chain_facts(cells: Seq<Cell>, id: NodeId)
    requires
        linked(cells),
    ensures
        chain_links(cells, chain_to(cells, id)),
        chain_to(cells, id).last() == id,
    decreases id,
{
    match parent_of(cells, id as int) {
        Some(parent) => {
            if id == 0 {
                assert(cells[0].parent == NO_PARENT);
            } else {
                assert(cells[id as int].parent < id);
                chain_facts(cells, parent);
                let before = chain_to(cells, parent);
                let chain = before.push(id);
                assert forall|k: int| 0 < k < chain.len() implies parent_of(
                    cells,
                    (#[trigger] chain[k]) as int,
                ) == Some(chain[k - 1]) by {
                    if k < before.len() {
                        assert(parent_of(cells, before[k] as int) == Some(before[k - 1]));
                    }
                }
            }
        },
        None => {},
    }
}

/// The path of a node: its name below the path of its parent.
pub open spec fn path_of(cells: Seq<Cell>, id: int) -> Seq<char>
    decreases id,
{
    if 0 <= id < cells.len() {
        match parent_of(cells, id) {
            Some(parent) if parent < id => joined(path_of(cells, parent as int), cells[id].name),
            _ => cells[id].name,
        }
    } else {
        Seq::empty()
    }
}

/// Whether `child` is the first child of `id` with this name.
pub open spec fn is_named(cells: Seq<Cell>, id: int, name: Seq<char>, child: NodeId) -> bool {
    &&& in_group(cells, id, child as int)
    &&& cells[child as int].name == name
    &&& forall|j: int| cells[id].first <= j < child ==> (#[trigger] cells[j]).name != name
}

/// The first child of `id` with this name.
pub open spec fn named_child(cells: Seq<Cell>, id: int, name: Seq<char>) -> Option<NodeId> {
    if exists|child: NodeId| is_named(cells, id, name, child) {
        Some(choose|child: NodeId| is_named(cells, id, name, child))
    } else {
        None
    }
}

pub proof fn named_child_is(cells: Seq<Cell>, id: int, name: Seq<char>, child: NodeId)
    requires
        is_named(cells, id, name, child),
    ensures
        named_child(cells, id, name) == Some(child),
{
    let found = choose|c: NodeId| is_named(cells, id, name, c);
    assert(is_named(cells, id, name, found));
    if found < child {
        assert(cells[found as int].name != name);
    } else if child < found {
        assert(cells[child as int].name != name);
    }
}

/// The node reached from `id` by these names, one directory at a time.
pub open spec fn descended(cells: Seq<Cell>, id: NodeId, names: Seq<PartSpec>) -> Option<NodeId>
    decreases names.len(),
{
    if names.len() == 0 {
        Some(id)
    } else {
        match names[0] {
            PartSpec::Name(name) => match named_child(cells, id as int, name) {
                Some(child) => descended(cells, child, names.drop_first()),
                None => None,
            },
            _ => None,
        }
    }
}

/// The node a path names: what its components below the root's own lead to.
pub open spec fn found_at(cells: Seq<Cell>, path: Seq<char>) -> Option<NodeId> {
    if cells.len() == 0 {
        None
    } else {
        let base = parts(cells[0].name);
        if base.is_prefix_of(parts(path)) {
            descended(cells, 0, parts(path).skip(base.len() as int))
        } else {
            None
        }
    }
}

} // verus!
