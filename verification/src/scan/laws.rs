//! What a scan makes of what it read.

use super::progress::{no_progress, wrapped_sum, ProgressSpec};
use super::tree::ceiling::{every_node_is_measured, measure, measures, measures_sorted};
use super::tree::ceiling::{measures_together, node_sum};
use super::tree::flatten::{link_in, link_in_row, link_row, links_in_order, message_text};
use super::tree::flatten::{subtree_shape, with_links, Subtree};
use super::tree::hardlinks::{deep_sorted, drained_all, drained_all_keeps, losers, same_links};
use super::tree::laws::{data_of, keeps, kept_by_some, linked_data_is_counted_once, shares};
use super::tree::{cell_shape, linked, node_cell, shape, Cell, NodeId, NodeKind, Shape, Tree};
use super::walk::{weigh, weigh_all};
use super::walk::{branch, branches, cells_weight, counted, counted_all, leaf_shapes, recorded, scanned, Listing, Rules};
use super::walker::{cell_of, leaf_cell, root_error, scan_error_text, scans, single, walked_into};
use super::walker::{Entry, Facts, IoError, ScanError, Survey, Walked};
use crate::order::{arrangement, arrangement_exists, picked_in_order, total, total_sorted, Ranked};
use crate::path::same_path;
use crate::text::{decimal_text, text_le};
use vstd::prelude::*;

verus! {

/// What `w` makes of every entry of a walk that is no directory, together.
pub open spec fn met(listing: Listing, w: spec_fn(Facts) -> nat) -> nat
    decreases listing,
{
    match listing {
        Listing::Read { entries, below } => met_here(entries@, w) + met_below(below@, w),
        _ => 0,
    }
}

/// What `w` makes of the entries of several walks.
pub open spec fn met_below(below: Seq<Listing>, w: spec_fn(Facts) -> nat) -> nat
    decreases below,
{
    if below.len() == 0 {
        0
    } else {
        met_below(below.drop_last(), w) + met(below.last(), w)
    }
}

/// What `w` makes of the entries of one directory that are no directories themselves.
pub open spec fn met_here(entries: Seq<Entry>, w: spec_fn(Facts) -> nat) -> nat
    decreases entries.len(),
{
    if entries.len() == 0 {
        0
    } else {
        met_here(entries.drop_last(), w) + match entries.last() {
            Entry::Found { path, name, facts } => if facts.is_dir {
                0
            } else {
                w(facts)
            },
            Entry::Unreadable => 0,
        }
    }
}

/// What `h` makes of a node that has other names.
spec fn by_link(h: spec_fn((u64, u64), u64, bool) -> nat) -> spec_fn(Shape) -> nat {
    |node: Shape|
        match node.link {
            Some(data) => h(data, node.size, node.children.len() > 0),
            None => 0,
        }
}

/// What `h` makes of an entry that has other names.
spec fn by_facts(h: spec_fn((u64, u64), u64, bool) -> nat) -> spec_fn(Facts) -> nat {
    |facts: Facts|
        if facts.nlink >= 2 {
            h((facts.dev, facts.ino), (facts.blocks * 512) as u64, false)
        } else {
            0
        }
}

proof fn leaves_come_to(walked: Walked, k: nat, h: spec_fn((u64, u64), u64, bool) -> nat)
    requires
        k <= walked.entries.len(),
    ensures
        measures(leaf_shapes(walked.leaves(k)), by_link(h)) == met_here(
            walked.entries.take(k as int),
            by_facts(h),
        ),
        walked.leaves(k).len() + walked.dirs(k).len() <= k,
        forall|i: int|
            0 <= i < walked.dirs(k).len() ==> (#[trigger] walked.dirs(k)[i]).1.link is None,
    decreases k,
{
    let now = walked.entries.take(k as int);
    if k > 0 {
        leaves_come_to(walked, (k - 1) as nat, h);
        let g = by_link(h);
        let before = walked.leaves((k - 1) as nat);
        let after = walked.leaves(k);
        assert(now.drop_last() =~= walked.entries.take(k - 1));
        assert(now.last() == walked.entries[k - 1]);
        if after.len() > before.len() {
            assert(after.drop_last() =~= before);
            assert(leaf_shapes(after).drop_last() =~= leaf_shapes(before));
            assert(leaf_shapes(after).last() == cell_shape(after.last(), Seq::empty()));
            assert(measures(leaf_shapes(after).last().children, g) == 0);
            assert(measure(leaf_shapes(after).last(), g) == g(leaf_shapes(after).last()));
        } else {
            assert(after == before);
        }
    } else {
        assert(leaf_shapes(walked.leaves(0)) =~= Seq::empty());
        assert(now =~= Seq::empty());
    }
}

proof fn a_walk_comes_to(
    cell: Cell,
    listing: Listing,
    rules: Rules,
    h: spec_fn((u64, u64), u64, bool) -> nat,
)
    requires
        recorded(listing, rules),
        cell.link is None,
    ensures
        measure(branch(cell, listing, rules), by_link(h)) == met(listing, by_facts(h)),
    decreases listing,
{
    let g = by_link(h);
    let whole = branch(cell, listing, rules);
    assert(g(whole) == 0);
    match listing {
        Listing::Read { entries, below } => {
            let n = entries@.len();
            let walked = rules.over(entries@);
            leaves_come_to(walked, n, h);
            assert(walked.entries.take(n as int) =~= walked.entries);
            walks_come_to(walked.dirs(n), below@, rules, h);
            let leaves = leaf_shapes(walked.leaves(n));
            let dirs = branches(walked.dirs(n), below@, rules);
            measures_together(leaves, dirs, g);
            assert(n == entries.len());
            measures_sorted(leaves + dirs, g);
        },
        _ => {
            assert(whole.children =~= Seq::empty());
        },
    }
}

proof fn walks_come_to(
    dirs: Seq<(Seq<char>, Cell)>,
    below: Seq<Listing>,
    rules: Rules,
    h: spec_fn((u64, u64), u64, bool) -> nat,
)
    requires
        below.len() <= dirs.len(),
        forall|i: int| 0 <= i < below.len() ==> recorded(#[trigger] below[i], rules),
        forall|i: int| 0 <= i < dirs.len() ==> (#[trigger] dirs[i]).1.link is None,
    ensures
        measures(branches(dirs, below, rules), by_link(h)) == met_below(below, by_facts(h)),
        branches(dirs, below, rules).len() == below.len(),
    decreases below,
{
    if below.len() > 0 {
        walks_come_to(dirs, below.drop_last(), rules, h);
        assert(recorded(below[below.len() - 1], rules));
        a_walk_comes_to(dirs[below.len() - 1].1, below.last(), rules, h);
        let all = branches(dirs, below, rules);
        assert(all.drop_last() =~= branches(dirs, below.drop_last(), rules));
    }
}

proof fn sum_of_equals(
    a: Seq<Cell>,
    b: Seq<Cell>,
    f: spec_fn(Shape) -> nat,
    g: spec_fn(Shape) -> nat,
    from: int,
)
    requires
        a.len() == b.len(),
        0 <= from <= a.len(),
        forall|i: int| from <= i < a.len() ==> f(#[trigger] shape(a, i)) == g(shape(b, i)),
    ensures
        node_sum(a, f, from) == node_sum(b, g, from),
    decreases a.len() - from,
{
    if from < a.len() {
        assert(f(shape(a, from)) == g(shape(b, from)));
        sum_of_equals(a, b, f, g, from + 1);
    }
}

proof fn sum_of_nothing(cells: Seq<Cell>, g: spec_fn(Shape) -> nat, from: int, i: int)
    requires
        0 <= from <= i < cells.len(),
        node_sum(cells, g, from) == 0,
    ensures
        g(shape(cells, i)) == 0,
    decreases cells.len() - from,
{
    if from < i {
        sum_of_nothing(cells, g, from + 1, i);
    }
}

proof fn sum_of_something(cells: Seq<Cell>, g: spec_fn(Shape) -> nat, from: int) -> (i: int)
    requires
        0 <= from <= cells.len(),
        node_sum(cells, g, from) > 0,
    ensures
        from <= i < cells.len(),
        g(shape(cells, i)) > 0,
    decreases cells.len() - from,
{
    if g(shape(cells, from)) > 0 {
        from
    } else {
        sum_of_something(cells, g, from + 1)
    }
}

proof fn sum_of_none(cells: Seq<Cell>, g: spec_fn(Shape) -> nat, from: int)
    requires
        0 <= from <= cells.len(),
        forall|i: int| from <= i < cells.len() ==> g(#[trigger] shape(cells, i)) == 0,
    ensures
        node_sum(cells, g, from) == 0,
    decreases cells.len() - from,
{
    if from < cells.len() {
        assert(g(shape(cells, from)) == 0);
        sum_of_none(cells, g, from + 1);
    }
}

proof fn sum_of_one(cells: Seq<Cell>, g: spec_fn(Shape) -> nat, from: int, x: int)
    requires
        0 <= from <= x < cells.len(),
        g(shape(cells, x)) == 1,
        forall|i: int| from <= i < cells.len() && i != x ==> g(#[trigger] shape(cells, i)) == 0,
    ensures
        node_sum(cells, g, from) == 1,
    decreases cells.len() - from,
{
    if from == x {
        sum_of_none(cells, g, from + 1);
    } else {
        assert(g(shape(cells, from)) == 0);
        sum_of_one(cells, g, from + 1, x);
    }
}

/// How many of the first `n` ids a list of links is about.
spec fn linked_ids(links: Seq<(u64, u64, NodeId)>, n: nat) -> nat
    decreases n,
{
    if n == 0 {
        0
    } else {
        linked_ids(links, (n - 1) as nat) + if link_in(links, n - 1) is Some {
            1nat
        } else {
            0nat
        }
    }
}

proof fn fewer_links_same_ids(
    a: Seq<(u64, u64, NodeId)>,
    b: Seq<(u64, u64, NodeId)>,
    n: nat,
)
    requires
        forall|i: int| 0 <= i < n ==> (#[trigger] link_in(a, i) is Some) == (link_in(b, i) is Some),
    ensures
        linked_ids(a, n) == linked_ids(b, n),
    decreases n,
{
    if n > 0 {
        assert((link_in(a, n - 1) is Some) == (link_in(b, n - 1) is Some));
        fewer_links_same_ids(a, b, (n - 1) as nat);
    }
}

proof fn every_link_has_an_id(links: Seq<(u64, u64, NodeId)>, n: nat)
    requires
        links_in_order(links, n),
    ensures
        linked_ids(links, n) == links.len(),
        links.len() <= n,
    decreases n,
{
    if n == 0 {
        if links.len() > 0 {
            assert(links[0].2 < n);
        }
    } else if links.len() > 0 && links.last().2 == n - 1 {
        let less = links.drop_last();
        assert forall|i: int| 0 <= i < less.len() implies (#[trigger] less[i]).2 < n - 1 by {
            assert(links[i].2 < links[links.len() - 1].2);
        }
        every_link_has_an_id(less, (n - 1) as nat);
        assert forall|i: int| 0 <= i < n - 1 implies (#[trigger] link_in(less, i) is Some) == (
        link_in(links, i) is Some) by {
            if exists|row: int| link_row(less, row, i) {
                let row = choose|row: int| link_row(less, row, i);
                assert(link_row(links, row, i));
            }
            if exists|row: int| link_row(links, row, i) {
                let row = choose|row: int| link_row(links, row, i);
                assert(row < less.len());
                assert(link_row(less, row, i));
            }
        }
        fewer_links_same_ids(less, links, (n - 1) as nat);
        assert(link_row(links, links.len() - 1, n - 1));
    } else {
        assert forall|i: int| 0 <= i < links.len() implies (#[trigger] links[i]).2 < n - 1 by {
            if i < links.len() - 1 {
                assert(links[i].2 < links[links.len() - 1].2);
            }
            assert(links[links.len() - 1].2 < n);
        }
        every_link_has_an_id(links, (n - 1) as nat);
        let last = n - 1;
        if exists|row: int| link_row(links, row, last) {
            let row = choose|row: int| link_row(links, row, last);
            assert(links[row].2 < n - 1);
        }
    }
}

proof fn linked_nodes(cells: Seq<Cell>, links: Seq<(u64, u64, NodeId)>, from: nat)
    requires
        from <= cells.len(),
    ensures
        node_sum(
            with_links(cells, links),
            |node: Shape|
                if node.link is Some {
                    1
                } else {
                    0
                },
            from as int,
        ) + linked_ids(links, from) == linked_ids(links, cells.len()),
    decreases cells.len() - from,
{
    let g = |node: Shape|
        if node.link is Some {
            1nat
        } else {
            0nat
        };
    let tagged = with_links(cells, links);
    if from < cells.len() {
        linked_nodes(cells, links, (from + 1) as nat);
        assert(shape(tagged, from as int).link == link_in(links, from as int));
        assert(node_sum(tagged, g, from as int) == g(shape(tagged, from as int)) + node_sum(
            tagged,
            g,
            (from + 1) as int,
        ));
    }
}

/// A tree without what is known of its links.
pub open spec fn unlinked(shape: Shape) -> Shape
    decreases shape,
{
    Shape { link: None, children: all_unlinked(shape.children), ..shape }
}

/// Trees without what is known of their links.
pub open spec fn all_unlinked(shapes: Seq<Shape>) -> Seq<Shape>
    decreases shapes,
{
    if shapes.len() == 0 {
        Seq::empty()
    } else {
        all_unlinked(shapes.drop_last()).push(unlinked(shapes.last()))
    }
}

proof fn all_unlinked_at(shapes: Seq<Shape>)
    ensures
        all_unlinked(shapes).len() == shapes.len(),
        forall|i: int|
            0 <= i < shapes.len() ==> #[trigger] all_unlinked(shapes)[i] == unlinked(shapes[i]),
    decreases shapes.len(),
{
    if shapes.len() > 0 {
        all_unlinked_at(shapes.drop_last());
    }
}

proof fn without_links_again(cells: Seq<Cell>, links: Seq<(u64, u64, NodeId)>, id: int)
    requires
        linked(cells),
        0 <= id < cells.len(),
        forall|i: int| 0 <= i < cells.len() ==> (#[trigger] cells[i]).link is None,
    ensures
        unlinked(shape(with_links(cells, links), id)) == shape(cells, id),
    decreases cells.len() - id,
{
    let tagged = with_links(cells, links);
    let a = shape(tagged, id);
    let b = shape(cells, id);
    assert(tagged[id].count == cells[id].count && tagged[id].first == cells[id].first);
    all_unlinked_at(a.children);
    assert forall|k: int| 0 <= k < b.children.len() implies #[trigger] b.children[k]
        == all_unlinked(a.children)[k] by {
        let child = cells[id].first + k;
        assert(id < child < cells.len());
        without_links_again(cells, links, child);
        assert(a.children[k] == shape(tagged, child));
        assert(b.children[k] == shape(cells, child));
    }
    assert(all_unlinked(a.children) =~= b.children);
    assert(cells[id].link is None);
}

/// One for an entry that has other names and shares the data `(dev, ino)`.
pub open spec fn linked_to(dev: u64, ino: u64) -> spec_fn(Facts) -> nat {
    |facts: Facts|
        if facts.nlink >= 2 && facts.dev == dev && facts.ino == ino {
            1
        } else {
            0
        }
}

/// One for such an entry that takes no blocks.
pub open spec fn linked_to_nothing(dev: u64, ino: u64) -> spec_fn(Facts) -> nat {
    |facts: Facts|
        if facts.nlink >= 2 && facts.dev == dev && facts.ino == ino && facts.blocks == 0 {
            1
        } else {
            0
        }
}

/// One for an entry that has other names.
pub open spec fn has_other_names() -> spec_fn(Facts) -> nat {
    |facts: Facts|
        if facts.nlink >= 2 {
            1
        } else {
            0
        }
}

/// One for a node that shares the data `(dev, ino)`.
pub open spec fn carrying(dev: u64, ino: u64) -> spec_fn(Shape) -> nat {
    |node: Shape|
        if node.link == Some((dev, ino)) {
            1
        } else {
            0
        }
}

/// One for such a node that has a size.
pub open spec fn weighing(dev: u64, ino: u64) -> spec_fn(Shape) -> nat {
    |node: Shape|
        if node.link == Some((dev, ino)) && node.size > 0 {
            1
        } else {
            0
        }
}

/// What is known of a scan once its links are: the arena before the data was attributed, and the
/// links in it.
spec fn attributed(
    flat: Tree,
    links: Seq<(u64, u64, NodeId)>,
    cell: Cell,
    listing: Listing,
    rules: Rules,
) -> bool {
    &&& linked(flat.cells())
    &&& flat.cells().len() > 0
    &&& links_in_order(links, flat.cells().len())
    &&& shape(with_links(flat.cells(), links), 0) == branch(cell, listing, rules)
    &&& recorded(listing, rules)
    &&& cell.link is None
}

proof fn nodes_come_to(
    flat: Tree,
    links: Seq<(u64, u64, NodeId)>,
    cell: Cell,
    listing: Listing,
    rules: Rules,
    h: spec_fn((u64, u64), u64, bool) -> nat,
)
    requires
        attributed(flat, links, cell, listing, rules),
    ensures
        linked(with_links(flat.cells(), links)),
        node_sum(with_links(flat.cells(), links), by_link(h), 0) == met(listing, by_facts(h)),
{
    let tagged = with_links(flat.cells(), links);
    same_links(flat.cells(), tagged);
    a_walk_comes_to(cell, listing, rules, h);
    every_node_is_measured(tagged, by_link(h));
}

proof fn met_nothing(listing: Listing, w: spec_fn(Facts) -> nat)
    requires
        forall|facts: Facts| #[trigger] w(facts) == 0,
    ensures
        met(listing, w) == 0,
    decreases listing,
{
    match listing {
        Listing::Read { entries, below } => {
            met_nothing_here(entries@, w);
            met_nothing_below(below@, w);
        },
        _ => {},
    }
}

proof fn met_nothing_here(entries: Seq<Entry>, w: spec_fn(Facts) -> nat)
    requires
        forall|facts: Facts| #[trigger] w(facts) == 0,
    ensures
        met_here(entries, w) == 0,
    decreases entries.len(),
{
    if entries.len() > 0 {
        met_nothing_here(entries.drop_last(), w);
    }
}

proof fn met_nothing_below(below: Seq<Listing>, w: spec_fn(Facts) -> nat)
    requires
        forall|facts: Facts| #[trigger] w(facts) == 0,
    ensures
        met_below(below, w) == 0,
    decreases below,
{
    if below.len() > 0 {
        met_nothing_below(below.drop_last(), w);
        met_nothing(below.last(), w);
    }
}

proof fn links_are_leaves(
    flat: Tree,
    links: Seq<(u64, u64, NodeId)>,
    cell: Cell,
    listing: Listing,
    rules: Rules,
)
    requires
        attributed(flat, links, cell, listing, rules),
    ensures
        forall|i: int| 0 <= i < links.len() ==> flat.cells()[(#[trigger] links[i]).2 as int].count == 0,
{
    let tagged = with_links(flat.cells(), links);
    let h = |data: (u64, u64), size: u64, inner: bool|
        if inner {
            1nat
        } else {
            0nat
        };
    nodes_come_to(flat, links, cell, listing, rules, h);
    met_nothing(listing, by_facts(h));
    assert forall|i: int| 0 <= i < links.len() implies flat.cells()[(
    #[trigger] links[i]).2 as int].count == 0 by {
        let id = links[i].2 as int;
        link_in_row(links, flat.cells().len(), i);
        sum_of_nothing(tagged, by_link(h), 0, id);
        assert(shape(tagged, id).link is Some);
        assert(shape(tagged, id).children.len() == flat.cells()[id].count);
    }
}

/// The names that share data are counted one by one, and their data once. `told` is the tree with
/// what is known of the links written to its nodes. In it every entry that is no directory and
/// has a second name, whatever the number of its names, stands with the data it shares. Of those
/// that share one `(dev, ino)` exactly one has a size, where the data takes any blocks at all. As
/// many links are skipped as there are entries with other names, less the data they share.
pub proof fn linked_data_weighs_once(
    cell: Cell,
    listing: Listing,
    rules: Rules,
    tree: Tree,
    skipped: u64,
) -> (told: Shape)
    requires
        scanned(cell, listing, rules, tree, skipped),
        recorded(listing, rules),
        cell.link is None,
    ensures
        tree.shape() == deep_sorted(unlinked(told)),
        forall|dev: u64, ino: u64| #[trigger]
            met(listing, linked_to(dev, ino)) == measure(told, carrying(dev, ino)),
        forall|dev: u64, ino: u64|
            #[trigger] met(listing, linked_to(dev, ino)) > 0 && met(
                listing,
                linked_to_nothing(dev, ino),
            ) == 0 ==> measure(told, weighing(dev, ino)) == 1,
        ({
            let shared = Set::new(
                |data: (u64, u64)| met(listing, linked_to(data.0, data.1)) > 0,
            );
            &&& shared.finite()
            &&& skipped + shared.len() == met(listing, has_other_names())
        }),
{
    let subtree = choose|subtree: Subtree| #[trigger]
        scans(subtree, tree, skipped) && subtree_shape(subtree) == branch(cell, listing, rules);
    let (flat, links) = choose|flat: Tree, links: Seq<(u64, u64, NodeId)>| #[trigger]
        walked_into(subtree, flat, links, tree, skipped);
    let cells = flat.cells();
    let gone = losers(cells, links);
    let left = drained_all(cells, gone);
    let tagged = with_links(cells, links);
    let named = with_links(left, links);
    let told = shape(named, 0);
    assert(cells.len() > 0);
    assert(attributed(flat, links, cell, listing, rules));
    every_link_has_an_id(links, cells.len());
    links_are_leaves(flat, links, cell, listing, rules);
    linked_data_is_counted_once(cells, links);
    drained_all_keeps(cells, gone);
    assert forall|i: int| 0 <= i < cells.len() implies (#[trigger] left[i]).parent
        == cells[i].parent && left[i].first == cells[i].first && left[i].count == cells[i].count
        && left[i].link is None by {
        assert(cells[i].link is None);
    }
    same_links(cells, left);
    same_links(left, named);
    without_links_again(left, links, 0);
    assert forall|dev: u64, ino: u64| #[trigger]
        met(listing, linked_to(dev, ino)) == measure(told, carrying(dev, ino)) by {
        names_are_counted(flat, links, cell, listing, rules, dev, ino);
        every_node_is_measured(named, carrying(dev, ino));
        sum_of_equals(tagged, named, carrying(dev, ino), carrying(dev, ino), 0);
    }
    assert forall|dev: u64, ino: u64|
        #[trigger] met(listing, linked_to(dev, ino)) > 0 && met(
            listing,
            linked_to_nothing(dev, ino),
        ) == 0 implies measure(told, weighing(dev, ino)) == 1 by {
        one_of_them_weighs(flat, links, cell, listing, rules, dev, ino);
        every_node_is_measured(named, weighing(dev, ino));
    }
    links_are_counted(flat, links, cell, listing, rules);
    told
}

proof fn names_are_counted(
    flat: Tree,
    links: Seq<(u64, u64, NodeId)>,
    cell: Cell,
    listing: Listing,
    rules: Rules,
    dev: u64,
    ino: u64,
)
    requires
        attributed(flat, links, cell, listing, rules),
    ensures
        node_sum(with_links(flat.cells(), links), carrying(dev, ino), 0) == met(
            listing,
            linked_to(dev, ino),
        ),
{
    let h = |data: (u64, u64), size: u64, inner: bool|
        if data == (dev, ino) {
            1nat
        } else {
            0nat
        };
    nodes_come_to(flat, links, cell, listing, rules, h);
    assert(by_link(h) =~= carrying(dev, ino));
    assert(by_facts(h) =~= linked_to(dev, ino));
}

proof fn one_of_them_weighs(
    flat: Tree,
    links: Seq<(u64, u64, NodeId)>,
    cell: Cell,
    listing: Listing,
    rules: Rules,
    dev: u64,
    ino: u64,
)
    requires
        attributed(flat, links, cell, listing, rules),
        met(listing, linked_to(dev, ino)) > 0,
        met(listing, linked_to_nothing(dev, ino)) == 0,
    ensures
        node_sum(
            with_links(drained_all(flat.cells(), losers(flat.cells(), links)), links),
            weighing(dev, ino),
            0,
        ) == 1,
{
    let cells = flat.cells();
    let gone = losers(cells, links);
    let left = drained_all(cells, gone);
    let tagged = with_links(cells, links);
    let named = with_links(left, links);
    drained_all_keeps(cells, gone);
    every_link_has_an_id(links, cells.len());
    links_are_leaves(flat, links, cell, listing, rules);
    linked_data_is_counted_once(cells, links);
    names_are_counted(flat, links, cell, listing, rules, dev, ino);
    let some = sum_of_something(tagged, carrying(dev, ino), 0);
    assert(tagged[some].link == Some((dev, ino)));
    assert(link_in(links, some) == Some((dev, ino)));
    let row = choose|row: int| link_row(links, row, some);
    assert(link_row(links, row, some));
    link_in_row(links, cells.len(), row);
    assert(kept_by_some(cells, links, row));
    let kept = choose|j: int|
        0 <= j < links.len() && #[trigger] shares(links, row, j) && keeps(cells, links, j);
    let x = links[kept].2 as int;
    link_in_row(links, cells.len(), kept);
    assert(left[x] == cells[x]);
    let h = |data: (u64, u64), size: u64, inner: bool|
        if data == (dev, ino) && size == 0 {
            1nat
        } else {
            0nat
        };
    nodes_come_to(flat, links, cell, listing, rules, h);
    assert(met(listing, by_facts(h)) == 0) by {
        same_where_sizes_fit(listing, rules, h, dev, ino);
    }
    sum_of_nothing(tagged, by_link(h), 0, x);
    assert(shape(tagged, x).link == Some((dev, ino)));
    assert(shape(tagged, x).size == cells[x].size);
    assert(cells[x].size > 0);
    let g = weighing(dev, ino);
    assert(shape(named, x).link == Some((dev, ino)));
    assert(g(shape(named, x)) == 1);
    assert forall|i: int| 0 <= i < named.len() && i != x implies g(#[trigger] shape(named, i)) == 0 by {
        assert(shape(named, i).link == link_in(links, i));
        assert(shape(named, i).size == left[i].size);
        if link_in(links, i) == Some((dev, ino)) {
            let other = choose|row: int| link_row(links, row, i);
            assert(link_row(links, other, i));
            link_in_row(links, cells.len(), other);
            assert(shares(links, kept, other));
            assert(links[other].2 == i);
            if keeps(cells, links, other) {
                assert(other == kept);
            }
            assert(left[links[other].2 as int].size == 0);
        }
    }
    sum_of_one(named, g, 0, x);
}

proof fn same_where_sizes_fit(
    listing: Listing,
    rules: Rules,
    h: spec_fn((u64, u64), u64, bool) -> nat,
    dev: u64,
    ino: u64,
)
    requires
        recorded(listing, rules),
        forall|data: (u64, u64), size: u64, inner: bool| #[trigger]
            h(data, size, inner) == if data == (dev, ino) && size == 0 {
                1nat
            } else {
                0nat
            },
    ensures
        met(listing, by_facts(h)) == met(listing, linked_to_nothing(dev, ino)),
    decreases listing,
{
    match listing {
        Listing::Read { entries, below } => {
            same_here(entries@, h, dev, ino);
            same_below(below@, rules, h, dev, ino);
        },
        _ => {},
    }
}

proof fn same_here(
    entries: Seq<Entry>,
    h: spec_fn((u64, u64), u64, bool) -> nat,
    dev: u64,
    ino: u64,
)
    requires
        forall|i: int|
            0 <= i < entries.len() ==> (#[trigger] entries[i] matches Entry::Found { facts, .. }
                ==> facts.blocks * 512 <= u64::MAX),
        forall|data: (u64, u64), size: u64, inner: bool| #[trigger]
            h(data, size, inner) == if data == (dev, ino) && size == 0 {
                1nat
            } else {
                0nat
            },
    ensures
        met_here(entries, by_facts(h)) == met_here(entries, linked_to_nothing(dev, ino)),
    decreases entries.len(),
{
    if entries.len() > 0 {
        let fewer = entries.drop_last();
        assert forall|i: int| 0 <= i < fewer.len() implies (
        #[trigger] fewer[i] matches Entry::Found { facts, .. } ==> facts.blocks * 512 <= u64::MAX) by {
            assert(fewer[i] == entries[i]);
        }
        same_here(fewer, h, dev, ino);
        let last = entries[entries.len() - 1];
        if let Entry::Found { path, name, facts } = last {
            assert(facts.blocks * 512 <= u64::MAX);
            assert(((facts.blocks * 512) as u64 == 0) == (facts.blocks == 0));
            assert(by_facts(h)(facts) == linked_to_nothing(dev, ino)(facts));
        }
    }
}

proof fn same_below(
    below: Seq<Listing>,
    rules: Rules,
    h: spec_fn((u64, u64), u64, bool) -> nat,
    dev: u64,
    ino: u64,
)
    requires
        forall|i: int| 0 <= i < below.len() ==> recorded(#[trigger] below[i], rules),
        forall|data: (u64, u64), size: u64, inner: bool| #[trigger]
            h(data, size, inner) == if data == (dev, ino) && size == 0 {
                1nat
            } else {
                0nat
            },
    ensures
        met_below(below, by_facts(h)) == met_below(below, linked_to_nothing(dev, ino)),
    decreases below,
{
    if below.len() > 0 {
        same_below(below.drop_last(), rules, h, dev, ino);
        assert(recorded(below[below.len() - 1], rules));
        same_where_sizes_fit(below.last(), rules, h, dev, ino);
    }
}

proof fn links_are_counted(
    flat: Tree,
    links: Seq<(u64, u64, NodeId)>,
    cell: Cell,
    listing: Listing,
    rules: Rules,
)
    requires
        attributed(flat, links, cell, listing, rules),
    ensures
        links.len() == met(listing, has_other_names()),
        data_of(links) == Set::new(
            |data: (u64, u64)| met(listing, linked_to(data.0, data.1)) > 0,
        ),
        data_of(links).finite(),
{
    let cells = flat.cells();
    let tagged = with_links(cells, links);
    let h = |data: (u64, u64), size: u64, inner: bool| 1nat;
    let any = |node: Shape|
        if node.link is Some {
            1nat
        } else {
            0nat
        };
    nodes_come_to(flat, links, cell, listing, rules, h);
    assert(by_link(h) =~= any);
    assert(by_facts(h) =~= has_other_names());
    linked_nodes(cells, links, 0);
    every_link_has_an_id(links, cells.len());
    let keys = links.map_values(|link: (u64, u64, NodeId)| (link.0, link.1));
    let shared = Set::new(|data: (u64, u64)| met(listing, linked_to(data.0, data.1)) > 0);
    assert forall|data: (u64, u64)| data_of(links).contains(data) == #[trigger] shared.contains(data) by {
        let g = carrying(data.0, data.1);
        names_are_counted(flat, links, cell, listing, rules, data.0, data.1);
        if keys.contains(data) {
            let row = choose|row: int| 0 <= row < keys.len() && keys[row] == data;
            link_in_row(links, cells.len(), row);
            let id = links[row].2 as int;
            assert(shape(tagged, id).link == Some(data));
            if node_sum(tagged, g, 0) == 0 {
                sum_of_nothing(tagged, g, 0, id);
            }
        }
        if shared.contains(data) {
            let id = sum_of_something(tagged, g, 0);
            assert(tagged[id].link == Some(data));
            let row = choose|row: int| link_row(links, row, id);
            assert(link_row(links, row, id));
            link_in_row(links, cells.len(), row);
            assert(keys[row] == data);
        }
    }
    assert(data_of(links) =~= shared);
}

/// Whether a leaf of a survey is what a stat said: by its blocks, by its bytes, and, where it has
/// a second name, by the data it shares. A directory is listed where it is on another volume, and
/// says so.
pub open spec fn stands_for(leaf: Subtree, name: Seq<char>, facts: Facts) -> bool {
    &&& leaf.node.name@ == name
    &&& leaf.node.size == facts.blocks * 512
    &&& leaf.node.mtime == facts.mtime
    &&& leaf.children@.len() == 0
    &&& facts.is_dir ==> {
        &&& leaf.node.kind == NodeKind::Dir
        &&& leaf.node.logical_size == 0
        &&& leaf.node.file_count == 0
        &&& leaf.hardlink is None
        &&& message_text(leaf.error) == Some("skipped: different volume"@)
    }
    &&& !facts.is_dir ==> {
        &&& leaf.node.kind == if facts.is_symlink {
            NodeKind::Symlink
        } else if facts.is_file {
            NodeKind::File
        } else {
            NodeKind::Other
        }
        &&& leaf.node.logical_size == facts.len
        &&& leaf.node.file_count == 1
        &&& message_text(leaf.error) is None
        &&& facts.nlink >= 2 ==> leaf.hardlink == Some((facts.dev, facts.ino))
        &&& facts.nlink <= 1 ==> leaf.hardlink is None
    }
}

/// Whether a directory is held back by the options of a scan.
pub open spec fn held_back(excludes: Seq<Seq<char>>, path: Seq<char>) -> bool {
    exists|k: int| 0 <= k < excludes.len() && same_path(#[trigger] excludes[k], path)
}

/// Whether an entry is listed and not walked into: anything but a directory, and a directory on
/// another volume where the scan stays on its own.
pub open spec fn is_listed(entry: Entry, walked: Walked) -> bool {
    match entry {
        Entry::Unreadable => false,
        Entry::Found { path, name, facts } => if facts.is_dir {
            !held_back(walked.excludes, path@) && walked.same_device && facts.dev != walked.root_dev
        } else {
            true
        },
    }
}

/// Whether an entry is walked into.
pub open spec fn is_walked(entry: Entry, walked: Walked) -> bool {
    match entry {
        Entry::Unreadable => false,
        Entry::Found { path, name, facts } => facts.is_dir && !held_back(walked.excludes, path@) && (
        !walked.same_device || facts.dev == walked.root_dev),
    }
}

proof fn listed_cells(walked: Walked, k: nat) -> (at: Seq<int>)
    requires
        k <= walked.entries.len(),
    ensures
        at.len() == walked.leaves(k).len(),
        forall|a: int, b: int| 0 <= a < b < at.len() ==> (#[trigger] at[a]) < (#[trigger] at[b]),
        forall|l: int|
            0 <= l < at.len() ==> 0 <= #[trigger] at[l] < k && is_listed(walked.entries[at[l]], walked),
        forall|i: int|
            0 <= i < k && is_listed(#[trigger] walked.entries[i], walked) ==> at.contains(i),
        forall|l: int|
            0 <= l < at.len() ==> (walked.entries[#[trigger] at[l]] matches Entry::Found {
                path,
                name,
                facts,
            } ==> walked.leaves(k)[l] == Cell {
                error: if facts.is_dir {
                    Some("skipped: different volume"@)
                } else {
                    None
                },
                link: if !facts.is_dir && facts.nlink >= 2 {
                    Some((facts.dev, facts.ino))
                } else {
                    None
                },
                ..cell_of(name@, facts)
            }),
    decreases k,
{
    if k == 0 {
        Seq::empty()
    } else {
        let before = listed_cells(walked, (k - 1) as nat);
        let entry = walked.entries[k - 1];
        if is_listed(entry, walked) {
            let at = before.push(k - 1);
            assert(walked.leaves(k).len() == walked.leaves((k - 1) as nat).len() + 1);
            assert forall|i: int| 0 <= i < k && is_listed(#[trigger] walked.entries[i], walked) implies at.contains(
            i) by {
                if i < k - 1 {
                    assert(before.contains(i));
                    let l = choose|l: int| 0 <= l < before.len() && before[l] == i;
                    assert(at[l] == i);
                } else {
                    assert(at[before.len() as int] == i);
                }
            }
            at
        } else {
            before
        }
    }
}

/// A survey lists every entry that is no directory, and every directory on another volume where
/// the scan stays on its own, each with what its stat said, in the order they were read. Nothing
/// else is listed.
pub proof fn a_survey_lists_what_it_does_not_walk(found: Survey, walked: Walked) -> (at: Seq<int>)
    requires
        found.leaves@.len() == walked.leaves(walked.entries.len()).len(),
        forall|i: int|
            0 <= i < found.leaves@.len() ==> leaf_cell(#[trigger] found.leaves@[i])
                == walked.leaves(walked.entries.len())[i] && found.leaves@[i].children@.len() == 0,
        forall|i: int|
            0 <= i < walked.entries.len() ==> (#[trigger] walked.entries[i] matches Entry::Found {
                facts,
                ..
            } ==> facts.blocks * 512 <= u64::MAX),
    ensures
        at.len() == found.leaves@.len(),
        forall|a: int, b: int| 0 <= a < b < at.len() ==> (#[trigger] at[a]) < (#[trigger] at[b]),
        forall|i: int|
            0 <= i < walked.entries.len() ==> at.contains(i) == is_listed(
                #[trigger] walked.entries[i],
                walked,
            ),
        forall|l: int|
            0 <= l < at.len() ==> 0 <= #[trigger] at[l] < walked.entries.len() && (
            walked.entries[at[l]] matches Entry::Found { path, name, facts } && stands_for(
                found.leaves@[l],
                name@,
                facts,
            )),
{
    let n = walked.entries.len();
    let at = listed_cells(walked, n);
    assert forall|l: int| 0 <= l < at.len() implies 0 <= #[trigger] at[l] < n && (
    walked.entries[at[l]] matches Entry::Found { path, name, facts } && stands_for(
        found.leaves@[l],
        name@,
        facts,
    )) by {
        let entry = walked.entries[at[l]];
        assert(is_listed(entry, walked));
        assert(leaf_cell(found.leaves@[l]) == walked.leaves(n)[l]);
    }
    assert forall|i: int| 0 <= i < n implies at.contains(i) == is_listed(
        #[trigger] walked.entries[i],
        walked,
    ) by {
        if at.contains(i) {
            let l = choose|l: int| 0 <= l < at.len() && at[l] == i;
            assert(is_listed(walked.entries[at[l]], walked));
        }
    }
    at
}

proof fn walked_cells(walked: Walked, k: nat) -> (at: Seq<int>)
    requires
        k <= walked.entries.len(),
    ensures
        at.len() == walked.dirs(k).len(),
        forall|a: int, b: int| 0 <= a < b < at.len() ==> (#[trigger] at[a]) < (#[trigger] at[b]),
        forall|l: int|
            0 <= l < at.len() ==> 0 <= #[trigger] at[l] < k && is_walked(walked.entries[at[l]], walked),
        forall|i: int|
            0 <= i < k && is_walked(#[trigger] walked.entries[i], walked) ==> at.contains(i),
        forall|l: int|
            0 <= l < at.len() ==> (walked.entries[#[trigger] at[l]] matches Entry::Found {
                path,
                name,
                facts,
            } ==> walked.dirs(k)[l] == (path@, cell_of(name@, facts))),
    decreases k,
{
    if k == 0 {
        Seq::empty()
    } else {
        let before = walked_cells(walked, (k - 1) as nat);
        let entry = walked.entries[k - 1];
        if is_walked(entry, walked) {
            let at = before.push(k - 1);
            assert(walked.dirs(k).len() == walked.dirs((k - 1) as nat).len() + 1);
            assert forall|i: int| 0 <= i < k && is_walked(#[trigger] walked.entries[i], walked) implies at.contains(
            i) by {
                if i < k - 1 {
                    assert(before.contains(i));
                    let l = choose|l: int| 0 <= l < before.len() && before[l] == i;
                    assert(at[l] == i);
                } else {
                    assert(at[before.len() as int] == i);
                }
            }
            at
        } else {
            before
        }
    }
}

/// A survey walks every directory that is not held back and, where the scan stays on its own
/// volume, is on it. It walks them by their own paths, in the order they were read, and each
/// starts from its own blocks.
pub proof fn a_survey_walks_what_is_in_reach(found: Survey, walked: Walked) -> (at: Seq<int>)
    requires
        found.dirs@.len() == walked.dirs(walked.entries.len()).len(),
        forall|i: int|
            0 <= i < found.dirs@.len() ==> (#[trigger] found.dirs@[i]).0@ == walked.dirs(
                walked.entries.len(),
            )[i].0 && node_cell(found.dirs@[i].1, None, None) == walked.dirs(
                walked.entries.len(),
            )[i].1,
        forall|i: int|
            0 <= i < walked.entries.len() ==> (#[trigger] walked.entries[i] matches Entry::Found {
                facts,
                ..
            } ==> facts.blocks * 512 <= u64::MAX),
    ensures
        at.len() == found.dirs@.len(),
        forall|a: int, b: int| 0 <= a < b < at.len() ==> (#[trigger] at[a]) < (#[trigger] at[b]),
        forall|i: int|
            0 <= i < walked.entries.len() ==> at.contains(i) == is_walked(
                #[trigger] walked.entries[i],
                walked,
            ),
        forall|l: int|
            0 <= l < at.len() ==> 0 <= #[trigger] at[l] < walked.entries.len() && (
            walked.entries[at[l]] matches Entry::Found { path, name, facts } && {
                &&& found.dirs@[l].0@ == path@
                &&& found.dirs@[l].1.name@ == name@
                &&& found.dirs@[l].1.kind == NodeKind::Dir
                &&& found.dirs@[l].1.size == facts.blocks * 512
                &&& found.dirs@[l].1.logical_size == 0
                &&& found.dirs@[l].1.file_count == 0
                &&& found.dirs@[l].1.mtime == facts.mtime
            }),
{
    let n = walked.entries.len();
    let at = walked_cells(walked, n);
    assert forall|l: int| 0 <= l < at.len() implies 0 <= #[trigger] at[l] < n && (
    walked.entries[at[l]] matches Entry::Found { path, name, facts } && {
        &&& found.dirs@[l].0@ == path@
        &&& found.dirs@[l].1.name@ == name@
        &&& found.dirs@[l].1.kind == NodeKind::Dir
        &&& found.dirs@[l].1.size == facts.blocks * 512
        &&& found.dirs@[l].1.logical_size == 0
        &&& found.dirs@[l].1.file_count == 0
        &&& found.dirs@[l].1.mtime == facts.mtime
    }) by {
        let entry = walked.entries[at[l]];
        assert(is_walked(entry, walked));
        assert(found.dirs@[l].0@ == walked.dirs(n)[l].0);
    }
    assert forall|i: int| 0 <= i < n implies at.contains(i) == is_walked(
        #[trigger] walked.entries[i],
        walked,
    ) by {
        if at.contains(i) {
            let l = choose|l: int| 0 <= l < at.len() && at[l] == i;
            assert(is_walked(walked.entries[at[l]], walked));
        }
    }
    at
}

/// What could not be read is counted, and only that.
pub proof fn what_could_not_be_read_is_counted(walked: Walked, k: nat)
    requires
        k < walked.entries.len(),
    ensures
        walked.unreadable(0) == 0,
        walked.unreadable((k + 1) as nat) == walked.unreadable(k) + if walked.entries[k as int] is Unreadable {
            1nat
        } else {
            0nat
        },
{
}

/// One for every entry.
pub open spec fn each() -> spec_fn(Facts) -> nat {
    |facts: Facts| 1
}

/// How many directories a walk met: the one it starts in, those it walked below it, and those it
/// listed and passed by.
pub open spec fn dirs_met(listing: Listing, rules: Rules) -> nat
    decreases listing,
{
    match listing {
        Listing::Read { entries, below } => 1 + passed_by(entries@, rules.over(entries@))
            + dirs_met_below(below@, rules),
        _ => 1,
    }
}

/// How many directories several walks met.
pub open spec fn dirs_met_below(below: Seq<Listing>, rules: Rules) -> nat
    decreases below,
{
    if below.len() == 0 {
        0
    } else {
        dirs_met_below(below.drop_last(), rules) + dirs_met(below.last(), rules)
    }
}

/// How many of these entries are directories that are listed and not entered.
pub open spec fn passed_by(entries: Seq<Entry>, walked: Walked) -> nat
    decreases entries.len(),
{
    if entries.len() == 0 {
        0
    } else {
        passed_by(entries.drop_last(), walked) + match entries.last() {
            Entry::Found { path, name, facts } => if facts.is_dir && is_listed(
                entries.last(),
                walked,
            ) {
                1
            } else {
                0
            },
            Entry::Unreadable => 0nat,
        }
    }
}

/// How often reading failed: once for every directory that could not be listed, and once for
/// every entry that could not be looked at.
pub open spec fn failures(listing: Listing) -> nat
    decreases listing,
{
    match listing {
        Listing::Read { entries, below } => failed_here(entries@) + failures_below(below@),
        Listing::Unreadable(_) => 1,
        Listing::Cancelled => 0,
    }
}

/// How often reading failed in several walks.
pub open spec fn failures_below(below: Seq<Listing>) -> nat
    decreases below,
{
    if below.len() == 0 {
        0
    } else {
        failures_below(below.drop_last()) + failures(below.last())
    }
}

/// How many of these entries could not be looked at.
pub open spec fn failed_here(entries: Seq<Entry>) -> nat
    decreases entries.len(),
{
    if entries.len() == 0 {
        0
    } else {
        failed_here(entries.drop_last()) + if entries.last() is Unreadable {
            1nat
        } else {
            0nat
        }
    }
}

/// Whether one counter is another with so much added, starting over where it no longer fits.
pub open spec fn moved_on(before: u64, after: u64, by: nat) -> bool {
    after == (before + by) % 0x1_0000_0000_0000_0000
}

proof fn moving_on(a: u64, b: u64, c: u64, m: nat, n: nat)
    requires
        moved_on(a, b, m),
        moved_on(b, c, n),
    ensures
        moved_on(a, c, m + n),
{
    let w: int = 0x1_0000_0000_0000_0000;
    assert(((a + m) % w + n) % w == (a + m + n) % w) by {
        vstd::arithmetic::div_mod::lemma_add_mod_noop(a + m, n as int, w);
        vstd::arithmetic::div_mod::lemma_mod_twice(a + m, w);
        vstd::arithmetic::div_mod::lemma_add_mod_noop((a + m) % w, n as int, w);
    }
}

proof fn moved_by_one(a: u64)
    ensures
        moved_on(a, wrapped_sum(a, 1), 1),
        moved_on(a, a, 0),
{
    let w: int = 0x1_0000_0000_0000_0000;
    if a == u64::MAX {
        vstd::arithmetic::div_mod::lemma_mod_self_0(w);
    } else {
        vstd::arithmetic::div_mod::lemma_small_mod((a + 1) as nat, w as nat);
    }
    vstd::arithmetic::div_mod::lemma_small_mod(a as nat, w as nat);
}

/// Whether the counters moved on by so many files, directories and errors.
pub open spec fn counters_moved(
    before: ProgressSpec,
    after: ProgressSpec,
    files: nat,
    dirs: nat,
    errors: nat,
) -> bool {
    &&& moved_on(before.files, after.files, files)
    &&& moved_on(before.dirs, after.dirs, dirs)
    &&& moved_on(before.errors, after.errors, errors)
}

proof fn counters_moving(
    a: ProgressSpec,
    b: ProgressSpec,
    c: ProgressSpec,
    m: (nat, nat, nat),
    n: (nat, nat, nat),
)
    requires
        counters_moved(a, b, m.0, m.1, m.2),
        counters_moved(b, c, n.0, n.1, n.2),
    ensures
        counters_moved(a, c, m.0 + n.0, m.1 + n.1, m.2 + n.2),
{
    moving_on(a.files, b.files, c.files, m.0, n.0);
    moving_on(a.dirs, b.dirs, c.dirs, m.1, n.1);
    moving_on(a.errors, b.errors, c.errors, m.2, n.2);
}

proof fn counters_stay(a: ProgressSpec, b: ProgressSpec)
    requires
        a.files == b.files,
        a.dirs == b.dirs,
        a.errors == b.errors,
    ensures
        counters_moved(a, b, 0, 0, 0),
{
    moved_by_one(a.files);
    moved_by_one(a.dirs);
    moved_by_one(a.errors);
}

proof fn one_file(a: ProgressSpec, bytes: u64)
    ensures
        counters_moved(a, a.with_file(bytes), 1, 0, 0),
        counters_moved(a, a.with_dir(bytes), 0, 1, 0),
        counters_moved(a, a.with_error(), 0, 0, 1),
{
    moved_by_one(a.files);
    moved_by_one(a.dirs);
    moved_by_one(a.errors);
}

proof fn so_many_errors(a: ProgressSpec, count: nat)
    ensures
        counters_moved(a, a.with_errors(count), 0, 0, count),
    decreases count,
{
    if count == 0 {
        counters_stay(a, a);
    } else {
        so_many_errors(a, (count - 1) as nat);
        let before = a.with_errors((count - 1) as nat);
        one_file(before, 0);
        counters_moving(
            a,
            before,
            a.with_errors(count),
            (0, 0, (count - 1) as nat),
            (0, 0, 1),
        );
    }
}

proof fn listing_moves(walked: Walked, start: ProgressSpec, k: nat)
    requires
        k <= walked.entries.len(),
    ensures
        counters_moved(
            start,
            walked.progress(start, k),
            met_here(walked.entries.take(k as int), each()),
            passed_by(walked.entries.take(k as int), walked),
            0,
        ),
        walked.unreadable(k) == failed_here(walked.entries.take(k as int)),
    decreases k,
{
    let now = walked.entries.take(k as int);
    if k == 0 {
        assert(now =~= Seq::empty());
        counters_stay(start, start);
    } else {
        listing_moves(walked, start, (k - 1) as nat);
        let fewer = now.drop_last();
        assert(fewer =~= walked.entries.take(k - 1));
        assert(now.last() == walked.entries[k - 1]);
        let before = walked.progress(start, (k - 1) as nat);
        let after = walked.progress(start, k);
        let bytes = match walked.entries[k - 1] {
            Entry::Found { path, name, facts } => (facts.blocks * 512) as u64,
            Entry::Unreadable => 0,
        };
        one_file(before, bytes);
        counters_stay(before, before);
        let more = if after == before {
            (0nat, 0nat, 0nat)
        } else if after == before.with_file(bytes) {
            (1nat, 0nat, 0nat)
        } else {
            (0nat, 1nat, 0nat)
        };
        let files = met_here(now, each());
        let dirs = passed_by(now, walked);
        let step: (nat, nat, nat) = (
            (files - met_here(fewer, each())) as nat,
            (dirs - passed_by(fewer, walked)) as nat,
            0nat,
        );
        assert(counters_moved(before, after, step.0, step.1, step.2));
        counters_moving(
            start,
            before,
            after,
            (met_here(fewer, each()), passed_by(fewer, walked), 0),
            step,
        );
    }
}

/// A scan counts what it met: one file for every entry that is no directory, one directory for
/// every directory walked or passed by, one error for everything that could not be read.
pub proof fn a_scan_counts_what_it_met(
    start: ProgressSpec,
    path: Seq<char>,
    cell: Cell,
    listing: Listing,
    rules: Rules,
)
    ensures
        counters_moved(
            start,
            counted(start, path, cell, listing, rules),
            met(listing, each()),
            dirs_met(listing, rules),
            failures(listing),
        ),
    decreases listing,
{
    let entered = ProgressSpec { current_path: path, ..start };
    counters_stay(start, entered);
    match listing {
        Listing::Cancelled => {
            one_file(entered, cell.size);
            counters_moving(start, entered, entered.with_dir(cell.size), (0, 0, 0), (0, 1, 0));
        },
        Listing::Unreadable(_) => {
            let failed = entered.with_error();
            one_file(entered, cell.size);
            one_file(failed, cell.size);
            counters_moving(start, entered, failed, (0, 0, 0), (0, 0, 1));
            counters_moving(start, failed, failed.with_dir(cell.size), (0, 0, 1), (0, 1, 0));
        },
        Listing::Read { entries, below } => {
            let n = entries@.len();
            let walked = rules.over(entries@);
            let all = entries@;
            assert(walked.entries.take(n as int) =~= all);
            listing_moves(walked, entered, n);
            let listed = walked.progress(entered, n);
            let here = (met_here(all, each()), passed_by(all, walked), 0nat);
            counters_moving(start, entered, listed, (0, 0, 0), here);
            scans_count(listed, walked.dirs(n), below@, rules);
            let walks = counted_all(listed, walked.dirs(n), below@, rules);
            let there = (
                met_below(below@, each()),
                dirs_met_below(below@, rules),
                failures_below(below@),
            );
            counters_moving(start, listed, walks, here, there);
            let closed = walks.with_dir(cell.size);
            one_file(walks, cell.size);
            let sum = (here.0 + there.0, here.1 + there.1, here.2 + there.2);
            counters_moving(start, walks, closed, sum, (0, 1, 0));
            so_many_errors(closed, walked.unreadable(n));
            counters_moving(
                start,
                closed,
                closed.with_errors(walked.unreadable(n)),
                (sum.0, sum.1 + 1, sum.2),
                (0, 0, walked.unreadable(n)),
            );
        },
    }
}

proof fn scans_count(
    start: ProgressSpec,
    dirs: Seq<(Seq<char>, Cell)>,
    below: Seq<Listing>,
    rules: Rules,
)
    ensures
        counters_moved(
            start,
            counted_all(start, dirs, below, rules),
            met_below(below, each()),
            dirs_met_below(below, rules),
            failures_below(below),
        ),
    decreases below,
{
    if below.len() == 0 {
        counters_stay(start, start);
    } else {
        let fewer = below.drop_last();
        scans_count(start, dirs, fewer, rules);
        let before = counted_all(start, dirs, fewer, rules);
        let dir = dirs[below.len() - 1];
        a_scan_counts_what_it_met(before, dir.0, dir.1, below.last(), rules);
        counters_moving(
            start,
            before,
            counted_all(start, dirs, below, rules),
            (met_below(fewer, each()), dirs_met_below(fewer, rules), failures_below(fewer)),
            (met(below.last(), each()), dirs_met(below.last(), rules), failures(below.last())),
        );
    }
}

proof fn leaves_weigh(leaves: Seq<Cell>)
    ensures
        cells_weight(leaves).size == total(leaf_shapes(leaves), |node: Shape| node.size as nat),
        cells_weight(leaves).logical_size == total(
            leaf_shapes(leaves),
            |node: Shape| node.logical_size as nat,
        ),
        cells_weight(leaves).file_count == total(
            leaf_shapes(leaves),
            |node: Shape| node.file_count as nat,
        ),
    decreases leaves.len(),
{
    let all = leaf_shapes(leaves);
    if leaves.len() > 0 {
        leaves_weigh(leaves.drop_last());
        assert(all.drop_last() =~= leaf_shapes(leaves.drop_last()));
        assert(all.last() == cell_shape(leaves.last(), Seq::empty()));
    }
}

proof fn walks_weigh(dirs: Seq<(Seq<char>, Cell)>, below: Seq<Listing>, rules: Rules)
    requires
        below.len() <= dirs.len(),
        weigh_all(dirs, below, rules).fits(),
    ensures
        weigh_all(dirs, below, rules).size == total(
            branches(dirs, below, rules),
            |node: Shape| node.size as nat,
        ),
        weigh_all(dirs, below, rules).logical_size == total(
            branches(dirs, below, rules),
            |node: Shape| node.logical_size as nat,
        ),
        weigh_all(dirs, below, rules).file_count == total(
            branches(dirs, below, rules),
            |node: Shape| node.file_count as nat,
        ),
        branches(dirs, below, rules).len() == below.len(),
    decreases below.len(),
{
    let all = branches(dirs, below, rules);
    if below.len() > 0 {
        let fewer = below.drop_last();
        walks_weigh(dirs, fewer, rules);
        assert(all.drop_last() =~= branches(dirs, fewer, rules));
        let cell = dirs[below.len() - 1].1;
        assert(all.last() == branch(cell, below.last(), rules));
        let one = weigh(cell, below.last(), rules);
        assert(one.size <= u64::MAX && one.logical_size <= u64::MAX && one.file_count <= u32::MAX);
        assert(all.last().size == one.size);
        assert(all.last().logical_size == one.logical_size);
        assert(all.last().file_count == one.file_count);
    }
}

/// A directory that was read weighs its own blocks and what stands in it, counts the files below
/// it, and lists what stands in it largest first, by name where two are the same size.
pub proof fn a_directory_weighs_what_stands_in_it(cell: Cell, listing: Listing, rules: Rules)
    requires
        recorded(listing, rules),
        listing is Read,
        weigh(cell, listing, rules).fits(),
    ensures
        ({
            let node = branch(cell, listing, rules);
            &&& node.name == cell.name
            &&& node.kind == cell.kind
            &&& node.mtime == cell.mtime
            &&& node.size == cell.size + total(node.children, |child: Shape| child.size as nat)
            &&& node.logical_size == cell.logical_size + total(
                node.children,
                |child: Shape| child.logical_size as nat,
            )
            &&& node.file_count == cell.file_count + total(
                node.children,
                |child: Shape| child.file_count as nat,
            )
            &&& forall|a: int, b: int|
                0 <= a < b < node.children.len() ==> {
                    let one = #[trigger] node.children[a];
                    let other = #[trigger] node.children[b];
                    &&& one.size >= other.size
                    &&& one.size == other.size ==> text_le(one.name, other.name)
                }
        }),
{
    if let Listing::Read { entries, below } = listing {
        let n = entries@.len();
        let walked = rules.over(entries@);
        let h = |data: (u64, u64), size: u64, inner: bool| 0nat;
        leaves_come_to(walked, n, h);
        let leaves = leaf_shapes(walked.leaves(n));
        leaves_weigh(walked.leaves(n));
        walks_weigh(walked.dirs(n), below@, rules);
        let dirs = branches(walked.dirs(n), below@, rules);
        let all = leaves + dirs;
        assert(n == entries.len());
        total_together(leaves, dirs, |child: Shape| child.size as nat);
        total_together(leaves, dirs, |child: Shape| child.logical_size as nat);
        total_together(leaves, dirs, |child: Shape| child.file_count as nat);
        total_sorted(all, |child: Shape| child.size as nat);
        total_sorted(all, |child: Shape| child.logical_size as nat);
        total_sorted(all, |child: Shape| child.file_count as nat);
        arrangement_exists(all);
        picked_in_order(all, arrangement(all));
        let node = branch(cell, listing, rules);
        assert forall|a: int, b: int| 0 <= a < b < node.children.len() implies {
            let one = #[trigger] node.children[a];
            let other = #[trigger] node.children[b];
            &&& one.size >= other.size
            &&& one.size == other.size ==> text_le(one.name, other.name)
        } by {
            assert(node.children[a].le(node.children[b]));
        }
    }
}

proof fn total_together<T>(a: Seq<T>, b: Seq<T>, f: spec_fn(T) -> nat)
    ensures
        total(a + b, f) == total(a, f) + total(b, f),
    decreases b.len(),
{
    if b.len() == 0 {
        assert(a + b =~= a);
    } else {
        total_together(a, b.drop_last(), f);
        assert((a + b).drop_last() =~= a + b.drop_last());
        assert((a + b).last() == b.last());
    }
}

/// A directory the walk did not read stands alone, with its own blocks and why: that the scan was
/// cancelled, or what the disk said. One whose entries could not all be read says how many.
pub proof fn a_directory_says_what_is_missing(cell: Cell, listing: Listing, rules: Rules)
    ensures
        listing is Cancelled ==> branch(cell, listing, rules).error == Some("scan cancelled"@),
        listing matches Listing::Unreadable(message) ==> branch(cell, listing, rules).error == Some(
            message@,
        ),
        !(listing is Read) ==> branch(cell, listing, rules).children.len() == 0 && branch(
            cell,
            listing,
            rules,
        ).size == cell.size,
        listing matches Listing::Read { entries, below } ==> {
            let missing = failed_here(entries@);
            branch(cell, listing, rules).error == if missing == 0 {
                None
            } else if missing == 1 {
                Some("1 entry could not be read"@)
            } else {
                Some(decimal_text(missing) + " entries could not be read"@)
            }
        },
{
    if let Listing::Read { entries, below } = listing {
        let walked = rules.over(entries@);
        listing_moves(walked, no_progress(), entries@.len());
        assert(walked.entries.take(entries@.len() as int) =~= entries@);
        reveal_strlit("1 entry could not be read");
        reveal_strlit(" entry could not be read");
        assert(decimal_text(1) =~= seq!['1']) by {
            reveal_with_fuel(decimal_text, 2);
        }
        assert(seq!['1'] + " entry could not be read"@ =~= "1 entry could not be read"@);
    }
}

/// What is said of a root that cannot be read names the root, the kind of the error and what the
/// system said.
pub proof fn an_unreadable_root_says_why(error: ScanError, path: Seq<char>, io: IoError)
    requires
        root_error(error, path, io),
    ensures
        error is Root,
        error->Root_path@ == path,
        error->Root_kind == io.kind,
        error->Root_source@ == io.message@,
        scan_error_text(error) == "cannot read "@ + path + ": "@ + io.message@,
{
}

/// What is looked at again and is no directory to walk is one node: with the name, the kind and
/// the size that the look gave, and nothing below it.
pub proof fn a_single_node_is_what_was_looked_at(tree: Tree, name: Seq<char>, facts: Facts)
    requires
        single(tree, cell_of(name, facts)),
        facts.blocks * 512 <= u64::MAX,
    ensures
        tree.cells().len() == 1,
        tree.shape().children.len() == 0,
        tree.shape().name == name,
        tree.shape().size == facts.blocks * 512,
        tree.shape().mtime == facts.mtime,
        facts.is_dir <==> tree.shape().kind == NodeKind::Dir,
        !facts.is_dir && facts.is_symlink ==> tree.shape().kind == NodeKind::Symlink,
        !facts.is_dir && !facts.is_symlink && facts.is_file ==> tree.shape().kind == NodeKind::File,
        facts.is_dir ==> tree.shape().logical_size == 0 && tree.shape().file_count == 0,
        !facts.is_dir ==> tree.shape().logical_size == facts.len && tree.shape().file_count == 1,
        tree.shape().error is None,
{
}

} // verus!
