//! The arena tree: flattening, looking up, patching and hard links.

use std::collections::HashSet;
use std::ops::Range;

use storage_monitor::scan::tree::splice::applicable_patches;
use storage_monitor::scan::{replace_subtrees, Node, NodeId, NodeKind, Subtree, Tree};


fn node(name: &str, kind: NodeKind, size: u64) -> Node {
    Node::new(name, kind, size, size, u32::from(kind != NodeKind::Dir), 0)
}

fn leaf(name: &str, size: u64) -> Subtree {
    Subtree::new(node(name, NodeKind::File, size))
}

fn dir(name: &str, size: u64, children: Vec<Subtree>) -> Subtree {
    Subtree::with_children(node(name, NodeKind::Dir, size), children)
}

fn names(tree: &Tree, ids: Range<NodeId>) -> Vec<&str> {
    ids.map(|id| &*tree.get(id).unwrap().name).collect()
}

/// A directory whose totals are aggregated the way a walk does it: its own allocated
/// blocks plus everything below it. The `dir` helper above leaves the totals to the caller, which is what the arena tests want and what the patching ones
/// cannot use: re-aggregation is only meaningful over a tree that was aggregated once.
fn aggregated(name: &str, own: u64, children: Vec<Subtree>) -> Subtree {
    let mut node = node(name, NodeKind::Dir, own);
    node.logical_size = 0;
    for child in &children {
        node.size += child.node.size;
        node.logical_size += child.node.logical_size;
        node.file_count += child.node.file_count;
    }
    Subtree::with_children(node, children)
}

/// ```text
/// /root            own 20, total 200
///   a              own 65, total 100
///     inner        own  5, total  35
///       x.bin (30)
///   b.bin (80)
/// ```
fn nested() -> Tree {
    aggregated(
        "/root",
        20,
        vec![
            aggregated(
                "a",
                65,
                vec![aggregated("inner", 5, vec![leaf("x.bin", 30)])],
            ),
            leaf("b.bin", 80),
        ],
    )
    .flatten()
    .0
}

fn find(tree: &Tree, path: &str) -> NodeId {
    tree.find(path)
        .unwrap_or_else(|| panic!("no node at {path}"))
}

fn totals_of(tree: &Tree, path: &str) -> (u64, u64, u32) {
    let node = tree.get(find(tree, path)).unwrap();
    (node.size, node.logical_size, node.file_count)
}

/// The three totals as plain numbers, so the arithmetic below is written out by hand
/// instead of going through the [`Totals`] the rebuild itself sums with.
fn weight(node: &Node) -> (u64, u64, u32) {
    (node.size, node.logical_size, node.file_count)
}

/// Nodes in the subtree rooted at `id`, itself included.
fn subtree_len(tree: &Tree, id: NodeId) -> usize {
    let mut total = 0;
    let mut stack = vec![id];
    while let Some(current) = stack.pop() {
        total += 1;
        stack.extend(tree.children(current));
    }
    total
}

/// Every error of a tree keyed by the path it sits on, which is what has to survive a
/// rebuild: the ids around it move.
fn errors_by_path(tree: &Tree) -> Vec<(String, &str)> {
    tree.errors()
        .iter()
        .map(|(id, message)| (tree.path(*id), &**message))
        .collect()
}

/// Every structural invariant of the arena, which a rebuild has to re-establish and a small
/// fixture would not notice losing: breadth-first order, sibling ranges that partition the
/// arena, back-pointers, sorted groups, a sorted error table.
fn assert_invariants(tree: &Tree) {
    if tree.is_empty() {
        assert!(tree.errors().is_empty(), "errors without nodes");
        return;
    }
    assert_eq!(tree.parent(Tree::ROOT), None, "the root has no parent");
    let mut next = 1;
    for id in 0..tree.len() as NodeId {
        let children = tree.children(id);
        if tree.child_count(id) == 0 {
            assert_eq!(children, 0..0, "{id} has no children");
            continue;
        }
        assert_eq!(
            children.start, next,
            "the children of {id} do not follow the previous group"
        );
        assert_eq!(children.end - children.start, tree.child_count(id));
        next = children.end;
        assert!(
            next as usize <= tree.len(),
            "the children of {id} run past the arena"
        );
        for child in children.clone() {
            assert_eq!(tree.parent(child), Some(id), "parent of {child}");
            assert!(child > id, "child {child} comes before its parent {id}");
        }
        let group: Vec<&Node> = children.map(|child| tree.get(child).unwrap()).collect();
        assert!(
            group
                .windows(2)
                .all(|w| w[0].size > w[1].size || (w[0].size == w[1].size && w[0].name <= w[1].name)),
            "the children of {id} are not sorted"
        );
    }
    assert_eq!(next as usize, tree.len(), "some node is not anybody's child");
    let ids: Vec<NodeId> = tree.errors().iter().map(|(id, _)| *id).collect();
    assert!(
        ids.windows(2).all(|w| w[0] < w[1]),
        "the error table is not sorted: {ids:?}"
    );
    assert!(
        ids.iter().all(|id| (*id as usize) < tree.len()),
        "an error points outside the arena: {ids:?}"
    );
}

/// A splice is not checked more weakly than the tree being spliced: kind, sizes, counts,
/// mtime, errors and child names, all the way down. The roots' names are not compared —
/// a replacement names its root with the absolute path it was walked from, and the
/// splice keeps the name of the node it takes the place of.
fn assert_same_subtree(a: &Tree, a_id: NodeId, b: &Tree, b_id: NodeId) {
    let (x, y) = (a.get(a_id).unwrap(), b.get(b_id).unwrap());
    let at = b.path(b_id);
    assert_eq!(x.kind, y.kind, "kind at {at}");
    assert_eq!(x.size, y.size, "size at {at}");
    assert_eq!(x.logical_size, y.logical_size, "logical size at {at}");
    assert_eq!(x.file_count, y.file_count, "file count at {at}");
    assert_eq!(x.mtime, y.mtime, "mtime at {at}");
    assert_eq!(a.error(a_id), b.error(b_id), "error at {at}");
    assert_eq!(a.child_count(a_id), b.child_count(b_id), "children of {at}");
    for (a_child, b_child) in a.children(a_id).zip(b.children(b_id)) {
        assert_eq!(
            &*a.get(a_child).unwrap().name,
            &*b.get(b_child).unwrap().name,
            "child names under {at}"
        );
        assert_same_subtree(a, a_child, b, b_child);
    }
}

fn sample() -> Tree {
    // /root
    //   a/        (dir)
    //     x.bin   (30)
    //     y.bin    (5)
    //   b.bin     (10)
    dir(
        "/root",
        0,
        vec![
            dir("a", 0, vec![leaf("y.bin", 5), leaf("x.bin", 30)]),
            leaf("b.bin", 10),
        ],
    )
    .flatten()
    .0
}


#[test]
fn flatten_assigns_parents_and_children() {
    let tree = sample();
    assert_eq!(tree.len(), 5);
    assert!(!tree.is_empty());
    assert_eq!(tree.parent(Tree::ROOT), None);
    assert_eq!(tree.child_count(Tree::ROOT), 2);
    // a is a dir with size 0 here (aggregation happens in the walker), so b.bin (10) comes first
    let a = tree.children(Tree::ROOT).nth(1).unwrap();
    assert_eq!(&*tree.get(a).unwrap().name, "a");
    assert_eq!(tree.parent(a), Some(Tree::ROOT));
    assert_eq!(tree.child_count(a), 2);
    assert!(tree.has_children(a));
    let x = tree.children(a).next().unwrap();
    assert!(!tree.has_children(x));
    assert_eq!(tree.children(x), 0..0);
    assert!(tree.get(99).is_none());
    assert_eq!(tree.parent(99), None);
    assert_eq!(tree.children(99), 0..0);
    assert_eq!(tree.child_count(99), 0);
}

#[test]
fn children_are_sorted_by_size_descending() {
    let tree = sample();
    assert_eq!(names(&tree, tree.children(Tree::ROOT)), vec!["b.bin", "a"]);
    let a = tree.children(Tree::ROOT).nth(1).unwrap();
    assert_eq!(names(&tree, tree.children(a)), vec!["x.bin", "y.bin"]);
}

#[test]
fn children_ids_are_contiguous_and_ties_break_on_name() {
    // Ties on size are ordered by name; a directory's children follow all of its
    // parent's children (breadth first), so every sibling range is contiguous.
    let tree = dir(
        "/r",
        0,
        vec![
            leaf("c.bin", 10),
            dir("d", 10, vec![leaf("inner.bin", 10)]),
            leaf("a.bin", 10),
            leaf("b.bin", 20),
        ],
    )
    .flatten()
    .0;
    assert_eq!(tree.len(), 6);
    assert_eq!(tree.children(Tree::ROOT), 1..5);
    assert_eq!(names(&tree, 1..5), vec!["b.bin", "a.bin", "c.bin", "d"]);
    assert_eq!(tree.children(4), 5..6);
    assert_eq!(&*tree.get(5).unwrap().name, "inner.bin");
    assert_eq!(tree.parent(5), Some(4));
    let ids: Vec<NodeId> = tree.iter().into_iter().map(|(id, _)| id).collect();
    assert_eq!(ids, vec![0, 1, 2, 3, 4, 5]);
}

#[test]
fn path_and_ancestors_are_reconstructed_from_names() {
    let tree = sample();
    let a = tree.children(Tree::ROOT).nth(1).unwrap();
    let x = tree.children(a).next().unwrap();
    assert_eq!(tree.path(x), String::from("/root/a/x.bin"));
    assert_eq!(tree.ancestors(x), vec![Tree::ROOT, a, x]);
    assert_eq!(tree.path(Tree::ROOT), String::from("/root"));
    assert_eq!(tree.ancestors(Tree::ROOT), vec![Tree::ROOT]);
}

#[test]
fn errors_live_in_a_side_table_sorted_by_id() {
    let mut locked = dir("locked", 0, vec![]);
    locked.error = Some("permission denied".into());
    let mut root = dir("/r", 0, vec![leaf("big.bin", 50), locked]);
    root.error = Some("2 entries could not be read".into());
    let tree = root.flatten().0;
    assert_eq!(tree.error(Tree::ROOT), Some("2 entries could not be read"));
    assert_eq!(tree.error(1), None, "big.bin has no error");
    assert_eq!(tree.error(2), Some("permission denied"));
    assert_eq!(tree.error(99), None);
    let ids: Vec<NodeId> = tree.errors().iter().map(|(id, _)| *id).collect();
    assert_eq!(ids, vec![0, 2]);
}

#[test]
fn flatten_counts_nodes_and_reports_hard_linked_ones() {
    let mut a = leaf("a.bin", 10);
    a.hardlink = Some((1, 42));
    let mut b = leaf("b.bin", 10);
    b.hardlink = Some((1, 42));
    let subtree = dir("/r", 0, vec![a, b, leaf("c.bin", 5)]);
    assert_eq!(subtree.count(), 4);
    let (tree, links) = subtree.flatten();
    assert_eq!(tree.len(), 4);
    assert_eq!(links, vec![(1, 42, 1), (1, 42, 2)]);
}

#[test]
fn hard_links_go_to_the_smallest_path_and_siblings_are_resorted() {
    // /r
    //   a/  z.bin (8, inode 7)             winner: /r/a/z.bin sorts before /r/b/a.bin
    //   b/  a.bin (8, inode 7), s.bin (4)  b carries an error that must follow it when it moves
    //   c.bin (5)
    let mut z = leaf("z.bin", 8);
    z.hardlink = Some((1, 7));
    let mut a_link = leaf("a.bin", 8);
    a_link.hardlink = Some((1, 7));
    let mut b = dir("b", 12, vec![a_link, leaf("s.bin", 4)]);
    b.error = Some("1 entry could not be read".into());
    let (mut tree, links) =
        dir("/r", 25, vec![dir("a", 8, vec![z]), b, leaf("c.bin", 5)]).flatten();
    assert_eq!(
        names(&tree, tree.children(Tree::ROOT)),
        vec!["b", "a", "c.bin"]
    );
    assert_eq!(tree.error(1), Some("1 entry could not be read"));

    assert_eq!(tree.attribute_hard_links(links), 1);

    assert_eq!(tree.root().size, 17);
    assert_eq!(tree.root().logical_size, 17, "logical bytes follow");
    assert_eq!(
        names(&tree, tree.children(Tree::ROOT)),
        vec!["a", "c.bin", "b"]
    );
    let a = tree.children(Tree::ROOT).next().unwrap();
    let b = tree.children(Tree::ROOT).nth(2).unwrap();
    assert_eq!(tree.get(a).unwrap().size, 8);
    assert_eq!(tree.get(b).unwrap().size, 4);
    assert_eq!(tree.get(b).unwrap().logical_size, 4);
    assert_eq!(tree.error(a), None);
    assert_eq!(tree.error(b), Some("1 entry could not be read"));
    assert_eq!(tree.errors().len(), 1);
    assert_eq!(names(&tree, tree.children(b)), vec!["s.bin", "a.bin"]);
    let a_link = tree.children(b).nth(1).unwrap();
    assert_eq!(tree.get(a_link).unwrap().size, 0);
    assert_eq!(tree.get(a_link).unwrap().logical_size, 0);
    assert_eq!(tree.parent(a_link), Some(b));
    assert_eq!(tree.path(a_link), String::from("/r/b/a.bin"));
    let z = tree.children(a).next().unwrap();
    assert_eq!(tree.get(z).unwrap().size, 8);
    assert_eq!(tree.parent(z), Some(a));
    assert_eq!(tree.path(z), String::from("/r/a/z.bin"));
}

#[test]
fn attribution_without_duplicates_changes_nothing() {
    let mut only = leaf("only.bin", 8);
    only.hardlink = Some((1, 7));
    let (mut tree, links) = dir("/r", 8, vec![only]).flatten();
    assert_eq!(tree.attribute_hard_links(links), 0);
    assert_eq!(tree.root().size, 8);
    assert_eq!(tree.attribute_hard_links(Vec::new()), 0);
}

#[test]
fn node_is_compact() {
    let size = std::mem::size_of::<Node>();
    assert!(size <= 64, "Node is {size} bytes");
}


#[test]
fn find_locates_a_node_by_its_absolute_path() {
    let tree = sample(); // /root with a/{x.bin,y.bin} and b.bin
    let a = tree.find("/root/a").unwrap();
    assert_eq!(tree.get(a).unwrap().name.as_ref(), "a");
    assert_eq!(tree.find("/root"), Some(Tree::ROOT));
    assert_eq!(tree.find("/root/nope"), None);
    assert_eq!(tree.find("/elsewhere"), None);
}

#[test]
fn dropping_a_node_shrinks_its_ancestors() {
    let tree = sample();
    let a = tree.find("/root/a").unwrap();
    let patched = replace_subtrees(&tree, vec![(a, None)]);
    assert_eq!(patched.find("/root/a"), None);
    assert_eq!(patched.root().size, 10, "only b.bin is left");
    assert_eq!(patched.root().file_count, 1);
    assert_eq!(patched.children(Tree::ROOT).len(), 1);
}

#[test]
fn a_replacement_subtree_takes_the_place_of_the_old_one() {
    let tree = sample();
    let a = tree.find("/root/a").unwrap();
    let remainder = Subtree::with_children(
        Node::new("whatever", NodeKind::Dir, 0, 0, 0, 7),
        vec![Subtree::new(Node::new("y.bin", NodeKind::File, 5, 5, 1, 7))],
    );
    let (replacement, _) = remainder.flatten();
    let patched = replace_subtrees(&tree, vec![(a, Some(replacement))]);
    let a = patched.find("/root/a").unwrap();
    assert_eq!(
        patched.get(a).unwrap().name.as_ref(),
        "a",
        "the old name is kept"
    );
    assert_eq!(patched.get(a).unwrap().size, 5);
    assert_eq!(patched.root().size, 15);
    assert_eq!(patched.child_count(a), 1);
}

#[test]
fn children_of_a_changed_group_are_sorted_again() {
    let tree = sample(); // children of /root: b.bin (10), a (35)
    let a = tree.find("/root/a").unwrap();
    let (small, _) = Subtree::new(Node::new("a", NodeKind::Dir, 1, 1, 0, 7)).flatten();
    let patched = replace_subtrees(&tree, vec![(a, Some(small))]);
    let names: Vec<&str> = patched
        .children(Tree::ROOT)
        .map(|id| patched.get(id).unwrap().name.as_ref())
        .collect();
    assert_eq!(names, vec!["b.bin", "a"], "largest first still holds");
}

#[test]
fn errors_of_surviving_nodes_are_kept_and_of_dropped_ones_are_not() {
    let mut root = Subtree::with_children(
        Node::new("/root", NodeKind::Dir, 0, 0, 0, 7),
        vec![
            Subtree::new(Node::new("locked", NodeKind::Dir, 0, 0, 0, 7)),
            Subtree::new(Node::new("kept", NodeKind::Dir, 0, 0, 0, 7)),
        ],
    );
    root.children[0].error = Some("permission denied".into());
    root.children[1].error = Some("partially read".into());
    let (tree, _) = root.flatten();
    let locked = tree.find("/root/locked").unwrap();
    let patched = replace_subtrees(&tree, vec![(locked, None)]);
    let kept = patched.find("/root/kept").unwrap();
    assert_eq!(patched.error(kept), Some("partially read"));
    assert_eq!(patched.errors().len(), 1);
}

#[test]
fn patching_nothing_returns_an_equal_tree() {
    let tree = sample();
    let patched = replace_subtrees(&tree, vec![]);
    assert_eq!(patched.len(), tree.len());
    assert_eq!(patched.root().size, tree.root().size);
}

#[test]
fn patching_nothing_rebuilds_the_tree_node_for_node() {
    // The identity case is the cheapest check that the rebuild itself is faithful: an
    // arena that came out of `flatten` must come out of `replace_subtrees` unchanged.
    let tree = nested();
    let patched = replace_subtrees(&tree, vec![]);
    assert_invariants(&patched);
    assert_same_subtree(&patched, Tree::ROOT, &tree, Tree::ROOT);
    assert_eq!(patched.len(), tree.len());
    assert_eq!(&*patched.root().name, &*tree.root().name);
}

#[test]
fn find_looks_at_one_directory_at_a_time() {
    // The same name under two directories, and a name that only exists one level
    // deeper than the path says: a lookup that is not anchored to the children of the
    // node it has reached splices a patch into the wrong branch.
    let (tree, _) = aggregated(
        "/root",
        0,
        vec![
            aggregated("a", 0, vec![leaf("dup.bin", 7)]),
            aggregated("b", 0, vec![leaf("dup.bin", 3)]),
        ],
    )
    .flatten();
    let in_a = find(&tree, "/root/a/dup.bin");
    let in_b = find(&tree, "/root/b/dup.bin");
    assert_ne!(in_a, in_b);
    assert_eq!(tree.get(in_a).unwrap().size, 7);
    assert_eq!(tree.get(in_b).unwrap().size, 3);
    assert_eq!(tree.find("/root/dup.bin"), None, "one level up");
    assert_eq!(tree.find("/root/a/b"), None, "another branch");
}

#[test]
fn find_walks_whole_components_only() {
    let tree = sample();
    let a = find(&tree, "/root/a");
    assert_eq!(tree.find("/root/a/"), Some(a), "trailing slash");
    assert_eq!(tree.find("/root/a/x.bin"), Some(3));
    // A name that merely starts with the root's, and a path that leaves the tree and
    // comes back: both would splice a patch onto a node it does not describe.
    assert_eq!(tree.find("/rootx"), None);
    assert_eq!(tree.find("/rootx/a"), None);
    assert_eq!(tree.find("/root/a/../a"), None);
    assert_eq!(tree.find("/root/a/x.bin/deeper"), None);
    assert_eq!(tree.find("root/a"), None, "not absolute");
    assert_eq!(tree.find(""), None);
    assert_eq!(tree.find("/"), None);
}

#[test]
fn find_strips_the_root_by_components_and_not_by_bytes() {
    // `/rootx` shares its first five bytes with the root and names another directory
    // entirely. A prefix taken off the string leaves `x`, which the scan below really
    // does hold — so the lookup succeeds and a patch lands on a node the caller never
    // named. The fixture above cannot show it: it has nothing called `x`.
    let (tree, _) = aggregated("/root", 0, vec![leaf("x", 5)]).flatten();
    assert_eq!(tree.find("/root/x"), Some(1));
    assert_eq!(tree.find("/rootx"), None);
    assert_eq!(tree.find("/rootx/"), None);
}

#[test]
fn find_refuses_a_component_that_is_not_a_plain_name() {
    // `..` is handed over as it is rather than resolved, so the guard in `find` is what
    // decides. A directory cannot be called `..` on a filesystem; a
    // tree can hold the name, and this is what keeps `/root/..` from answering with it
    // instead of with nothing.
    let (tree, _) = aggregated("/root", 0, vec![leaf("..", 5), leaf(".", 3)]).flatten();
    assert_eq!(tree.find("/root/.."), None);
    assert_eq!(tree.find("/root/."), Some(Tree::ROOT), "dropped");
}

#[test]
fn find_round_trips_the_path_of_every_node() {
    for tree in [sample(), nested()] {
        for (id, _) in tree.iter() {
            assert_eq!(tree.find(&tree.path(id)), Some(id), "{:?}", tree.path(id));
        }
    }
}

#[test]
fn every_ancestor_is_re_aggregated_and_keeps_its_own_blocks() {
    // /root/a/inner/x.bin goes: `inner` keeps its 5 own blocks, `a` its 65, the root its
    // 20, and the root's children swap places because `a` now weighs less than b.bin.
    let tree = nested();
    let x = find(&tree, "/root/a/inner/x.bin");
    let patched = replace_subtrees(&tree, vec![(x, None)]);
    assert_invariants(&patched);
    assert_eq!(totals_of(&patched, "/root/a/inner"), (5, 0, 0));
    assert_eq!(totals_of(&patched, "/root/a"), (70, 0, 0));
    assert_eq!(totals_of(&patched, "/root"), (170, 80, 1));
    assert_eq!(
        names(&patched, patched.children(Tree::ROOT)),
        vec!["b.bin", "a"],
        "a is lighter than b.bin now"
    );
    assert_eq!(patched.len(), tree.len() - 1);
}

#[test]
fn dropping_any_node_takes_exactly_its_weight_out_of_exactly_its_ancestors() {
    // The same arithmetic as the test above, but stated over every node of the tree
    // rather than over one the author picked: the ancestors lose precisely what the
    // node weighed, every node off that chain keeps its totals to the byte, and the
    // arena loses precisely the nodes of that branch. A patch that reached one node too
    // far, or one too few, shows up here whichever node it is.
    //
    // Aggregated fixtures only: the subtraction is written out with `-` rather than
    // with the saturating `Totals::minus` the rebuild uses, so a hand-built tree whose
    // directories weigh less than their children — `sample`, whose directories weigh
    // nothing — would fail the test rather than the code.
    let wide = aggregated(
        "/root",
        7,
        vec![
            aggregated(
                "a",
                5,
                vec![
                    aggregated("inner", 3, vec![leaf("x.bin", 30), leaf("y.bin", 12)]),
                    leaf("t.bin", 9),
                ],
            ),
            aggregated("b", 2, vec![leaf("u.bin", 50)]),
            leaf("c.bin", 1),
            aggregated("empty", 4, vec![]),
        ],
    )
    .flatten()
    .0;
    for tree in [nested(), wide] {
        for (id, node) in tree.iter() {
            if id == Tree::ROOT {
                continue;
            }
            let (gone, path) = (weight(node), tree.path(id));
            let ancestors: HashSet<NodeId> = tree
                .ancestors(id)
                .into_iter()
                .filter(|a| *a != id)
                .collect();
            let patched = replace_subtrees(&tree, vec![(id, None)]);

            assert_invariants(&patched);
            assert_eq!(patched.find(&path), None, "{} survived", path);
            assert_eq!(
                patched.len(),
                tree.len() - subtree_len(&tree, id),
                "dropping {}",
                path
            );
            for (other, before) in tree.iter() {
                let at = tree.path(other);
                // Everything below the dropped node went with it; names are unique in a
                // directory, so no surviving node answers to one of those paths.
                let Some(after) = patched.find(&at) else {
                    continue;
                };
                let (s, l, f) = weight(before);
                let expected = if ancestors.contains(&other) {
                    (s - gone.0, l - gone.1, f - gone.2)
                } else {
                    (s, l, f)
                };
                assert_eq!(
                    weight(patched.get(after).unwrap()),
                    expected,
                    "{} after dropping {}",
                    at,
                    path
                );
            }
        }
    }
}

#[test]
fn a_replacement_is_spliced_in_whole_and_keeps_only_the_old_name() {
    // The replacement is deeper and heavier than what it replaces, and its own ids
    // collide with the ids of the patched node's ancestors — which is why patches and
    // recomputed totals may only be looked up for nodes of the tree being patched.
    let tree = nested();
    let inner = find(&tree, "/root/a/inner");
    let (replacement, _) = aggregated(
        "/root/a/inner",
        7,
        vec![
            aggregated("deep", 3, vec![leaf("p.bin", 40), leaf("q.bin", 30)]),
            leaf("r.bin", 20),
        ],
    )
    .flatten();
    assert!(
        replacement.len() as NodeId > inner,
        "the replacement's own ids have to reach the patched id and its ancestors, \
         or this proves nothing"
    );
    let patched = replace_subtrees(&tree, vec![(inner, Some(replacement.clone()))]);
    assert_invariants(&patched);

    let spliced = find(&patched, "/root/a/inner");
    assert_eq!(
        patched.get(spliced).unwrap().name.as_ref(),
        "inner",
        "the old name is kept, the absolute path of the patch is not"
    );
    assert_same_subtree(&patched, spliced, &replacement, Tree::ROOT);
    // `inner` and the x.bin below it go, the replacement's five nodes arrive.
    assert_eq!(patched.len(), tree.len() - 2 + replacement.len());
    // 7 + 3 + 40 + 30 + 20 = 100
    assert_eq!(totals_of(&patched, "/root/a/inner"), (100, 90, 3));
    assert_eq!(totals_of(&patched, "/root/a"), (165, 90, 3));
    assert_eq!(totals_of(&patched, "/root"), (265, 170, 4));
}

#[test]
fn a_replacement_of_another_kind_is_taken_as_it_is() {
    // A directory that is a file today: the rescan reports what is there now.
    let tree = nested();
    let inner = find(&tree, "/root/a/inner");
    let (file, _) = Subtree::new(node("/root/a/inner", NodeKind::File, 12)).flatten();
    let patched = replace_subtrees(&tree, vec![(inner, Some(file))]);
    assert_invariants(&patched);
    let spliced = find(&patched, "/root/a/inner");
    assert_eq!(patched.get(spliced).unwrap().kind, NodeKind::File);
    assert_eq!(patched.get(spliced).unwrap().name.as_ref(), "inner");
    assert!(!patched.has_children(spliced));
    assert_eq!(totals_of(&patched, "/root/a"), (77, 12, 1));
    assert_eq!(totals_of(&patched, "/root"), (177, 92, 2));
}

#[test]
fn a_spliced_node_breaks_a_size_tie_on_the_name_it_kept() {
    // The name half of the sort key, which nothing else in this file measures: every
    // other fixture separates its siblings by size, so the comparator could read any
    // name at all — or none — and still pass.
    //
    // `zz` is patched down from 90 to 40, which ties it with `m.bin`, so the group is
    // decided on names alone. The two candidates fall on opposite sides: the kept name
    // `zz` sorts after `m.bin`, while the patch root's absolute path `/root/zz` sorts
    // before it, because `/` is below every letter. So reading the patch's name — or
    // dropping the name term and leaving the tie in arrival order — puts the spliced
    // node first, which is the user watching a directory they just shrank jump to the
    // top of the list.
    let (tree, _) = aggregated(
        "/root",
        0,
        vec![
            leaf("m.bin", 40),
            aggregated("zz", 0, vec![leaf("inner.bin", 90)]),
        ],
    )
    .flatten();
    assert_eq!(names(&tree, tree.children(Tree::ROOT)), vec!["zz", "m.bin"]);

    let (replacement, _) = aggregated("/root/zz", 0, vec![leaf("left.bin", 40)]).flatten();
    let patched = replace_subtrees(&tree, vec![(find(&tree, "/root/zz"), Some(replacement))]);

    assert_invariants(&patched);
    let spliced = find(&patched, "/root/zz");
    assert_eq!(patched.get(spliced).unwrap().name.as_ref(), "zz");
    assert_eq!(
        totals_of(&patched, "/root/zz").0,
        totals_of(&patched, "/root/m.bin").0,
        "the fixture only proves anything while the two tie",
    );
    assert_eq!(
        names(&patched, patched.children(Tree::ROOT)),
        vec!["m.bin", "zz"],
        "a tie is broken on the name the node kept, not on the patch's path",
    );
}

#[test]
fn an_error_on_a_replacements_own_root_is_kept() {
    // `rescan_path` puts an error on the root of the tree it returns in two shapes that
    // both ship: the one-node answer for a mount point it refused to enter, and a
    // directory that has become partly unreadable since the scan. Both land here as a
    // replacement whose root — not whose children — carries the message, and the
    // splice has to carry it across.
    let mut refused = Subtree::new(node("/root/mnt", NodeKind::Dir, 8));
    refused.error = Some("skipped: different volume".into());
    let mut partial = aggregated("/root/docs", 4, vec![leaf("kept.bin", 10)]);
    partial.error = Some("1 entry could not be read".into());

    let mut root = aggregated(
        "/root",
        0,
        vec![
            aggregated("docs", 1, vec![leaf("old.bin", 70)]),
            aggregated("mnt", 1, vec![leaf("stale.bin", 60)]),
        ],
    );
    root.children[0].error = Some("the old message".into());
    let (tree, _) = root.flatten();
    assert_eq!(tree.errors().len(), 1);

    let patched = replace_subtrees(
        &tree,
        vec![
            (find(&tree, "/root/docs"), Some(partial.flatten().0)),
            (find(&tree, "/root/mnt"), Some(refused.flatten().0)),
        ],
    );

    assert_invariants(&patched);
    assert_eq!(
        errors_by_path(&patched),
        vec![
            ("/root/docs".to_owned(), "1 entry could not be read"),
            ("/root/mnt".to_owned(), "skipped: different volume"),
        ],
        "each replacement's own root keeps its message and the old one is gone",
    );
    // The refused mount point is the single-node shape: its error is on a leaf.
    assert!(!patched.has_children(find(&patched, "/root/mnt")));
    assert_eq!(totals_of(&patched, "/root/mnt"), (8, 8, 0));
    assert_eq!(totals_of(&patched, "/root/docs"), (14, 10, 1));
}

#[test]
fn siblings_patched_in_one_call_do_not_lose_each_other() {
    let (tree, _) = aggregated(
        "/root",
        0,
        vec![
            leaf("w.bin", 40),
            aggregated("x", 30, vec![]),
            leaf("y.bin", 20),
            leaf("z.bin", 10),
        ],
    )
    .flatten();
    let (small, _) = Subtree::new(node("/root/x", NodeKind::Dir, 1)).flatten();
    // Deepest id first, so the order the patches arrive in cannot be what makes it work.
    let patched = replace_subtrees(
        &tree,
        vec![
            (find(&tree, "/root/z.bin"), None),
            (find(&tree, "/root/x"), Some(small)),
        ],
    );
    assert_invariants(&patched);
    assert_eq!(
        names(&patched, patched.children(Tree::ROOT)),
        vec!["w.bin", "y.bin", "x"]
    );
    assert_eq!(patched.len(), 4);
    assert_eq!(patched.root().size, 61);
    assert_eq!(patched.root().file_count, 2);
}

#[test]
fn patches_in_two_branches_reach_the_common_ancestor() {
    // A grandparent whose total is stale while both parents are right is exactly what a
    // one-level re-aggregation produces.
    let (tree, _) = aggregated(
        "/root",
        1,
        vec![
            aggregated("left", 2, vec![leaf("l.bin", 100)]),
            aggregated("right", 4, vec![leaf("r.bin", 200)]),
        ],
    )
    .flatten();
    assert_eq!(tree.root().size, 307);
    let patched = replace_subtrees(
        &tree,
        vec![
            (find(&tree, "/root/left/l.bin"), None),
            (find(&tree, "/root/right/r.bin"), None),
        ],
    );
    assert_invariants(&patched);
    assert_eq!(totals_of(&patched, "/root/left"), (2, 0, 0));
    assert_eq!(totals_of(&patched, "/root/right"), (4, 0, 0));
    assert_eq!(totals_of(&patched, "/root"), (7, 0, 0));
    assert_eq!(
        names(&patched, patched.children(Tree::ROOT)),
        vec!["right", "left"]
    );
}

#[test]
fn errors_follow_their_nodes_when_the_ids_move() {
    // The patch is heavier in nodes than what it replaces and lighter in bytes, so the
    // group is reordered and every id after it shifts: an error table copied by offset
    // lands on the wrong nodes.
    let mut big = aggregated("big", 0, vec![leaf("b1.bin", 60), leaf("b2.bin", 40)]);
    big.error = Some("big error".into());
    let mut small = aggregated("small", 0, vec![leaf("s.bin", 10)]);
    small.error = Some("small error".into());
    let mut root = aggregated("/root", 0, vec![big, small]);
    root.error = Some("root error".into());
    let (tree, _) = root.flatten();
    assert_eq!(
        errors_by_path(&tree),
        vec![
            ("/root".to_owned(), "root error"),
            ("/root/big".to_owned(), "big error"),
            ("/root/small".to_owned(), "small error"),
        ]
    );

    let mut sub = aggregated("sub", 0, vec![leaf("p.bin", 5)]);
    sub.error = Some("sub error".into());
    let (replacement, _) = aggregated("/root/big", 0, vec![sub]).flatten();
    let patched = replace_subtrees(&tree, vec![(find(&tree, "/root/big"), Some(replacement))]);

    assert_invariants(&patched);
    assert_eq!(
        names(&patched, patched.children(Tree::ROOT)),
        vec!["small", "big"]
    );
    assert_eq!(
        errors_by_path(&patched),
        vec![
            ("/root".to_owned(), "root error"),
            ("/root/small".to_owned(), "small error"),
            ("/root/big/sub".to_owned(), "sub error"),
        ],
        "the replaced node's error is gone, every other one follows its node"
    );
    assert_eq!(
        patched
            .errors()
            .iter()
            .map(|(id, _)| *id)
            .collect::<Vec<_>>(),
        vec![0, 1, 4]
    );
}

#[test]
fn the_root_cannot_be_patched() {
    let tree = nested();
    let (replacement, _) = Subtree::new(node("/elsewhere", NodeKind::Dir, 9)).flatten();
    for patch in [None, Some(replacement)] {
        let patched = replace_subtrees(&tree, vec![(Tree::ROOT, patch)]);
        assert_invariants(&patched);
        assert_same_subtree(&patched, Tree::ROOT, &tree, Tree::ROOT);
        assert_eq!(&*patched.root().name, "/root");
    }
}

#[test]
fn an_id_the_tree_does_not_know_is_ignored() {
    let tree = nested();
    let patched = replace_subtrees(&tree, vec![(99, None), (u32::MAX, None)]);
    assert_invariants(&patched);
    assert_same_subtree(&patched, Tree::ROOT, &tree, Tree::ROOT);
}

#[test]
fn a_patch_below_another_patch_is_ignored() {
    // The outer replacement already says what the whole branch holds; the inner id
    // names a node that is no longer there.
    let tree = nested();
    let a = find(&tree, "/root/a");
    let inner = find(&tree, "/root/a/inner");
    let x = find(&tree, "/root/a/inner/x.bin");
    let (replacement, _) = aggregated("/root/a", 3, vec![leaf("kept.bin", 9)]).flatten();
    let patched = replace_subtrees(
        &tree,
        vec![(inner, None), (a, Some(replacement)), (x, None)],
    );
    assert_invariants(&patched);
    assert_eq!(
        names(&patched, patched.children(find(&patched, "/root/a"))),
        vec!["kept.bin"]
    );
    assert_eq!(totals_of(&patched, "/root/a"), (12, 9, 1));
    assert_eq!(totals_of(&patched, "/root"), (112, 89, 2));
    assert_eq!(patched.len(), 4);

    // The same nesting the other way round: the branch goes, the inner patch with it.
    let (replacement, _) = aggregated("/root/a/inner", 3, vec![leaf("kept.bin", 9)]).flatten();
    let patched = replace_subtrees(&tree, vec![(a, None), (inner, Some(replacement))]);
    assert_invariants(&patched);
    assert_eq!(patched.find("/root/a"), None);
    assert_eq!(patched.len(), 2);
    assert_eq!(totals_of(&patched, "/root"), (100, 80, 1));
}

#[test]
fn a_nested_patch_is_dropped_before_the_rebuild_starts() {
    // The test above pins the result, which the rebuild reaches by never looking a
    // nested patch up: below a splice the ids belong to the replacement, and
    // `patched_totals` answers from `replacements` before it consults the recomputed
    // ones. So the whole list would survive the rebuild unread, and only a reader of
    // `applicable_patches` would be told what a patch list means. The contract is
    // stated there, so it is measured there: two mechanisms happening to agree is not
    // the same as a rule.
    let tree = nested();
    let (a, inner, x) = (
        find(&tree, "/root/a"),
        find(&tree, "/root/a/inner"),
        find(&tree, "/root/a/inner/x.bin"),
    );
    let (replacement, _) = Subtree::new(node("/root/a", NodeKind::Dir, 1)).flatten();
    let mut kept: Vec<NodeId> = applicable_patches(
        &tree,
        vec![(inner, None), (a, Some(replacement)), (x, None)],
    )
    .into_keys()
    .collect();
    kept.sort_unstable();
    assert_eq!(kept, vec![a], "only the outermost patch of the branch");

    // A grandchild of a dropped node goes too, and a patch in another branch stays.
    let b = find(&tree, "/root/b.bin");
    let mut kept: Vec<NodeId> =
        applicable_patches(&tree, vec![(x, None), (a, None), (b, None)])
            .into_keys()
            .collect();
    kept.sort_unstable();
    assert_eq!(kept, vec![a, b]);
}

#[test]
fn the_last_patch_for_a_node_wins_and_the_order_does_not_matter() {
    let tree = nested();
    let inner = find(&tree, "/root/a/inner");
    let x = find(&tree, "/root/a/inner/x.bin");
    let (first, _) = Subtree::new(node("/root/a/inner", NodeKind::Dir, 11)).flatten();
    let (second, _) = Subtree::new(node("/root/a/inner", NodeKind::Dir, 22)).flatten();
    let patched = replace_subtrees(&tree, vec![(inner, Some(first)), (inner, Some(second))]);
    assert_invariants(&patched);
    assert_eq!(totals_of(&patched, "/root/a/inner").0, 22);

    // Two independent patches, both orders, same tree.
    let (small, _) = Subtree::new(node("/root/b.bin", NodeKind::File, 1)).flatten();
    let b = find(&tree, "/root/b.bin");
    let forwards = replace_subtrees(&tree, vec![(x, None), (b, Some(small.clone()))]);
    let backwards = replace_subtrees(&tree, vec![(b, Some(small)), (x, None)]);
    assert_same_subtree(&forwards, Tree::ROOT, &backwards, Tree::ROOT);
    assert_eq!(totals_of(&forwards, "/root"), (91, 1, 1));
}

#[test]
fn an_empty_tree_is_neither_patched_nor_spliced_in() {
    // Unreachable from outside the crate — `flatten` always places at least the root —
    // but both ends of the rebuild reach for node 0, and neither may do so blindly on
    // a tree the user is browsing.
    let empty = Tree::empty();
    let patched = replace_subtrees(&empty, vec![(0, None)]);
    assert!(patched.is_empty());
    assert_eq!(empty.find("/root"), None);

    let tree = nested();
    let patched = replace_subtrees(&tree, vec![(find(&tree, "/root/a"), Some(empty))]);
    assert_invariants(&patched);
    assert_eq!(
        patched.find("/root/a"),
        None,
        "nothing to splice"
    );
    assert_eq!(totals_of(&patched, "/root"), (100, 80, 1));
}

#[test]
fn of_all_links_to_one_file_the_smallest_path_keeps_the_data() {
    let linked = |name: &str, size: u64, ino: u64| {
        let mut node = leaf(name, size);
        node.hardlink = Some((1, ino));
        node
    };
    let build = || {
        dir(
            "/r",
            35,
            vec![
                dir("b", 16, vec![linked("x", 8, 7), linked("y", 8, 7)]),
                dir("a", 19, vec![linked("z", 8, 7), linked("p", 3, 9), leaf("q", 8)]),
            ],
        )
        .flatten()
    };
    let (mut tree, links) = build();
    let (mut other, mut turned) = build();
    turned.reverse();
    assert_eq!(links.len(), 4);
    assert_eq!(tree.attribute_hard_links(links), 2, "four links to two files");
    assert_eq!(other.attribute_hard_links(turned), 2);
    let size = |tree: &Tree, path: &str| tree.get(tree.find(path).unwrap()).unwrap().size;
    assert_eq!(size(&tree, "/r/a/z"), 8, "the smallest path keeps it");
    assert_eq!(size(&tree, "/r/a/p"), 3, "the only link keeps it");
    assert_eq!((size(&tree, "/r/b/x"), size(&tree, "/r/b/y")), (0, 0));
    assert_eq!((size(&tree, "/r"), size(&tree, "/r/b")), (19, 0));
    for id in 0..tree.len() as u32 {
        assert_eq!(tree.get(id), other.get(id), "whatever the order of the links");
    }
}

#[test]
fn patches_that_ask_for_the_same_give_the_same_tree() {
    let build = || {
        dir("/r", 12, vec![dir("a", 7, vec![leaf("x", 4), leaf("y", 3)]), leaf("b", 5)]).flatten().0
    };
    let tree = build();
    let a = tree.find("/r/a").unwrap();
    let b = tree.find("/r/b").unwrap();
    let x = tree.find("/r/a/x").unwrap();
    let fresh = || Some(dir("a", 1, vec![leaf("n", 1)]).flatten().0);
    let plain = replace_subtrees(&tree, vec![(a, fresh()), (b, None)]);
    let noisy = replace_subtrees(
        &tree,
        vec![(b, fresh()), (x, None), (0, None), (b, None), (99, fresh()), (a, fresh())],
    );
    assert_invariants(&plain);
    assert_eq!(plain.len(), noisy.len());
    for id in 0..plain.len() as u32 {
        assert_eq!(plain.get(id), noisy.get(id));
    }
}
