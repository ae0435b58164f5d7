use storage_monitor::action::model::Timestamp;
use storage_monitor::scan::{Node, NodeId, NodeKind, Subtree, Tree};
use storage_monitor::snapshot::model::{SizeIndex, Snapshot, SnapshotEntry, SNAPSHOT_FORMAT};
use storage_monitor::window::views::{Crumb, NodeView};

fn file(name: &str, size: u64) -> Subtree {
    Subtree::new(Node::new(name, NodeKind::File, size, size, 1, 7))
}

/// Directory totals are aggregated by the walker, so fixtures state them.
fn dir(name: &str, size: u64, file_count: u32, children: Vec<Subtree>) -> Subtree {
    Subtree::with_children(
        Node::new(name, NodeKind::Dir, size, size, file_count, 7),
        children,
    )
}

/// /home/me
///   a/          35
///     x.bin     30
///     y.bin      5
///   b.bin       10
///   locked/      0  (unreadable)
fn sample() -> Tree {
    let mut locked = dir("locked", 0, 0, vec![]);
    locked.error = Some("permission denied".into());
    dir(
        "/home/me",
        45,
        3,
        vec![
            dir("a", 35, 2, vec![file("y.bin", 5), file("x.bin", 30)]),
            file("b.bin", 10),
            locked,
        ],
    )
    .flatten()
    .0
}

/// The sizes an earlier scan recorded.
fn sizes(known: &[(&str, u64)]) -> SizeIndex {
    let mut entries = Vec::new();
    for (path, size) in known {
        entries.push(SnapshotEntry {
            path: (*path).to_owned(),
            kind: NodeKind::Dir,
            size: *size,
            file_count: 1,
            mtime: 7,
        });
    }
    let snapshot = Snapshot {
        format: SNAPSHOT_FORMAT,
        taken_at: Timestamp { secs: 0, nanos: 0 },
        root: "/home/me".to_owned(),
        total_bytes: 0,
        file_count: 0,
        file_threshold: 0,
        entries,
    };
    snapshot.size_index()
}

fn child_ids(tree: &Tree) -> (NodeId, NodeId, NodeId) {
    let mut ids = tree.children(Tree::ROOT);
    (
        ids.next().unwrap(),
        ids.next().unwrap(),
        ids.next().unwrap(),
    )
}

#[test]
fn root_page_lists_children_largest_first() {
    let tree = sample();
    let view = NodeView::build(&tree, Tree::ROOT, 500, None).unwrap();
    assert_eq!(view.id, Tree::ROOT);
    assert_eq!(view.name, "me", "the root shows its last component");
    assert_eq!(view.path, "/home/me");
    assert_eq!(view.kind, NodeKind::Dir);
    assert_eq!((view.size, view.logical_size, view.file_count), (45, 45, 3));
    assert_eq!(view.mtime, 7);
    assert_eq!(view.error, None);
    assert_eq!(view.delta, None);
    assert_eq!(
        view.breadcrumbs,
        vec![Crumb {
            id: Tree::ROOT,
            name: "me".into()
        }]
    );
    let names: Vec<&str> = view.children.iter().map(|c| c.name.as_str()).collect();
    assert_eq!(names, vec!["a", "b.bin", "locked"]);
    assert_eq!(view.children_total, 3);
    assert!(!view.truncated);

    let (a, b, locked) = child_ids(&tree);
    let [va, vb, vlocked] = view.children.as_slice() else {
        panic!("three children")
    };
    assert_eq!((va.id, vb.id, vlocked.id), (a, b, locked));
    assert_eq!(va.kind, NodeKind::Dir);
    assert!(va.has_children);
    assert_eq!((va.size, va.logical_size, va.file_count), (35, 35, 2));
    assert_eq!(vb.kind, NodeKind::File);
    assert!(!vb.has_children);
    assert_eq!(vb.file_count, 1);
    assert!(!vlocked.has_children);
    assert_eq!(vlocked.error.as_deref(), Some("permission denied"));
    assert!(view.children.iter().all(|c| c.delta.is_none()));
}

#[test]
fn breadcrumbs_lead_from_the_root_to_the_node() {
    let tree = sample();
    let (a, _, _) = child_ids(&tree);
    let x = tree.children(a).next().unwrap();
    let view = NodeView::build(&tree, x, 500, None).unwrap();
    assert_eq!(view.name, "x.bin");
    assert_eq!(view.path, "/home/me/a/x.bin");
    let crumbs: Vec<(NodeId, &str)> = view
        .breadcrumbs
        .iter()
        .map(|c| (c.id, c.name.as_str()))
        .collect();
    assert_eq!(crumbs, vec![(Tree::ROOT, "me"), (a, "a"), (x, "x.bin")]);
    assert!(view.children.is_empty());
    assert_eq!(view.children_total, 0);
    assert!(!view.truncated);
}

#[test]
fn limit_truncates_the_children_but_not_the_total() {
    let tree = sample();
    let view = NodeView::build(&tree, Tree::ROOT, 1, None).unwrap();
    assert_eq!(view.children.len(), 1);
    assert_eq!(view.children[0].name, "a");
    assert_eq!(view.children_total, 3);
    assert!(view.truncated);
    let exact = NodeView::build(&tree, Tree::ROOT, 3, None).unwrap();
    assert_eq!(exact.children.len(), 3);
    assert!(!exact.truncated);
}

#[test]
fn deltas_exist_only_for_paths_in_the_previous_snapshot() {
    let tree = sample();
    let previous = sizes(&[("/home/me", 30), ("/home/me/a", 40)]);
    let view = NodeView::build(&tree, Tree::ROOT, 500, Some(&previous)).unwrap();
    assert_eq!(view.delta, Some(15));
    let deltas: Vec<Option<i64>> = view.children.iter().map(|c| c.delta).collect();
    assert_eq!(deltas, vec![Some(-5), None, None]);
    let (a, _, _) = child_ids(&tree);
    let inner = NodeView::build(&tree, a, 500, Some(&previous)).unwrap();
    assert_eq!(inner.delta, Some(-5));
    assert!(inner.children.iter().all(|c| c.delta.is_none()));
}

#[test]
fn a_root_without_a_last_component_keeps_its_path() {
    let tree = dir("/", 1, 1, vec![file("f", 1)]).flatten().0;
    let view = NodeView::build(&tree, Tree::ROOT, 500, None).unwrap();
    assert_eq!(view.name, "/");
    assert_eq!(view.path, "/");
    assert_eq!(view.breadcrumbs[0].name, "/");
    assert_eq!(view.children[0].name, "f");
}

#[test]
fn an_unknown_id_has_no_page() {
    assert!(NodeView::build(&sample(), 99, 500, None).is_none());
}

#[test]
fn a_page_limited_to_nothing_still_counts_its_children() {
    let view = NodeView::build(&sample(), Tree::ROOT, 0, None).unwrap();
    assert!(view.children.is_empty());
    assert_eq!(view.children_total, 3);
    assert!(view.truncated);
}

#[test]
fn a_size_seen_last_is_the_size_an_index_answers() {
    let index = sizes(&[("/a", 1), ("/b", 2), ("/a", 3)]);
    assert_eq!(index.get("/a"), Some(3));
    assert_eq!(index.get("/b"), Some(2));
    assert_eq!(index.get("/c"), None);
    assert_eq!(index.get(""), None);
}

#[test]
fn a_smaller_page_is_the_start_of_a_larger_one() {
    let tree = sample();
    for a in 0..5 {
        for b in a..5 {
            let small = NodeView::build(&tree, Tree::ROOT, a, None).unwrap();
            let large = NodeView::build(&tree, Tree::ROOT, b, None).unwrap();
            assert_eq!(small.children.len(), a.min(3));
            let ids = |view: &NodeView| view.children.iter().map(|c| c.id).collect::<Vec<_>>();
            assert_eq!(ids(&small), ids(&large)[..small.children.len()]);
            assert_eq!(small.children_total, large.children_total);
            assert_eq!(small.truncated, a < 3);
            assert_eq!(small.breadcrumbs, large.breadcrumbs);
        }
    }
}
