use notify::consolidating_path_trie::{ConsolidatingPathTrie, CHILDREN_CONSOLIDATION_THRESHOLD};
use notify::path::PathBuf;
use notify::path_trie::{consolidate_at_depth, PathTrie};

fn p(text: &str) -> PathBuf {
    PathBuf::parse(text.as_bytes())
}

fn paths(t: &PathTrie<()>) -> Vec<PathBuf> {
    t.root().descendants().into_iter().map(|(path, ())| path).collect()
}

#[test]
fn basic() {
    let mut t = PathTrie::new();
    t.insert(&p("/a"), ());
    t.insert(&p("/a/b/c"), ());
    t.insert(&p("/a/b/c2"), ());
    assert_eq!(
        t.iter(),
        vec![
            (p("/a"), &()),
            (p("/a/b/c"), &()),
            (p("/a/b/c2"), &()),
        ]
    );
}

#[test]
fn consolidate_no_siblings() {
    for children_consolidation in [true, false] {
        let mut ct = ConsolidatingPathTrie::new(children_consolidation, 0);
        ct.insert(&p("/a/b"));
        ct.insert(&p("/a/c"));
        assert_eq!(
            ct.values(),
            vec![p("/a/b"), p("/a/c")]
        );
    }
}

#[test]
fn consolidate_no_siblings2() {
    for children_consolidation in [true, false] {
        let mut ct = ConsolidatingPathTrie::new(children_consolidation, 0);
        ct.insert(&p("/a/b1"));
        ct.insert(&p("/a/b2"));
        assert_eq!(
            ct.values(),
            vec![p("/a/b1"), p("/a/b2")]
        );
    }
}

#[test]
fn consolidate_children() {
    for children_consolidation in [true, false] {
        let mut ct = ConsolidatingPathTrie::new(children_consolidation, 0);
        ct.insert(&p("/a/b"));
        ct.insert(&p("/a/b/c"));
        assert_eq!(ct.values(), vec![p("/a/b")]);
    }
}

#[test]
fn consolidate_parent() {
    for children_consolidation in [true, false] {
        let mut ct = ConsolidatingPathTrie::new(children_consolidation, 0);
        ct.insert(&p("/a/b/c"));
        ct.insert(&p("/a/b"));
        assert_eq!(ct.values(), vec![p("/a/b")]);
    }
}

#[test]
fn consolidate_to_single_parent() {
    let mut cr = ConsolidatingPathTrie::new(true, 0);
    for i in 1..=CHILDREN_CONSOLIDATION_THRESHOLD {
        cr.insert(&p(&format!("/a/b/c{i}")));
    }
    assert_eq!(cr.values(), vec![p("/a/b")]);

    let mut cr = ConsolidatingPathTrie::new(false, 0);
    for i in 1..=CHILDREN_CONSOLIDATION_THRESHOLD {
        cr.insert(&p(&format!("/a/b/c{i}")));
    }
    assert!(cr.values().len() > 1);
}

#[test]
fn consolidate_to_single_parent_nested1() {
    let mut cr = ConsolidatingPathTrie::new(true, 0);
    for i in 1..CHILDREN_CONSOLIDATION_THRESHOLD {
        cr.insert(&p(&format!("/a/b/c{i}")));
    }
    for i in 1..=CHILDREN_CONSOLIDATION_THRESHOLD {
        cr.insert(&p(&format!("/a/b/cc/d{i}")));
    }
    assert_eq!(cr.values(), vec![p("/a/b")]);
}

#[test]
fn consolidate_to_single_parent_nested2() {
    let mut cr = ConsolidatingPathTrie::new(true, 0);
    cr.insert(&p("/a/b/c1"));
    cr.insert(&p("/a/b/c2"));
    for i in 1..=CHILDREN_CONSOLIDATION_THRESHOLD {
        cr.insert(&p(&format!("/a/b/c3/d{i}")));
    }
    assert_eq!(
        cr.values(),
        vec![
            p("/a/b/c1"),
            p("/a/b/c2"),
            p("/a/b/c3")
        ]
    );
}

#[test]
fn count_values_basic() {
    let mut t = PathTrie::new();
    t.insert(&p("/a"), ());
    t.insert(&p("/a/b/c"), ());
    t.insert(&p("/d"), ());
    assert_eq!(t.root().count_values(), 3);
}

#[test]
fn max_value_depth_basic() {
    let mut t = PathTrie::new();
    t.insert(&p("/a"), ());
    t.insert(&p("/a/b/c"), ());
    t.insert(&p("/d/e"), ());
    assert_eq!(t.root().max_value_depth(0), 4);
}

#[test]
fn max_value_depth_flat() {
    let mut t = PathTrie::new();
    t.insert(&p("/a"), ());
    t.insert(&p("/b"), ());
    assert_eq!(t.root().max_value_depth(0), 2);
}

#[test]
fn consolidate_at_depth_basic() {
    let mut t = PathTrie::new();
    t.insert(&p("/a/b/c1"), ());
    t.insert(&p("/a/b/c2"), ());
    t.insert(&p("/d/e"), ());

    consolidate_at_depth(t.root_mut(), 0, 3, 0);

    let paths = paths(&t);
    assert_eq!(paths, vec![p("/a/b"), p("/d/e")]);
}

#[test]
fn consolidate_at_depth_respects_min_depth() {
    let mut t = PathTrie::new();
    t.insert(&p("/a/b"), ());
    t.insert(&p("/a/c"), ());

    // Try to consolidate at depth 2 (/a level) but min_depth is 3
    consolidate_at_depth(t.root_mut(), 0, 2, 3);

    let paths = paths(&t);
    // Should NOT consolidate because depth 2 < min_depth 3
    assert_eq!(paths, vec![p("/a/b"), p("/a/c")]);
}

#[test]
fn max_paths_no_consolidation_when_under_limit() {
    let mut ct = ConsolidatingPathTrie::new(false, 5);
    ct.insert(&p("/a/b"));
    ct.insert(&p("/a/c"));
    ct.insert(&p("/d/e"));
    assert_eq!(ct.values().len(), 3);
}

#[test]
fn max_paths_consolidates_deepest_first() {
    let mut ct = ConsolidatingPathTrie::new(false, 3);
    ct.insert(&p("/a/b/c1"));
    ct.insert(&p("/a/b/c2"));
    ct.insert(&p("/a/b/c3"));
    ct.insert(&p("/d/e"));
    ct.insert(&p("/f/g"));

    let values = ct.values();
    assert_eq!(values.len(), 3);
    assert!(values.contains(&p("/a/b")));
    assert!(values.contains(&p("/d/e")));
    assert!(values.contains(&p("/f/g")));
}

#[test]
fn max_paths_respects_subtree_roots() {
    // Two distinct subtrees: /a/... and /b/...
    // Even with aggressive consolidation, /a and /b should remain separate
    let mut ct = ConsolidatingPathTrie::new(false, 2);
    ct.insert(&p("/a/x/y1"));
    ct.insert(&p("/a/x/y2"));
    ct.insert(&p("/b/z/w1"));
    ct.insert(&p("/b/z/w2"));

    let values = ct.values();
    // Consolidates within each subtree but never merges /a and /b into /
    assert_eq!(values.len(), 2);
    assert!(values.contains(&p("/a/x")));
    assert!(values.contains(&p("/b/z")));
}

#[test]
fn max_paths_cannot_consolidate_above_divergence() {
    // Paths diverge at / into /a and /b, each with deeper structure
    // max_paths=1 is impossible to satisfy without going above divergence
    let mut ct = ConsolidatingPathTrie::new(false, 1);
    ct.insert(&p("/a/x/y"));
    ct.insert(&p("/b/z/w"));

    let values = ct.values();
    // Best we can do is /a and /b (2 paths) — can't merge to /
    assert_eq!(values.len(), 2);
    assert!(values.contains(&p("/a")));
    assert!(values.contains(&p("/b")));
}

#[test]
fn max_paths_multi_level_consolidation() {
    let mut ct = ConsolidatingPathTrie::new(false, 2);
    ct.insert(&p("/a/b/c/d1"));
    ct.insert(&p("/a/b/c/d2"));
    ct.insert(&p("/a/b/e/f1"));
    ct.insert(&p("/a/b/e/f2"));
    ct.insert(&p("/x/y"));

    let values = ct.values();
    assert_eq!(values.len(), 2);
    assert!(values.contains(&p("/a/b")));
    assert!(values.contains(&p("/x/y")));
}

#[test]
fn max_paths_large_scale_multiple_roots() {
    let mut ct = ConsolidatingPathTrie::new(false, 1024);

    for root in ["a", "b", "c", "d"] {
        for i in 0..500 {
            ct.insert(&p(&format!("/{root}/sub{}/file{i}", i % 10)));
        }
    }

    let values = ct.values();
    assert!(
        values.len() <= 1024,
        "Expected <= 1024 paths, got {}",
        values.len()
    );
    assert!(values.iter().any(|path| path.starts_with(&p("/a"))));
    assert!(values.iter().any(|path| path.starts_with(&p("/b"))));
    assert!(values.iter().any(|path| path.starts_with(&p("/c"))));
    assert!(values.iter().any(|path| path.starts_with(&p("/d"))));
}

#[test]
fn max_paths_single_root_deep() {
    let mut ct = ConsolidatingPathTrie::new(false, 5);

    for i in 0..20 {
        ct.insert(&p(&format!("/root/a/b/file{i}")));
    }

    let values = ct.values();
    assert!(
        values.len() <= 5,
        "Expected <= 5 paths, got {}",
        values.len()
    );
}

#[test]
fn max_paths_none_no_consolidation() {
    let mut ct = ConsolidatingPathTrie::new(false, 0);
    for i in 0..100 {
        ct.insert(&p(&format!("/root/file{i}")));
    }
    assert_eq!(ct.values().len(), 100);
}

#[test]
fn only_valued_nodes_are_found() {
    let mut t = PathTrie::new();
    t.insert(&p("/a"), 1);
    t.insert(&p("/a/b/c"), 2);
    assert!(t.get(&p("/a")).is_some());
    assert!(t.get(&p("/a/b")).is_none());
    assert!(t.get(&p("/a/b/c")).is_some());
    assert!(t.get_node_mut(&p("/a/b")).is_some());
    assert!(t.get_node_mut(&p("/a/x")).is_none());
    let ancestor = t.get_ancestor(&p("/a/b/c/d")).map(|(path, _)| path);
    assert_eq!(ancestor, Some(p("/a/b/c")));
    let ancestor = t.get_ancestor(&p("/a/x")).map(|(path, _)| path);
    assert_eq!(ancestor, Some(p("/a")));
    assert!(t.get_ancestor(&p("/x")).is_none());
}

#[test]
fn inserted_again_replaces_the_value() {
    let mut t = PathTrie::new();
    t.insert(&p("/a"), 1);
    t.insert(&p("/a"), 2);
    assert_eq!(t.iter(), vec![(p("/a"), &2)]);
    if let Some(node) = t.get_node_mut(&p("/a")) {
        node.set_value(3);
        node.remove_children();
    }
    assert_eq!(t.iter(), vec![(p("/a"), &3)]);
}

#[test]
fn values_cover_every_path_inserted() {
    let inserted = ["/a/b/c1", "/a/b/c2", "/a/b/c3/d", "/x/y", "/x/z/w"];
    for max_paths in 0..6 {
        for children_consolidation in [true, false] {
            let mut ct = ConsolidatingPathTrie::new(children_consolidation, max_paths);
            for path in inserted {
                ct.insert(&p(path));
            }
            let values = ct.values();
            for path in inserted {
                assert!(values.iter().any(|value| p(path).starts_with(value)));
            }
        }
    }
}

#[test]
fn relative_paths_after_an_absolute_one_are_listed_below_it() {
    let mut t = PathTrie::new();
    t.insert(&p("/b"), 1);
    t.insert(&p("a"), 2);
    t.insert(&p("c/d"), 3);
    t.insert(&p(".git"), 4);
    t.insert(&p("../e"), 5);
    assert_eq!(
        t.iter(),
        vec![
            (p("../e"), &5),
            (p(".git"), &4),
            (p("/b"), &1),
            (p("/a"), &2),
            (p("/c/d"), &3),
        ]
    );

    let mut relative = PathTrie::new();
    relative.insert(&p("a"), 2);
    relative.insert(&p("c/d"), 3);
    assert_eq!(relative.iter(), vec![(p("a"), &2), (p("c/d"), &3)]);

    let mut ct = ConsolidatingPathTrie::new(false, 0);
    ct.insert(&p("/b"));
    ct.insert(&p("a"));
    ct.insert(&p("/a"));
    assert_eq!(ct.values(), vec![p("/a"), p("/b"), p("/a")]);
}
