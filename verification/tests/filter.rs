use notify::filter::{EntryKind, IgnoreFilter};
use notify::path::PathBuf;
use std::cell::RefCell;

type Ignored = fn(&PathBuf, EntryKind) -> bool;

fn p(text: &str) -> PathBuf {
    PathBuf::parse(text.as_bytes())
}

fn is_node_modules(path: &PathBuf, kind: EntryKind) -> bool {
    kind == EntryKind::Dir && path.len() > 0
        && path.component(path.len() - 1).as_slice() == b"node_modules"
}

fn node_modules() -> IgnoreFilter<Ignored> {
    IgnoreFilter::new(is_node_modules as Ignored)
}

fn is_watched<F: Fn(&PathBuf, EntryKind) -> bool>(
    filter: &IgnoreFilter<F>,
    watches: &[(&str, bool)],
    path: &str,
) -> bool {
    filter.is_watched(&p(path), EntryKind::File, |ancestor: &PathBuf| {
        watches
            .iter()
            .find(|(watch, _)| p(watch) == *ancestor)
            .map(|(_, is_recursive)| *is_recursive)
    })
}

#[test]
fn default_filter_ignores_nothing() {
    let filter: IgnoreFilter<Ignored> = IgnoreFilter::default();
    assert!(!filter.is_ignored(&p("/p/node_modules"), EntryKind::Dir));
    assert!(is_watched(&filter, &[("/p", true)], "/p/node_modules/a.js"));
}

#[test]
fn unwatched_path_is_not_watched() {
    let filter: IgnoreFilter<Ignored> = IgnoreFilter::default();
    assert!(!is_watched(&filter, &[("/p", true)], "/q/a.js"));
    assert!(is_watched(&filter, &[("/p", false)], "/p"));
    assert!(is_watched(&filter, &[("/p", false)], "/p/a.js"));
    assert!(!is_watched(&filter, &[("/p", false)], "/p/src/a.js"));
}

#[test]
fn ignored_directory_hides_everything_below() {
    let filter = node_modules();
    let watches = [("/p", true)];
    assert!(is_watched(&filter, &watches, "/p/src/a.js"));
    assert!(!is_watched(&filter, &watches, "/p/node_modules/a.js"));
    assert!(!is_watched(&filter, &watches, "/p/node_modules/pkg/a.js"));
    assert!(
        !filter.is_watched(&p("/p/node_modules"), EntryKind::Dir, |path: &PathBuf| {
            (*path == p("/p")).then_some(true)
        })
    );
}

#[test]
fn filter_is_only_asked_about_paths_below_a_watch() {
    let filter = IgnoreFilter::new(|path: &PathBuf, _: EntryKind| {
        assert!(path.starts_with(&p("/p/src/")) && *path != p("/p/src/"));
        false
    });
    assert!(is_watched(&filter, &[("/p/src", true)], "/p/src/a/b.js"));
    assert!(is_watched(
        &filter,
        &[("/p/src/a/b.js", false)],
        "/p/src/a/b.js"
    ));
    assert!(!is_watched(&filter, &[("/p/src", true)], "/q/a.js"));
}

#[test]
fn relative_path_has_no_empty_parent() {
    let filter = IgnoreFilter::new(|path: &PathBuf, _: EntryKind| path.len() == 0);
    assert!(!filter.is_ignored(&p("src/a.js"), EntryKind::File));
}

#[test]
fn path_below_an_ignored_directory_is_ignored() {
    let filter = node_modules();
    assert!(filter.is_ignored(&p("/p/node_modules"), EntryKind::Dir));
    assert!(filter.is_ignored(&p("/p/node_modules/pkg/a.js"), EntryKind::File));
    assert!(!filter.matches(&p("/p/node_modules/pkg/a.js"), EntryKind::File));
    assert!(!filter.is_ignored(&p("/p/src/a.js"), EntryKind::File));
    // the filter decides based on the kind
    assert!(!filter.is_ignored(&p("/p/node_modules"), EntryKind::File));
}

#[test]
fn clones_are_equal() {
    let filter = node_modules();
    assert!(filter == filter.clone());
    assert!(filter != node_modules());
    assert!(filter != IgnoreFilter::default());
    let default: IgnoreFilter<Ignored> = IgnoreFilter::default();
    assert!(default == IgnoreFilter::default());
}

#[test]
fn kind_of_a_path_is_looked_up() {
    let asked = RefCell::new(Vec::new());
    let filter = IgnoreFilter::new(|path: &PathBuf, kind: EntryKind| {
        asked.borrow_mut().push((path.clone(), kind));
        false
    });
    assert!(!filter.is_path_ignored(&p("/a/b"), Some(false)));
    assert!(!filter.is_path_ignored(&p("/a/b"), Some(true)));
    assert!(!filter.is_path_ignored(&p("/a/b"), None));
    let kinds: Vec<EntryKind> = asked
        .borrow()
        .iter()
        .filter(|(path, _)| *path == p("/a/b"))
        .map(|(_, kind)| *kind)
        .collect();
    assert_eq!(kinds, vec![EntryKind::File, EntryKind::Dir, EntryKind::Unknown]);
    assert!(asked
        .borrow()
        .iter()
        .filter(|(path, _)| *path != p("/a/b"))
        .all(|(_, kind)| *kind == EntryKind::Dir));
}

#[test]
fn walk_keeps_its_root_and_leaves_out_what_is_ignored() {
    let filter = node_modules();
    assert!(filter.walks(&p("/p/node_modules"), 0, true));
    assert!(!filter.walks(&p("/p/node_modules"), 1, true));
    assert!(filter.walks(&p("/p/node_modules"), 1, false));
    assert!(filter.walks(&p("/p/src"), 1, true));
}

#[test]
fn filter_is_asked_about_the_path_alone() {
    let asked = RefCell::new(Vec::new());
    let filter = IgnoreFilter::new(|path: &PathBuf, kind: EntryKind| {
        asked.borrow_mut().push((path.clone(), kind));
        true
    });
    assert!(!filter.ignores_nothing());
    assert!(filter.matches(&p("/a/b/c"), EntryKind::File));
    assert_eq!(*asked.borrow(), vec![(p("/a/b/c"), EntryKind::File)]);

    let default: IgnoreFilter<Ignored> = IgnoreFilter::default();
    assert!(default.ignores_nothing());
    assert!(!default.matches(&p("/a/b/c"), EntryKind::File));
}
