use notify::config::{RecursiveMode, TargetMode, WatchMode};
use notify::order::Side;
use notify::path::PathBuf;
use notify::path_map::PathMap;
use std::path::{Component, Path};

const TEXTS: [&str; 16] = [
    "", ".", "..", "/", "//", "a", "a/", "./a", "a/./b", "a//b", "/a/b", "/./a", "/../a", "a/..",
    "././a", "/a/b/",
];

fn p(text: &str) -> PathBuf {
    PathBuf::parse(text.as_bytes())
}

fn components(path: &PathBuf) -> Vec<Vec<u8>> {
    (0..path.len()).map(|i| path.component(i).clone()).collect()
}

#[test]
fn paths_have_the_components_of_std() {
    for text in TEXTS {
        let wanted: Vec<Vec<u8>> = Path::new(text)
            .components()
            .map(|component| component.as_os_str().to_str().expect("text").as_bytes().to_vec())
            .collect();
        assert_eq!(components(&p(text)), wanted, "{text:?}");
    }
}

#[test]
fn names_are_told_from_the_other_components() {
    for text in TEXTS {
        let path = p(text);
        for (i, component) in Path::new(text).components().enumerate() {
            assert_eq!(path.is_name(i), matches!(component, Component::Normal(_)), "{text:?}");
        }
    }
}

#[test]
fn parents_are_those_of_std() {
    for text in TEXTS {
        let wanted = Path::new(text).parent().map(|parent| p(parent.to_str().expect("text")));
        assert_eq!(p(text).parent(), wanted, "{text:?}");
        if let Some(dir) = wanted {
            assert!(p(text).parent_is(&dir));
        }
        assert_eq!(p(text).is_absolute(), Path::new(text).is_absolute(), "{text:?}");
    }
}

#[test]
fn paths_are_ordered_and_contained_as_in_std() {
    for a in TEXTS {
        for b in TEXTS {
            let side = p(a).compare_prefix(p(a).len(), &p(b));
            assert_eq!(side == Side::Below, Path::new(a) < Path::new(b), "{a:?} {b:?}");
            assert_eq!(side == Side::Above, Path::new(a) > Path::new(b), "{a:?} {b:?}");
            assert_eq!(side == Side::Same, Path::new(a) == Path::new(b), "{a:?} {b:?}");
            assert_eq!(
                p(a).starts_with(&p(b)),
                Path::new(a).starts_with(Path::new(b)),
                "{a:?} {b:?}"
            );
        }
    }
}

#[test]
fn paths_are_joined_as_in_std() {
    for a in TEXTS {
        for b in TEXTS {
            let wanted = Path::new(a).join(b);
            assert_eq!(p(a).join(&p(b)), p(wanted.to_str().expect("text")), "{a:?} {b:?}");
        }
    }
    assert_eq!(p("/a").entry(&b"b".to_vec()), p("/a/b"));
}

#[test]
fn text_of_a_path_spells_the_path() {
    for text in TEXTS {
        assert_eq!(PathBuf::parse(&p(text).to_bytes()), p(text), "{text:?}");
    }
    assert_eq!(p("//a/./b//").to_bytes(), b"/a/b".to_vec());
    assert_eq!(p("./a").to_bytes(), b"./a".to_vec());
}

#[test]
fn map_of_paths_lists_what_lies_below() {
    let mut map: PathMap<u8> = PathMap::new();
    for (path, value) in [("/a/b", 1), ("/a", 2), ("/ab", 3), ("/a/b/c", 4), ("/c", 5)] {
        assert_eq!(map.insert(p(path), value), None);
    }
    assert_eq!(map.insert(p("/c"), 6), Some(5));
    assert_eq!(map.get(&p("/c/")), Some(&6));
    assert_eq!(map.get(&p("/d")), None);
    assert_eq!(map.len(), 5);
    assert_eq!(map.keys_below(&p("/a")), vec![p("/a"), p("/a/b"), p("/a/b/c")]);
    assert_eq!(map.copy_below(&p("/a/b")).keys_below(&p("")), vec![p("/a/b"), p("/a/b/c")]);
    map.remove_below(&p("/a/b"));
    assert_eq!(map.keys_below(&p("/")), vec![p("/a"), p("/ab"), p("/c")]);
    assert_eq!(map.remove(&p("/a")), Some(2));
    assert_eq!(map.remove(&p("/a")), None);
    map.clear();
    assert_eq!(map.len(), 0);
}

#[test]
fn mode_is_upgraded_to_the_wider_one() {
    let narrow = WatchMode {
        recursive_mode: RecursiveMode::NonRecursive,
        target_mode: TargetMode::NoTrack,
    };
    let mut mode = narrow;
    mode.upgrade_with(narrow);
    assert_eq!(mode, narrow);
    mode.upgrade_with(WatchMode { recursive_mode: RecursiveMode::Recursive, ..narrow });
    assert!(mode.recursive() && !mode.tracks());
    mode.upgrade_with(WatchMode { target_mode: TargetMode::TrackPath, ..narrow });
    assert!(mode.recursive() && mode.tracks());
}

fn check<T: Send + Sync>() {}

#[test]
fn state_can_be_handed_to_another_thread() {
    check::<notify::inotify::event_loop::EventLoop>();
    check::<notify::kqueue::event_loop::EventLoop>();
    check::<notify::fsevent::stream::FsEventWatcher>();
    check::<notify::fsevent::roots::GoneRootsState>();
}
