use notify::config::{RecursiveMode, TargetMode, WatchMode};
use notify::error::ErrorKind;
use notify::event::{
    CreateKind, DataChange, Event, EventKind, Flag, MetadataKind, ModifyKind,
    RemoveKind, RenameMode,
};
use notify::fsevent::budget::{combine, fsevents_path_budget, reserve, FseventsPathReservation};
use notify::fsevent::paths::{
    canonicalize_lenient, merge_paths, missing_root_anchor, path_depth, paths_to_watch,
    update_paths,
};
use notify::fsevent::roots::{
    FileId, GoneRootsState, LookingGuard, Stat, Went, CREATED_REPORTED_FOR,
};
use notify::fsevent::stream::FsEventWatcher;
use notify::fsevent::translate;
use notify::fsevent::translate::{
    translated_event_count, RootChange, StreamFlags, ALL, HISTORY_DONE, INODE_META_MOD, IS_DIR,
    IS_FILE, ITEM_CLONED, ITEM_CREATED, ITEM_MODIFIED, ITEM_REMOVED, ITEM_RENAMED,
    MUST_SCAN_SUBDIRS, OWN_EVENT, ROOT_CHANGED,
};
use notify::fsevent::watcher::{handle_event, looks};
use notify::path::PathBuf;
use notify::path_map::PathMap;
use std::sync::atomic::{AtomicUsize, Ordering};

const PROCESS: u32 = 7;

const NOW: u64 = 10_000_000_000;

fn p(text: &str) -> PathBuf {
    PathBuf::parse(text.as_bytes())
}

fn mode(recursive_mode: RecursiveMode, target_mode: TargetMode) -> WatchMode {
    WatchMode { recursive_mode, target_mode }
}

fn recursive() -> WatchMode {
    mode(RecursiveMode::Recursive, TargetMode::TrackPath)
}

fn non_recursive() -> WatchMode {
    mode(RecursiveMode::NonRecursive, TargetMode::TrackPath)
}

fn flags(bits: u32) -> StreamFlags {
    StreamFlags { bits }
}

fn translate_flags(
    bits: u32,
    precise: bool,
    root: Option<RootChange>,
    create_reported: bool,
) -> Vec<Event> {
    translate::translate_flags(&flags(bits), precise, root, create_reported, PROCESS)
}

fn id(dev: u64, ino: u64) -> FileId {
    FileId { dev, ino }
}

/// What the callback is given for watches on some roots, and what the disk says of them.
struct Context {
    watches: PathMap<WatchMode>,
    gone: GoneRootsState,
    disk: Vec<(PathBuf, Stat)>,
}

impl Context {
    fn new(roots: &[(&str, WatchMode)]) -> Context {
        let mut watches = PathMap::new();
        for (root, mode) in roots {
            watches.insert(p(root), *mode);
        }
        Context { watches, gone: GoneRootsState::new(), disk: Vec::new() }
    }

    fn write(&mut self, path: &str, is_dir: bool, ino: u64) {
        self.remove(path);
        self.disk.push((p(path), Stat { is_dir, id: id(1, ino) }));
    }

    fn remove(&mut self, path: &str) {
        self.disk.retain(|(at, _)| *at != p(path));
    }

    fn stat(&self, path: &PathBuf) -> Option<Stat> {
        self.disk.iter().find(|(at, _)| at == path).map(|(_, stat)| *stat)
    }

    /// Hands events to the library in one batch, and returns the kinds and infos of what it
    /// reports.
    fn feed(&mut self, events: &[(&str, u32)]) -> Vec<(EventKind, Option<String>)> {
        let mut told = Vec::new();
        for (path, bits) in events {
            let path = p(path);
            let flags = StreamFlags::from_bits_truncate(*bits);
            let looked = looks(&self.watches, &path, &flags);
            let below = looked.below.iter().map(|root| self.stat(root)).collect();
            let own = if looked.own { self.stat(&path) } else { None };
            let (events, _) = handle_event(
                &self.watches,
                &mut self.gone,
                &path,
                &flags,
                &below,
                own,
                NOW,
                PROCESS,
            );
            for event in events {
                let info = event.info().map(|info| info.to_string());
                told.push((event.kind, info));
            }
        }
        told
    }
}

#[test]
fn translate_flags_ignores_is_file_only_events() {
    assert!(translate_flags(IS_FILE, true, None, false).is_empty());
    assert!(
        translate_flags(
            IS_FILE | ITEM_CLONED,
            true,
            None,
            false,
        )
        .is_empty(),
        "type-only clone flags should not produce events"
    );
}

#[test]
fn translate_flags_sets_clone_info_for_file_events() {
    let create = translate_flags(
        ITEM_CREATED | IS_FILE | ITEM_CLONED,
        true,
        None,
        false,
    );
    assert_eq!(create.len(), 1);
    assert_eq!(create[0].kind, EventKind::Create(CreateKind::File));
    assert_eq!(create[0].info(), Some("is: clone"));

    let modify = translate_flags(
        INODE_META_MOD
            | ITEM_MODIFIED
            | IS_FILE
            | ITEM_CLONED,
        true,
        None,
        false,
    );
    assert_eq!(modify.len(), 2);
    assert!(
        modify
            .iter()
            .any(|e| matches!(e.kind, EventKind::Modify(ModifyKind::Metadata(_))))
    );
    assert!(
        modify
            .iter()
            .any(|e| matches!(e.kind, EventKind::Modify(ModifyKind::Data(_))))
    );
    assert!(
        modify.iter().all(|e| e.info() == Some("is: clone")),
        "all events should be annotated as clone-related: {modify:?}"
    );
}

#[test]
fn translate_flags_does_not_override_existing_info() {
    let evs = translate_flags(
        ROOT_CHANGED
            | ITEM_REMOVED
            | IS_FILE
            | ITEM_CLONED,
        true,
        None,
        false,
    );
    assert_eq!(evs.len(), 1);
    assert_eq!(evs[0].info(), Some("root changed"));
}

#[test]
fn translate_flags_reports_what_became_of_a_changed_root() {
    let root_changed = ROOT_CHANGED;
    assert!(translate_flags(root_changed, true, Some(RootChange::Reported), false).is_empty());
    assert!(
        translate_flags(root_changed, true, Some(RootChange::StillGone), false).is_empty()
    );

    for (is_dir, kind) in [(true, CreateKind::Folder), (false, CreateKind::File)] {
        let evs = translate_flags(
            root_changed,
            true,
            Some(RootChange::Present { is_dir }),
            false,
        );
        assert_eq!(evs.len(), 1, "{evs:?}");
        assert_eq!(evs[0].kind, EventKind::Create(kind));
        assert_eq!(evs[0].info(), Some("root changed"));
    }

    // The flags carry the root's own creation: that is the one report.
    let evs = translate_flags(
        ROOT_CHANGED | ITEM_CREATED | IS_FILE,
        true,
        Some(RootChange::Present { is_dir: false }),
        false,
    );
    assert_eq!(evs.len(), 1, "{evs:?}");
    assert_eq!(evs[0].kind, EventKind::Create(CreateKind::File));
    assert_eq!(evs[0].info(), None);

    for root in [Some(RootChange::Gone), None] {
        let evs = translate_flags(root_changed, true, root, false);
        assert_eq!(evs.len(), 1, "{evs:?}");
        assert_eq!(evs[0].kind, EventKind::Remove(RemoveKind::Any));
        assert_eq!(evs[0].info(), Some("root changed"));
    }

    let evs = translate_flags(
        ROOT_CHANGED | ITEM_RENAMED,
        true,
        Some(RootChange::Gone),
        false,
    );
    assert_eq!(evs.len(), 1, "{evs:?}");
    assert_eq!(
        evs[0].kind,
        EventKind::Modify(ModifyKind::Name(RenameMode::From))
    );
    assert_eq!(evs[0].info(), Some("root changed"));

    let evs = translate_flags(
        ROOT_CHANGED | ITEM_REMOVED | IS_DIR,
        true,
        Some(RootChange::Gone),
        false,
    );
    assert_eq!(evs.len(), 1, "{evs:?}");
    assert_eq!(evs[0].kind, EventKind::Remove(RemoveKind::Folder));
    assert_eq!(evs[0].info(), Some("root changed"));
}

#[test]
fn translate_flags_leaves_out_a_create_reported_already() {
    let flags = ITEM_CREATED | ITEM_MODIFIED | IS_FILE;
    let evs = translate_flags(flags, true, None, false);
    assert_eq!(evs.len(), 2, "{evs:?}");
    assert_eq!(evs[0].kind, EventKind::Create(CreateKind::File));

    let evs = translate_flags(flags, true, None, true);
    assert_eq!(evs.len(), 1, "{evs:?}");
    assert_eq!(
        evs[0].kind,
        EventKind::Modify(ModifyKind::Data(DataChange::Content))
    );
}

// A mark that was never used up stops standing for a creation after a moment, and goes.
#[test]
fn stale_created_mark_is_ignored_and_dropped() {
    let id = id(1, 2);
    let mut gone = GoneRootsState::new();
    let now = NOW;
    let old = now - (CREATED_REPORTED_FOR + 1_000_000_000);
    gone.mark_created(p("/stale"), id, old);
    gone.mark_created(p("/stale-too"), id, old);
    assert!(!gone.take_created(&p("/stale"), Some(id), now));
    assert!(!gone.is_marked(&p("/stale")));

    gone.mark_created(p("/fresh"), id, now);
    assert!(!gone.is_marked(&p("/stale-too")), "{gone:?}");
    assert!(gone.take_created(&p("/fresh"), Some(id), now));
    assert!(!gone.take_created(&p("/fresh"), Some(id), now), "a mark is used once");
}

// A mark stands only for the file that was there when the root's coming back was reported.
#[test]
fn created_mark_stands_for_the_file_that_was_there() {
    let mut gone = GoneRootsState::new();
    gone.mark_created(p("/root"), id(1, 2), NOW);
    assert!(!gone.take_created(&p("/root"), Some(id(1, 3)), NOW), "another file");
    assert!(
        !gone.take_created(&p("/root"), Some(id(1, 2)), NOW),
        "the mark was used up by the other file"
    );

    gone.mark_created(p("/root"), id(1, 2), NOW);
    assert!(!gone.take_created(&p("/root"), None, NOW), "no file");
    assert!(gone.marked().is_empty(), "{gone:?}");
}

// The root's first own event after its coming back was reported from the disk uses the mark up; a
// creation it carries is left out only while the root is still the file reported.
#[test]
fn own_event_uses_up_the_mark_of_a_reported_creation() {
    const CREATED: u32 = ITEM_CREATED | IS_FILE;
    const REMOVED: u32 = ITEM_REMOVED | IS_FILE;
    const PARENT_CREATED: u32 = ITEM_CREATED | IS_DIR;

    let mut context = Context::new(&[("/t/parent/file", non_recursive())]);
    context.write("/t/parent", true, 1);
    context.write("/t/parent/file", false, 2);
    let reported_back = vec![(EventKind::Create(CreateKind::File), Some("root changed".to_string()))];

    // The creation reported from the disk is not reported again.
    context.gone.went(&p("/t/parent/file"));
    assert_eq!(context.feed(&[("/t/parent", PARENT_CREATED)]), reported_back);
    assert_eq!(context.feed(&[("/t/parent/file", CREATED)]), vec![]);

    // A deletion handled once the root is back uses the mark up.
    context.gone.went(&p("/t/parent/file"));
    assert_eq!(context.feed(&[("/t/parent", PARENT_CREATED)]), reported_back);
    context.write("/t/parent/file", false, 3);
    assert_eq!(
        context.feed(&[("/t/parent/file", REMOVED), ("/t/parent/file", CREATED)]),
        vec![
            (EventKind::Remove(RemoveKind::File), None),
            (EventKind::Create(CreateKind::File), None)
        ]
    );

    // A creation of another file than the one reported is a new one.
    context.gone.went(&p("/t/parent/file"));
    assert_eq!(context.feed(&[("/t/parent", PARENT_CREATED)]), reported_back);
    context.write("/t/parent/file", false, 4);
    assert_eq!(
        context.feed(&[("/t/parent/file", CREATED | REMOVED)]),
        vec![
            (EventKind::Create(CreateKind::File), None),
            (EventKind::Remove(RemoveKind::File), None)
        ]
    );
}

// A root that is a stream path of its own gets a `ROOT_CHANGED` when it goes, and is reported as
// changed whether or not its own event came first. A root folded into its parent gets its own event
// only, and the parent's event does not report it again.
#[test]
fn root_change_reports_a_root_that_went_by_its_own_event() {
    const DIR_REMOVED: u32 = ITEM_REMOVED | IS_DIR;
    const FILE_REMOVED: u32 = ITEM_REMOVED | IS_FILE;

    let mut context =
        Context::new(&[("/t/root", recursive()), ("/t/parent/folded", non_recursive())]);
    let root_gone = (EventKind::Remove(RemoveKind::Any), Some("root changed".to_string()));

    assert_eq!(
        context.feed(&[("/t/root", DIR_REMOVED), ("/t/root", ROOT_CHANGED)]),
        vec![(EventKind::Remove(RemoveKind::Folder), None), root_gone]
    );
    assert_eq!(context.feed(&[("/t/root", ROOT_CHANGED)]), vec![]);

    assert_eq!(
        context.feed(&[("/t/parent/folded", FILE_REMOVED), ("/t/parent", DIR_REMOVED)]),
        vec![(EventKind::Remove(RemoveKind::File), None)]
    );
    context.gone.stop();
    assert!(context.gone.is_stopped());
}

// A looker that is done must not reset `looking` once a root going right after has started the next
// one: a third could start.
#[test]
fn finished_looker_leaves_the_next_one_looking() {
    let mut gone = GoneRootsState::new();
    let (_, starts) = gone.went(&p("/first"));
    assert!(starts);
    assert!(gone.is_looking());
    let mut looking = LookingGuard { armed: true };

    // A root went during the pass: the looker goes on.
    let epoch = gone.epoch();
    let (_, starts) = gone.went(&p("/second"));
    assert!(!starts);
    assert_ne!(gone.epoch(), epoch);
    assert!(!gone.done_looking(epoch, &mut looking));
    assert!(gone.is_looking());

    let epoch = gone.epoch();
    assert!(gone.done_looking(epoch, &mut looking));
    assert!(!gone.is_looking());
    // A root goes, and starts the next looker, before this one's guard is dropped.
    let (_, starts) = gone.went(&p("/third"));
    assert!(starts);
    looking.release(&mut gone);
    assert!(gone.is_looking(), "the finished looker reset the next one's flag");
}

#[test]
fn looker_that_ends_early_lets_the_next_one_look() {
    let mut gone = GoneRootsState::new();
    gone.went(&p("/first"));
    let looking = LookingGuard { armed: true };
    looking.release(&mut gone);
    assert!(!gone.is_looking());
    let (how, starts) = gone.went(&p("/second"));
    assert_eq!(how, None);
    assert!(starts);
}

#[test]
fn does_not_crash_with_empty_path() {
    let mut gone = GoneRootsState::new();
    let mut watcher = FsEventWatcher::new(0);
    let watch_result = watcher.append_path(&mut gone, &p(""), recursive(), false, p("/"), true);
    assert!(
        matches!(&watch_result, Err(error) if error.kind == ErrorKind::PathNotFound),
        "actual: {watch_result:#?}"
    );

    let unwatch_result = watcher.remove_path(&mut gone, &p(""), &p("/"));
    assert!(
        matches!(&unwatch_result, Err(error) if error.kind == ErrorKind::WatchNotFound),
        "actual: {unwatch_result:#?}"
    );
}

#[test]
fn path_budget_is_shared_across_live_streams() {
    static ACTIVE_PATHS: AtomicUsize = AtomicUsize::new(0);

    let first = FseventsPathReservation::acquire(&ACTIVE_PATHS, 15, 21)
        .expect("first stream must fit within the budget");
    let active_path_count = FseventsPathReservation::acquire(&ACTIVE_PATHS, 15, 21)
        .expect_err("the combined path count must exceed the budget");
    assert_eq!(active_path_count, 15);

    drop(first);

    let second = FseventsPathReservation::acquire(&ACTIVE_PATHS, 15, 21)
        .expect("stopping the first stream must release its paths");
    drop(second);
    assert_eq!(ACTIVE_PATHS.load(Ordering::Relaxed), 0);
}

#[test]
fn path_budget_follows_the_limit_of_descriptors() {
    assert_eq!(fsevents_path_budget(Some(256)), 21);
    assert_eq!(fsevents_path_budget(Some(0)), 0);
    let active = AtomicUsize::new(0);
    let first = reserve(&active, 20, Some(256)).expect("within the budget");
    assert_eq!(active.load(Ordering::Relaxed), 20);
    let refused = reserve(&active, 2, Some(256)).expect_err("over the budget");
    assert_eq!(refused, 20);
    drop(first);
    assert_eq!(active.load(Ordering::Relaxed), 0);
}

#[test]
fn callback_impl_handles_non_utf8_paths_without_panicking() {
    let bytes = b"/tmp/\xff";
    let mut watches = PathMap::new();
    watches.insert(p("/tmp"), recursive());
    let mut gone = GoneRootsState::new();
    let (events, _) = handle_event(
        &watches,
        &mut gone,
        &PathBuf::parse(bytes),
        &flags(ITEM_CREATED),
        &Vec::new(),
        None,
        NOW,
        PROCESS,
    );
    assert_eq!(events.len(), 1);
    assert!(matches!(events[0].kind, EventKind::Create(_)), "{events:?}");
    assert_eq!(events[0].paths.len(), 1);
    assert_eq!(events[0].paths[0].to_bytes(), bytes);
}

#[test]
fn callback_impl_ignores_unknown_flag_bits_without_panicking() {
    let unknown_bit = !ALL & (!ALL).wrapping_neg();
    assert_ne!(unknown_bit, 0);
    let mut context = Context::new(&[("/tmp", recursive())]);
    let events = context.feed(&[("/tmp/file", ITEM_CREATED | unknown_bit)]);
    assert_eq!(events.len(), 1);
    assert!(matches!(events[0].0, EventKind::Create(_)), "{events:?}");
}

#[test]
fn canonicalize_lenient_resolves_the_existing_part() {
    let canonical = |path: &PathBuf| {
        if *path == p("/t/link") || *path == p("/t/real") {
            Some(p("/t/real"))
        } else if *path == p("/t") || *path == p("/cwd") || *path == p("/") {
            Some(path.clone())
        } else {
            None
        }
    };
    assert_eq!(canonicalize_lenient(&p("/t/link"), None, &canonical), p("/t/real"));
    assert_eq!(
        canonicalize_lenient(&p("/t/link/missing/file"), None, &canonical),
        p("/t/real/missing/file")
    );
    assert_eq!(
        canonicalize_lenient(&p("missing-relative"), Some(p("/cwd")), &canonical),
        p("/cwd/missing-relative")
    );
}

#[test]
fn missing_root_anchor_is_the_deepest_existing_ancestor() {
    let there = ["/", "/a", "/a/b", "/a/b/anchor", "/a/b/anchor/present"];
    let exists = |path: &PathBuf| there.iter().any(|at| p(at) == *path);
    let anchor = |root: &str| missing_root_anchor(&p(root), &exists);

    assert_eq!(anchor("/a/b/anchor/present"), None);
    assert_eq!(anchor("/a/b/anchor/missing"), None);
    assert_eq!(anchor("/a/b/anchor/missing/file"), Some(p("/a/b/anchor")));
    assert_eq!(anchor("/a/b/anchor/missing/deeper/file"), Some(p("/a/b/anchor")));
    assert_eq!(
        anchor("/notify-rs-missing/missing/file"),
        None,
        "the root of the file system is never watched for a missing root"
    );
}

#[test]
fn missing_root_anchor_is_never_a_shallow_directory() {
    let there = ["/", "/Users", "/private", "/private/tmp", "/Users/me"];
    let exists = |path: &PathBuf| there.iter().any(|at| p(at) == *path);
    for root in [
        "/Users/notify-rs-missing/project/file",
        "/private/tmp/notify-rs-missing/missing/file",
        "/Users/me/notify-rs-missing/missing/file",
    ] {
        assert_eq!(missing_root_anchor(&p(root), &exists), None, "{root}");
    }
}

#[test]
fn depth_counts_names_only() {
    assert_eq!(path_depth(&p("/")), 0);
    assert_eq!(path_depth(&p("/a/b/c")), 3);
    assert_eq!(path_depth(&p("./a/../b")), 2);
}

#[test]
fn event_count_is_that_of_the_translation() {
    for bits in [
        0,
        HISTORY_DONE | ITEM_CREATED,
        MUST_SCAN_SUBDIRS,
        ITEM_CREATED | ITEM_REMOVED | IS_FILE,
        ITEM_CREATED | ITEM_MODIFIED | INODE_META_MOD | IS_DIR,
        ITEM_RENAMED | ITEM_MODIFIED | IS_FILE,
    ] {
        for precise in [true, false] {
            let told = translate_flags(bits, precise, None, false);
            assert_eq!(translated_event_count(&flags(bits), precise), told.len(), "{bits:x}");
        }
    }
    assert!(translate_flags(HISTORY_DONE | ITEM_CREATED, true, None, false).is_empty());
}

#[test]
fn dropped_events_ask_for_a_rescan() {
    let told = translate_flags(MUST_SCAN_SUBDIRS | translate::USER_DROPPED, true, None, false);
    assert_eq!(told.len(), 1);
    assert_eq!(told[0].kind, EventKind::Other);
    assert_eq!(told[0].attrs.flag, Some(Flag::Rescan));
    assert_eq!(told[0].info(), Some("rescan: user dropped"));
}

#[test]
fn own_process_is_named() {
    let told = translate_flags(ITEM_CREATED | IS_FILE | OWN_EVENT, true, None, false);
    assert_eq!(told.len(), 1);
    assert_eq!(told[0].attrs.process_id, Some(PROCESS));
    let told = translate_flags(ITEM_CREATED | IS_FILE, true, None, false);
    assert_eq!(told[0].attrs.process_id, None);
}

#[test]
fn unwatched_paths_are_not_reported() {
    let mut context = Context::new(&[("/a", non_recursive()), ("/r", recursive())]);
    let created = ITEM_CREATED | IS_FILE;
    assert_eq!(context.feed(&[("/b/file", created)]), vec![]);
    assert_eq!(context.feed(&[("/a/deep/file", created)]), vec![]);
    assert_eq!(context.feed(&[("/a/file", created)]).len(), 1);
    assert_eq!(context.feed(&[("/r/deep/file", created)]).len(), 1);
}

#[test]
fn root_that_goes_and_comes_back_is_reported_once_each() {
    let mut context = Context::new(&[("/t/parent/root", recursive())]);
    let moved = ITEM_RENAMED | IS_DIR;
    let gone = (EventKind::Remove(RemoveKind::Any), Some("root changed".to_string()));
    let back = (EventKind::Create(CreateKind::Folder), Some("root changed".to_string()));
    assert_eq!(context.feed(&[("/t/parent", moved)]), vec![gone]);
    assert_eq!(context.feed(&[("/t/parent", moved)]), vec![]);
    assert!(context.gone.is_gone(&p("/t/parent/root")));
    context.write("/t/parent/root", true, 5);
    assert_eq!(context.feed(&[("/t/parent", moved)]), vec![back]);
    assert_eq!(context.feed(&[("/t/parent", moved)]), vec![]);
    assert!(!context.gone.is_gone(&p("/t/parent/root")));
}

#[test]
fn each_root_that_is_looked_at_is_reported() {
    let mut gone = GoneRootsState::new();
    gone.went(&p("/a/back"));
    gone.went(&p("/a/still"));
    let roots = vec![p("/a/back"), p("/a/here"), p("/a/lost"), p("/a/still")];
    let there = Some(Stat { is_dir: true, id: id(1, 2) });
    let (events, _) = gone.check_roots(&roots, &vec![there, there, None, None], NOW);
    let told: Vec<(EventKind, Vec<PathBuf>)> =
        events.into_iter().map(|event| (event.kind, event.paths)).collect();
    assert_eq!(
        told,
        vec![
            (EventKind::Create(CreateKind::Folder), vec![p("/a/back")]),
            (EventKind::Remove(RemoveKind::Any), vec![p("/a/lost")]),
        ]
    );
    assert!(gone.is_gone(&p("/a/lost")) && gone.is_gone(&p("/a/still")));
    assert!(!gone.is_gone(&p("/a/back")) && gone.is_marked(&p("/a/back")));
}

#[test]
fn looker_reports_what_it_finds() {
    let mut gone = GoneRootsState::new();
    let stat = Stat { is_dir: false, id: id(1, 9) };
    assert!(gone.found(&p("/root"), stat, NOW).is_none());
    assert_eq!(gone.went(&p("/root")), (None, true));
    assert_eq!(gone.went(&p("/root")), (Some(Went::RootChange), false));
    assert_eq!(gone.gone(), vec![p("/root")]);
    let event = gone.found(&p("/root"), stat, NOW).expect("event");
    assert_eq!(event.kind, EventKind::Create(CreateKind::File));
    assert_eq!(event.info(), Some("root changed"));
    assert_eq!(event.paths, vec![p("/root")]);
    assert!(gone.gone().is_empty());
    assert!(gone.is_marked(&p("/root")));
    gone.went(&p("/root"));
    gone.stop();
    assert!(gone.found(&p("/root"), stat, NOW).is_none(), "a stopped looker reports nothing");
}

#[test]
fn stream_carries_the_watched_paths() {
    let exists = |_: &PathBuf| true;
    let mut gone = GoneRootsState::new();
    let mut watcher = FsEventWatcher::new(0);
    let active = AtomicUsize::new(0);
    assert!(watcher.run(&gone, &exists, &active, Some(256)).expect("run").is_none());
    for path in ["/A/b", "/A/b/c", "/d"] {
        let started = watcher
            .append_path(&mut gone, &p(path), recursive(), true, p(path), true)
            .expect("append");
        assert!(!started);
    }
    let reservation = watcher.run(&gone, &exists, &active, Some(256)).expect("run");
    assert!(reservation.is_some());
    let mut paths = watcher.stream_paths().clone();
    paths.sort();
    assert_eq!(paths, vec!["/A/b".to_string(), "/d".to_string()]);
    assert_eq!(active.load(Ordering::Relaxed), 2);
    drop(reservation);
    assert_eq!(active.load(Ordering::Relaxed), 0);

    watcher.remove_path(&mut gone, &p("/d"), &p("/d")).expect("remove");
    let refused = watcher.remove_path(&mut gone, &p("/d"), &p("/d")).expect_err("not watched");
    assert_eq!(refused.kind, ErrorKind::WatchNotFound);
    let refused = watcher.run(&gone, &exists, &active, Some(0)).expect_err("no budget");
    assert_eq!(refused.kind, ErrorKind::MaxFilesWatch);
}

#[test]
fn missing_root_is_looked_for_when_it_is_tracked() {
    let mut gone = GoneRootsState::new();
    let mut watcher = FsEventWatcher::new(0);
    let no_track = mode(RecursiveMode::Recursive, TargetMode::NoTrack);
    let refused = watcher
        .append_path(&mut gone, &p("/missing"), no_track, false, p("/missing"), false)
        .expect_err("missing");
    assert_eq!(refused.kind, ErrorKind::PathNotFound);
    assert_eq!(refused.paths, vec![p("/missing")]);
    let started = watcher
        .append_path(&mut gone, &p("/missing"), recursive(), false, p("/missing"), false)
        .expect("tracked");
    assert!(started);
    assert!(gone.is_gone(&p("/missing")));
    assert!(watcher.watched().contains(&p("/missing")));
}

#[test]
fn paths_of_a_stream_are_compared_without_regard_to_case() {
    let kept = update_paths(&vec!["/a/b".to_string(), "/gone".to_string()], &vec![p("/A/B")]);
    assert_eq!(kept, vec!["/a/b".to_string()]);
    let replaced = update_paths(&vec!["/A/B".to_string()], &vec![p("/A/B")]);
    assert_eq!(replaced, vec!["/A/B".to_string()]);
    let added = update_paths(&vec![], &vec![PathBuf::parse(b"/x/\xff")]);
    assert_eq!(added, vec!["/x/\u{fffd}".to_string()]);
}

#[test]
fn new_paths_of_a_stream_come_last() {
    let texts = |list: &[&str]| -> Vec<String> { list.iter().map(|t| t.to_string()).collect() };
    let merged = merge_paths(
        &texts(&["/x", "/y", "/y"]),
        &texts(&["/Y", "/Z", "/W"]),
        &texts(&["/y", "/z", "/w"]),
    );
    assert_eq!(merged, texts(&["/y", "/y", "/Z", "/W"]));
}

#[test]
fn paths_to_watch_are_folded() {
    let mut watches = PathMap::new();
    watches.insert(p("/a/b"), recursive());
    watches.insert(p("/a/b/c"), non_recursive());
    watches.insert(p("/x/y"), non_recursive());
    let wanted = paths_to_watch(&watches, &vec![p("/q/r/s")], 0);
    assert_eq!(wanted, vec![p("/a/b"), p("/q/r/s"), p("/x/y")]);
}

#[test]
fn changes_of_one_kind_only() {
    let told = translate_flags(translate::ITEM_XATTR_MOD | IS_FILE, true, None, false);
    assert_eq!(told.len(), 1);
    assert_eq!(
        told[0].kind,
        EventKind::Modify(ModifyKind::Metadata(MetadataKind::Extended))
    );
    let told = translate_flags(translate::MOUNT, true, None, false);
    assert_eq!(told[0].kind, EventKind::Create(CreateKind::Other));
    assert_eq!(told[0].info(), Some("mount"));
}

#[test]
fn paths_are_within_the_budget_up_to_its_last() {
    assert_eq!(combine(19, 2, 21), Some(21));
    assert_eq!(combine(20, 2, 21), None);
    assert_eq!(combine(usize::MAX, 1, usize::MAX), None);
    assert_eq!(combine(19, 2, fsevents_path_budget(Some(256))), Some(21));
    assert_eq!(combine(20, 2, fsevents_path_budget(Some(256))), None);
    assert_eq!(combine(20, 2, fsevents_path_budget(None)), Some(22));
}
