use notify::config::{RecursiveMode, TargetMode, WatchMode};
use notify::error::{Error, ErrorKind};
use notify::event::{
    CreateKind, DataChange, EventKind, MetadataKind, ModifyKind, RemoveKind, RenameMode,
};
use notify::kqueue::event_loop::{EventLoop, Wanted};
use notify::kqueue::task::{Answer, PathStat, Request, Vnode, WalkError};
use notify::path::PathBuf;
use notify::report::Report;
use std::collections::{BTreeMap, BTreeSet};

const ENOENT: i32 = 2;
const EACCES: i32 = 13;
const ENFILE: i32 = 23;
const ELOOP: i32 = 62;

fn p(text: &str) -> PathBuf {
    PathBuf::parse(text.as_bytes())
}

fn text(path: &PathBuf) -> String {
    String::from_utf8(path.to_bytes()).expect("text")
}

fn mode(recursive_mode: RecursiveMode, target_mode: TargetMode) -> WatchMode {
    WatchMode { recursive_mode, target_mode }
}

fn recursive() -> WatchMode {
    mode(RecursiveMode::Recursive, TargetMode::TrackPath)
}

fn non_recursive() -> WatchMode {
    mode(RecursiveMode::NonRecursive, TargetMode::TrackPath)
}

fn no_track() -> WatchMode {
    mode(RecursiveMode::NonRecursive, TargetMode::NoTrack)
}

fn parent(path: &str) -> String {
    let at = path.rfind('/').expect("parent");
    if at == 0 { "/".to_string() } else { path[..at].to_string() }
}

/// A small file system with the handles of a kernel queue.
struct Disk {
    /// The entity behind each path, and whether it is a directory.
    nodes: BTreeMap<String, (u64, bool)>,
    /// The entity behind each open handle, and whether it is registered.
    open: BTreeMap<String, (u64, bool)>,
    events: Vec<(Vnode, String)>,
    unreadable: BTreeSet<String>,
    looped: BTreeSet<String>,
    /// Links that lead back above themselves.
    circular: BTreeSet<String>,
    next: u64,
    limit: Option<usize>,
    /// Created just before the next registration.
    late: Option<String>,
    refused: bool,
    walk: Vec<Result<PathBuf, WalkError<PathBuf>>>,
}

impl Disk {
    fn new() -> Disk {
        let mut nodes = BTreeMap::new();
        nodes.insert("/".to_string(), (1, true));
        Disk {
            nodes,
            open: BTreeMap::new(),
            events: Vec::new(),
            unreadable: BTreeSet::new(),
            looped: BTreeSet::new(),
            circular: BTreeSet::new(),
            next: 2,
            limit: None,
            late: None,
            refused: false,
            walk: Vec::new(),
        }
    }

    fn emit(&mut self, id: u64, vnode: Vnode) {
        for (path, (other, registered)) in &self.open {
            if *other == id && *registered {
                self.events.push((vnode, path.clone()));
            }
        }
    }

    fn entry_changed(&mut self, path: &str, is_dir: bool) {
        let (id, _) = self.nodes[&parent(path)];
        self.emit(id, Vnode::Write);
        if is_dir {
            self.emit(id, Vnode::Link);
        }
    }

    fn add(&mut self, path: &str, is_dir: bool) {
        let id = self.next;
        self.next += 1;
        self.nodes.insert(path.to_string(), (id, is_dir));
        self.entry_changed(path, is_dir);
    }

    fn mkdir(&mut self, path: &str) {
        self.add(path, true);
    }

    fn create(&mut self, path: &str) {
        self.add(path, false);
    }

    fn tell(&mut self, path: &str, vnode: Vnode) {
        let (id, _) = self.nodes[path];
        self.emit(id, vnode);
    }

    fn remove(&mut self, path: &str) {
        let (id, is_dir) = self.nodes.remove(path).expect("node");
        self.emit(id, Vnode::Delete);
        self.entry_changed(path, is_dir);
    }

    fn rename(&mut self, from: &str, to: &str) {
        let (id, is_dir) = self.nodes[from];
        if let Some((gone, _)) = self.nodes.get(to).copied() {
            self.emit(gone, Vnode::Delete);
        }
        self.emit(id, Vnode::Rename);
        let moved: Vec<String> = self
            .nodes
            .keys()
            .filter(|at| *at == from || at.starts_with(&format!("{from}/")))
            .cloned()
            .collect();
        for at in moved {
            let node = self.nodes.remove(&at).expect("node");
            self.nodes.insert(format!("{to}{}", &at[from.len()..]), node);
        }
        self.entry_changed(from, is_dir);
        self.entry_changed(to, is_dir);
    }

    fn node(&self, path: &str) -> Result<(u64, bool), i32> {
        if self.looped.contains(path) {
            return Err(ELOOP);
        }
        if self.unreadable.iter().any(|at| path.starts_with(&format!("{at}/"))) {
            return Err(EACCES);
        }
        self.nodes.get(path).copied().ok_or(ENOENT)
    }

    fn walk(&self, top: &str) -> Vec<Result<PathBuf, WalkError<PathBuf>>> {
        let mut found = Vec::new();
        for at in self.nodes.keys() {
            if at != top && !at.starts_with(&format!("{top}/")) {
                continue;
            }
            if self.circular.contains(at) {
                found.push(Err(WalkError::Loop { message: format!("loop at {at}") }));
            } else if self.unreadable.contains(at) {
                found.push(Ok(p(at)));
                found.push(Err(WalkError::Io { errno: EACCES, path: Some(p(at)) }));
            } else {
                found.push(Ok(p(at)));
            }
        }
        if found.is_empty() {
            found.push(Err(WalkError::Io { errno: ENOENT, path: Some(p(top)) }));
        }
        found.reverse();
        found
    }

    fn open(&mut self, path: &str) -> Result<(), i32> {
        if self.limit.is_some_and(|limit| self.open.len() >= limit) {
            return Err(ENFILE);
        }
        if self.unreadable.contains(path) {
            return Err(EACCES);
        }
        let (id, _) = self.node(path)?;
        self.open.insert(path.to_string(), (id, false));
        Ok(())
    }

    fn register(&mut self) -> Result<(), i32> {
        if let Some(path) = self.late.take() {
            self.create(&path);
        }
        if self.refused {
            return Err(EACCES);
        }
        for (_, registered) in self.open.values_mut() {
            *registered = true;
        }
        Ok(())
    }

    fn answer(&mut self, request: Request<PathBuf>) -> Answer<PathBuf, Vec<PathBuf>> {
        match request {
            Request::Idle | Request::Again => Answer::Go,
            Request::Stat(path) => {
                let node = self.node(&text(&path));
                Answer::Stat(node.map(|(_, is_dir)| PathStat { is_dir, is_file: !is_dir }))
            }
            Request::List(path) => {
                let dir = text(&path);
                if self.unreadable.contains(&dir) {
                    return Answer::List(Err(EACCES));
                }
                let entries = self
                    .nodes
                    .keys()
                    .filter(|at| *at != "/" && parent(at) == dir)
                    .map(|at| p(at));
                Answer::List(Ok(entries.collect()))
            }
            Request::Walk(path) => {
                self.walk = self.walk(&text(&path));
                Answer::Walked(self.walk.pop())
            }
            Request::Next => Answer::Walked(self.walk.pop()),
            Request::Add(path) => Answer::Did(self.open(&text(&path))),
            Request::Remove(path) => {
                self.open.remove(&text(&path));
                Answer::Did(Ok(()))
            }
            Request::Register => Answer::Did(self.register()),
        }
    }
}

/// An event loop on a disk, with a working directory.
struct Watcher {
    disk: Disk,
    events: EventLoop,
    cwd: String,
}

type Told = Vec<(EventKind, Vec<String>)>;

impl Watcher {
    fn new(disk: Disk) -> Watcher {
        Watcher { disk, events: EventLoop::new(), cwd: "/t".to_string() }
    }

    fn absolute(&self, path: &str) -> PathBuf {
        if path.starts_with('/') { p(path) } else { p(&format!("{}/{path}", self.cwd)) }
    }

    fn run(&mut self) -> Result<(), Error> {
        let mut answer = Answer::Go;
        loop {
            let request = self.events.step(answer);
            if request == Request::Idle {
                let held = self.events.handles().keys_below(&PathBuf::new());
                let held: BTreeSet<String> = held.iter().map(text).collect();
                assert_eq!(held, self.disk.open.keys().cloned().collect());
                return self.events.take_result();
            }
            answer = self.disk.answer(request);
        }
    }

    fn watch(&mut self, path: &str, mode: WatchMode) -> Result<(), Error> {
        self.events.add_watch(self.absolute(path), mode);
        self.run()
    }

    fn unwatch(&mut self, path: &str) -> Result<(), Error> {
        self.events.remove_watch(self.absolute(path));
        self.run()
    }

    fn vnode(&mut self, vnode: Vnode, path: &str) {
        self.events.handle_vnode(vnode, p(path));
        assert!(self.run().is_ok());
    }

    fn batch_ended(&mut self) -> Vec<Report> {
        self.events.process_batch();
        assert!(self.run().is_ok());
        self.events.take_reports()
    }

    /// Handles what the kernel has to tell, and returns what is reported.
    fn reports(&mut self) -> Vec<Report> {
        for (vnode, path) in std::mem::take(&mut self.disk.events) {
            self.vnode(vnode, &path);
        }
        self.batch_ended()
    }

    fn told(&mut self) -> Told {
        self.reports()
            .into_iter()
            .map(|report| match report {
                Report::Event(event) => (event.kind, event.paths.iter().map(text).collect()),
                Report::Error(error) => panic!("{error:?}"),
            })
            .collect()
    }

    fn handles(&self, chain: bool) -> Vec<String> {
        let handles = self.events.handles();
        handles
            .keys_below(&PathBuf::new())
            .iter()
            .filter(|path| handles.get(path) == Some(&chain))
            .map(text)
            .collect()
    }

    fn watch_handles(&self) -> Vec<String> {
        self.handles(false)
    }

    fn chain_handles(&self) -> Vec<String> {
        self.handles(true)
    }
}

fn one(kind: EventKind, path: &str) -> (EventKind, Vec<String>) {
    (kind, vec![path.to_string()])
}

const CREATED: EventKind = EventKind::Create(CreateKind::File);
const CREATED_DIR: EventKind = EventKind::Create(CreateKind::Folder);
const REMOVED: EventKind = EventKind::Remove(RemoveKind::Any);
const WRITTEN: EventKind = EventKind::Modify(ModifyKind::Data(DataChange::Any));
const RENAMED: EventKind = EventKind::Modify(ModifyKind::Name(RenameMode::Any));

fn none() -> Vec<String> {
    Vec::new()
}

fn tmpdir() -> Disk {
    let mut disk = Disk::new();
    disk.mkdir("/t");
    disk.mkdir("/t/dir");
    disk
}

#[test]
fn test_remove_recursive() {
    let mut disk = tmpdir();
    disk.mkdir("/t/src");
    disk.create("/t/src/bimap.rs");
    disk.create("/t/src/filter.rs");
    let mut watcher = Watcher::new(disk);
    watcher.watch("src", recursive()).expect("watch");
    assert_eq!(
        watcher.watch_handles(),
        vec!["/t", "/t/src", "/t/src/bimap.rs", "/t/src/filter.rs"]
    );
    let result = watcher.unwatch("src");
    assert!(result.is_ok(), "unwatch yielded error: {:?}", result.unwrap_err());
    assert!(watcher.disk.open.is_empty());
}

#[test]
fn kqueue_create_self_file_no_track() {
    let mut watcher = Watcher::new(tmpdir());
    let result = watcher.watch("/t/dir/entry", no_track());
    assert!(
        matches!(result, Err(Error { paths: _, kind: ErrorKind::PathNotFound })),
        "{result:?}"
    );
}

#[test]
fn watching_the_filesystem_root_is_not_silently_missing() {
    let mut watcher = Watcher::new(tmpdir());
    watcher.watch("/", non_recursive()).expect("watch");
    assert!(watcher.watch_handles().contains(&"/".to_string()));

    let mut disk = tmpdir();
    disk.limit = Some(0);
    let mut watcher = Watcher::new(disk);
    let error = watcher.watch("/", non_recursive()).expect_err("full");
    assert!(matches!(error.kind, ErrorKind::Io(_)), "{error:?}");
}

#[test]
fn entries_of_a_kernel_queue_directory() {
    let mut watcher = Watcher::new(tmpdir());
    watcher.watch("/t/dir", recursive()).expect("watch");
    assert_eq!(watcher.watch_handles(), vec!["/t", "/t/dir"]);
    assert_eq!(watcher.chain_handles(), vec!["/"]);

    watcher.disk.create("/t/dir/entry");
    assert_eq!(watcher.told(), vec![one(CREATED, "/t/dir/entry")]);
    assert_eq!(watcher.watch_handles(), vec!["/t", "/t/dir", "/t/dir/entry"]);

    watcher.disk.tell("/t/dir/entry", Vnode::Write);
    assert_eq!(watcher.told(), vec![one(WRITTEN, "/t/dir/entry")]);

    watcher.disk.remove("/t/dir/entry");
    assert_eq!(
        watcher.told(),
        vec![one(REMOVED, "/t/dir/entry"), one(WRITTEN, "/t/dir")]
    );
    assert_eq!(watcher.watch_handles(), vec!["/t", "/t/dir"]);
}

#[test]
fn each_change_of_a_file_is_reported_by_its_kind() {
    let mut disk = tmpdir();
    disk.create("/t/dir/file");
    let mut watcher = Watcher::new(disk);
    watcher.watch("/t/dir/file", non_recursive()).expect("watch");
    let size = EventKind::Modify(ModifyKind::Data(DataChange::Size));
    let metadata = EventKind::Modify(ModifyKind::Metadata(MetadataKind::Any));
    for (vnode, kind) in [
        (Vnode::Write, WRITTEN),
        (Vnode::Extend, size),
        (Vnode::Truncate, size),
        (Vnode::Attrib, metadata),
        (Vnode::Link, EventKind::Modify(ModifyKind::Any)),
    ] {
        watcher.vnode(vnode, "/t/dir/file");
        assert_eq!(watcher.told(), vec![one(kind, "/t/dir/file")]);
    }
    watcher.vnode(Vnode::Other, "/t/dir/file");
    assert_eq!(watcher.told(), vec![(EventKind::Other, none())]);
    watcher.vnode(Vnode::Attrib, "/t/dir/other");
    assert_eq!(watcher.told(), vec![]);
}

#[test]
fn directory_created_in_a_recursive_tree_is_watched() {
    let mut watcher = Watcher::new(tmpdir());
    watcher.watch("/t/dir", recursive()).expect("watch");
    watcher.disk.mkdir("/t/dir/sub");
    watcher.disk.create("/t/dir/sub/file");
    assert_eq!(
        watcher.told(),
        vec![
            one(CREATED_DIR, "/t/dir/sub"),
            one(EventKind::Modify(ModifyKind::Any), "/t/dir"),
        ]
    );
    assert_eq!(
        watcher.watch_handles(),
        vec!["/t", "/t/dir", "/t/dir/sub", "/t/dir/sub/file"]
    );
}

#[test]
fn entry_found_twice_in_a_batch_is_reported_once() {
    let mut watcher = Watcher::new(tmpdir());
    watcher.watch("/t/dir", recursive()).expect("watch");
    watcher.disk.create("/t/dir/entry");
    watcher.disk.tell("/t/dir", Vnode::Write);
    assert_eq!(watcher.told(), vec![one(CREATED, "/t/dir/entry")]);
}

#[test]
fn entry_gone_before_it_is_watched_is_reported_removed() {
    let mut watcher = Watcher::new(tmpdir());
    watcher.watch("/t/dir", recursive()).expect("watch");
    watcher.disk.create("/t/dir/entry");
    watcher.disk.events.clear();
    watcher.vnode(Vnode::Write, "/t/dir");
    watcher.disk.nodes.remove("/t/dir/entry");
    assert_eq!(
        watcher.told(),
        vec![one(CREATED, "/t/dir/entry"), one(REMOVED, "/t/dir/entry")]
    );
}

#[test]
fn directory_that_cannot_be_listed_is_reported() {
    let mut watcher = Watcher::new(tmpdir());
    watcher.watch("/t/dir", recursive()).expect("watch");
    watcher.disk.unreadable.insert("/t/dir".to_string());
    watcher.vnode(Vnode::Write, "/t/dir");
    assert_eq!(
        watcher.batch_ended(),
        vec![Report::Error(Error { kind: ErrorKind::Io(EACCES), paths: Vec::new() })]
    );
}

#[test]
fn refused_registration_is_reported() {
    let mut watcher = Watcher::new(tmpdir());
    watcher.watch("/t/dir", recursive()).expect("watch");
    watcher.disk.refused = true;
    assert_eq!(
        watcher.batch_ended(),
        vec![Report::Error(Error { kind: ErrorKind::Io(EACCES), paths: Vec::new() })]
    );
}

#[test]
fn missing_root_is_reported_once_it_appears() {
    let mut watcher = Watcher::new(tmpdir());
    watcher.watch("/t/dir/entry/nested", non_recursive()).expect("watch");
    assert_eq!(watcher.watch_handles(), none());
    assert_eq!(watcher.chain_handles(), vec!["/", "/t", "/t/dir"]);

    watcher.disk.mkdir("/t/dir/entry");
    assert_eq!(watcher.told(), vec![]);
    assert_eq!(watcher.watch_handles(), vec!["/t/dir/entry"]);

    watcher.disk.create("/t/dir/entry/nested");
    assert_eq!(watcher.told(), vec![one(CREATED, "/t/dir/entry/nested")]);
    assert_eq!(watcher.watch_handles(), vec!["/t/dir/entry", "/t/dir/entry/nested"]);
}

#[test]
fn root_created_before_the_registration_is_found() {
    let mut disk = tmpdir();
    disk.late = Some("/t/dir/entry".to_string());
    let mut watcher = Watcher::new(disk);
    watcher.watch("/t/dir/entry", non_recursive()).expect("watch");
    assert_eq!(watcher.told(), vec![one(CREATED, "/t/dir/entry")]);
    assert_eq!(watcher.watch_handles(), vec!["/t/dir", "/t/dir/entry"]);
}

#[test]
fn file_roots_follow_an_ancestor_that_moves_away_and_back() {
    let mut disk = tmpdir();
    disk.mkdir("/t/lib");
    disk.create("/t/lib/a.js");
    disk.mkdir("/t/lib/sub");
    disk.create("/t/lib/sub/b.js");
    let mut watcher = Watcher::new(disk);
    watcher.watch("/t/lib/a.js", non_recursive()).expect("watch");
    watcher.watch("/t/lib/sub/b.js", non_recursive()).expect("watch");

    watcher.disk.rename("/t/lib", "/t/moved");
    assert_eq!(
        watcher.told(),
        vec![
            one(EventKind::Remove(RemoveKind::File), "/t/lib/a.js"),
            one(EventKind::Remove(RemoveKind::File), "/t/lib/sub/b.js"),
        ]
    );
    assert_eq!(watcher.watch_handles(), none());
    assert_eq!(watcher.chain_handles(), vec!["/", "/t"]);
    assert_eq!(watcher.disk.open.len(), 2);

    watcher.disk.rename("/t/moved", "/t/lib");
    assert_eq!(
        watcher.told(),
        vec![one(CREATED, "/t/lib/a.js"), one(CREATED, "/t/lib/sub/b.js")]
    );
    assert_eq!(
        watcher.watch_handles(),
        vec!["/t/lib", "/t/lib/a.js", "/t/lib/sub", "/t/lib/sub/b.js"]
    );
}

#[test]
fn overwritten_file_is_removed_and_created() {
    let mut disk = tmpdir();
    disk.create("/t/dir/a");
    disk.create("/t/dir/b");
    let mut watcher = Watcher::new(disk);
    watcher.watch("/t/dir/a", non_recursive()).expect("watch");
    watcher.disk.rename("/t/dir/b", "/t/dir/a");
    assert_eq!(watcher.told(), vec![one(REMOVED, "/t/dir/a"), one(CREATED, "/t/dir/a")]);
    watcher.disk.tell("/t/dir/a", Vnode::Write);
    assert_eq!(watcher.told(), vec![one(WRITTEN, "/t/dir/a")]);
}

#[test]
fn renamed_entry_is_reported_under_both_names() {
    let mut disk = tmpdir();
    disk.create("/t/dir/a");
    let mut watcher = Watcher::new(disk);
    watcher.watch("/t/dir", recursive()).expect("watch");
    watcher.disk.rename("/t/dir/a", "/t/dir/b");
    assert_eq!(watcher.told(), vec![one(RENAMED, "/t/dir/a"), one(CREATED, "/t/dir/b")]);
    assert_eq!(watcher.watch_handles(), vec!["/t", "/t/dir", "/t/dir/b"]);
}

#[test]
fn no_track_file_is_forgotten_with_its_entity() {
    let mut disk = tmpdir();
    disk.create("/t/dir/file");
    disk.create("/t/dir/other");
    let mut watcher = Watcher::new(disk);
    for (path, vnode) in [("/t/dir/file", Vnode::Delete), ("/t/dir/other", Vnode::Revoke)] {
        watcher.watch(path, no_track()).expect("watch");
        assert_eq!(watcher.watch_handles(), vec![path]);
        watcher.vnode(vnode, path);
        assert_eq!(watcher.told(), vec![one(REMOVED, path)]);
        assert!(watcher.unwatch(path).is_err());
        assert_eq!(watcher.watch_handles(), none());
    }
}

#[test]
fn writes_to_a_directory_above_a_root_are_not_reported() {
    let mut disk = tmpdir();
    disk.create("/t/dir/file");
    let mut watcher = Watcher::new(disk);
    watcher.watch("/t/dir/file", non_recursive()).expect("watch");
    watcher.disk.create("/t/other");
    assert_eq!(watcher.told(), vec![]);
    assert_eq!(watcher.chain_handles(), vec!["/", "/t"]);
}

#[test]
fn failed_root_keeps_none_of_its_handles() {
    let mut disk = tmpdir();
    disk.mkdir("/t/dir/x");
    disk.looped.insert("/t/dir/x/loop".to_string());
    let mut watcher = Watcher::new(disk);
    let error = watcher.watch("/t/dir/x/loop", non_recursive()).expect_err("loop");
    assert_eq!(error.kind, ErrorKind::Io(ELOOP));
    assert!(watcher.disk.open.is_empty());
    assert_eq!(watcher.chain_handles(), none());
    assert_eq!(watcher.watch_handles(), none());
}

#[test]
fn failed_root_leaves_the_other_roots_alone() {
    let mut disk = tmpdir();
    disk.create("/t/dir/file");
    disk.mkdir("/t/dir/x");
    let mut watcher = Watcher::new(disk);
    watcher.watch("/t/dir/file", non_recursive()).expect("watch");
    watcher.disk.looped.insert("/t/dir/x/loop".to_string());
    watcher.watch("/t/dir/x/loop", non_recursive()).expect_err("loop");
    assert_eq!(watcher.watch_handles(), vec!["/t/dir", "/t/dir/file"]);
    assert_eq!(watcher.chain_handles(), vec!["/", "/t"]);
}

#[test]
fn walk_error_refuses_a_recursive_root() {
    let mut disk = tmpdir();
    disk.mkdir("/t/dir/sub");
    disk.unreadable.insert("/t/dir/sub".to_string());
    let mut watcher = Watcher::new(disk);
    let error = watcher.watch("/t/dir", recursive()).expect_err("unreadable");
    assert_eq!(error.kind, ErrorKind::Io(EACCES));
    assert_eq!(error.paths, vec![p("/t/dir/sub")]);
    assert!(watcher.disk.open.is_empty());

    let mut disk = tmpdir();
    disk.mkdir("/t/dir/sub");
    disk.circular.insert("/t/dir/sub".to_string());
    let mut watcher = Watcher::new(disk);
    let error = watcher.watch("/t/dir", recursive()).expect_err("loop");
    assert_eq!(error.kind, ErrorKind::Generic("loop at /t/dir/sub".to_string()));
    assert!(watcher.disk.open.is_empty());
}

#[test]
fn unwatch_of_a_path_never_watched_is_refused() {
    let mut watcher = Watcher::new(tmpdir());
    let error = watcher.unwatch("/t/dir").expect_err("unknown");
    assert_eq!(error.kind, ErrorKind::WatchNotFound);
    assert_eq!(error.paths, Vec::new());
}

#[test]
fn unwatch_of_a_recursive_root_keeps_a_tracked_root_below() {
    let mut disk = tmpdir();
    disk.mkdir("/t/dir/sub");
    disk.create("/t/dir/sub/file");
    let mut watcher = Watcher::new(disk);
    watcher.watch("/t/dir", recursive()).expect("watch");
    watcher.watch("/t/dir/sub/file", non_recursive()).expect("watch");
    watcher.unwatch("/t/dir").expect("unwatch");
    assert_eq!(watcher.watch_handles(), vec!["/t", "/t/dir/sub", "/t/dir/sub/file"]);
    assert_eq!(watcher.chain_handles(), vec!["/", "/t/dir"]);
    watcher.unwatch("/t/dir/sub/file").expect("unwatch");
    assert!(watcher.disk.open.is_empty());
}

#[test]
fn root_watched_again_is_watched_in_both_modes() {
    let mut disk = tmpdir();
    disk.mkdir("/t/dir/sub");
    disk.create("/t/dir/sub/file");
    let mut watcher = Watcher::new(disk);
    watcher.watch("/t/dir", non_recursive()).expect("watch");
    assert_eq!(watcher.watch_handles(), vec!["/t", "/t/dir", "/t/dir/sub"]);
    watcher.watch("/t/dir", recursive()).expect("watch again");
    assert_eq!(
        watcher.watch_handles(),
        vec!["/t", "/t/dir", "/t/dir/sub", "/t/dir/sub/file"]
    );
}

#[test]
fn many_roots_are_registered_at_once() {
    let mut disk = tmpdir();
    disk.create("/t/dir/a");
    disk.create("/t/dir/b");
    let mut watcher = Watcher::new(disk);
    watcher.events.add_watch_multiple(vec![
        Wanted { path: p("/t/dir/a"), mode: non_recursive() },
        Wanted { path: p("/t/dir/b"), mode: no_track() },
    ]);
    watcher.run().expect("watch");
    assert_eq!(watcher.watch_handles(), vec!["/t/dir", "/t/dir/a", "/t/dir/b"]);
    assert!(watcher.disk.open.values().all(|(_, registered)| *registered));

    watcher.events.add_watch_multiple(vec![
        Wanted { path: p("/t/dir/c"), mode: no_track() },
        Wanted { path: p("/t/dir"), mode: recursive() },
    ]);
    let error = watcher.run().expect_err("missing");
    assert_eq!(error.kind, ErrorKind::PathNotFound);
}

#[test]
fn all_of_a_recursive_root_and_the_entries_of_another_are_watched() {
    let mut disk = tmpdir();
    disk.mkdir("/t/dir/a");
    disk.create("/t/dir/a/file");
    disk.mkdir("/t/other");
    disk.mkdir("/t/other/a");
    disk.create("/t/other/a/file");
    disk.create("/t/other/file");
    let mut watcher = Watcher::new(disk);
    watcher
        .watch("/t/dir", mode(RecursiveMode::Recursive, TargetMode::NoTrack))
        .expect("watch");
    assert_eq!(watcher.watch_handles(), vec!["/t/dir", "/t/dir/a", "/t/dir/a/file"]);
    watcher.watch("/t/other", no_track()).expect("watch");
    assert_eq!(
        watcher.watch_handles(),
        vec![
            "/t/dir",
            "/t/dir/a",
            "/t/dir/a/file",
            "/t/other",
            "/t/other/a",
            "/t/other/file",
        ]
    );
    watcher.unwatch("/t/dir").expect("unwatch");
    assert_eq!(
        watcher.watch_handles(),
        vec!["/t/other", "/t/other/a", "/t/other/file"]
    );
    watcher.unwatch("/t/other").expect("unwatch");
    assert!(watcher.disk.open.is_empty());
}

#[test]
fn roots_below_each_ancestor_that_went_in_a_batch_are_reported() {
    let mut disk = tmpdir();
    disk.mkdir("/t/lib");
    disk.create("/t/lib/a.js");
    disk.mkdir("/t/src");
    disk.create("/t/src/b.js");
    let mut watcher = Watcher::new(disk);
    watcher.watch("/t/lib/a.js", non_recursive()).expect("watch");
    watcher.watch("/t/src/b.js", non_recursive()).expect("watch");

    watcher.disk.rename("/t/lib", "/t/moved");
    watcher.disk.rename("/t/src", "/t/moved-too");
    assert_eq!(
        watcher.told(),
        vec![
            one(EventKind::Remove(RemoveKind::File), "/t/lib/a.js"),
            one(EventKind::Remove(RemoveKind::File), "/t/src/b.js"),
        ]
    );
}
