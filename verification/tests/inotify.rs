use inotify::{EventMask, WatchMask};
use notify::config::{RecursiveMode, TargetMode, WatchMode};
use notify::error::{Error, ErrorKind};
use notify::event::{
    AccessKind, AccessMode, CreateKind, DataChange, EventKind, Flag, ModifyKind, RemoveKind,
    RenameMode,
};
use notify::inotify::event_loop::EventLoop;
use notify::inotify::mask;
use notify::inotify::mask::{
    CLOSE_WRITE, CREATE, DELETE, DELETE_SELF, ENTRY_MASK, FULL_MASK, IGNORED, ISDIR, MASK_ADD,
    MODIFY, MOVED_FROM, MOVED_TO, MOVE_SELF, Q_OVERFLOW, SELF_MASK, UNMOUNT,
};
use notify::inotify::reading::{common_prefix_len, FileStat, InotifyEvent, Reading};
use notify::inotify::table::Inode;
use notify::inotify::task::{Answer, Request};
use notify::path::PathBuf;
use notify::report::Report;
use std::collections::{BTreeMap, BTreeSet};

const ENOENT: i32 = 2;
const EACCES: i32 = 13;
const ENOSPC: i32 = 28;

fn p(text: &str) -> PathBuf {
    PathBuf::parse(text.as_bytes())
}

fn text(path: &PathBuf) -> String {
    String::from_utf8(path.to_bytes()).expect("text")
}

fn mode(recursive_mode: RecursiveMode, target_mode: TargetMode) -> WatchMode {
    WatchMode { recursive_mode, target_mode }
}

fn recursive() -> WatchMode {
    mode(RecursiveMode::Recursive, TargetMode::TrackPath)
}

fn non_recursive() -> WatchMode {
    mode(RecursiveMode::NonRecursive, TargetMode::TrackPath)
}

fn no_track() -> WatchMode {
    mode(RecursiveMode::NonRecursive, TargetMode::NoTrack)
}

fn split(path: &str) -> (String, String) {
    let at = path.rfind('/').expect("parent");
    let parent = if at == 0 { "/".to_string() } else { path[..at].to_string() };
    (parent, path[at + 1..].to_string())
}

/// A small file system with the watches of a kernel.
struct Disk {
    /// The inode behind each path, and whether it is a directory. A path may share its inode.
    nodes: BTreeMap<String, (u64, bool)>,
    /// The descriptor of each watched inode, and what it is watched for.
    watches: BTreeMap<u64, (i32, u32)>,
    events: Vec<InotifyEvent>,
    unreadable: BTreeSet<String>,
    next_ino: u64,
    next_w: i32,
    next_cookie: u32,
    limit: Option<usize>,
    walk: Vec<PathBuf>,
}

impl Disk {
    fn new() -> Disk {
        let mut nodes = BTreeMap::new();
        nodes.insert("/".to_string(), (1, true));
        Disk {
            nodes,
            watches: BTreeMap::new(),
            events: Vec::new(),
            unreadable: BTreeSet::new(),
            next_ino: 2,
            next_w: 1,
            next_cookie: 1,
            limit: None,
            walk: Vec::new(),
        }
    }

    fn emit(&mut self, ino: u64, bits: u32, cookie: u32, name: Option<&str>) {
        if let Some((w, asked)) = self.watches.get(&ino) {
            if bits & !ISDIR & (asked | IGNORED | UNMOUNT) != 0 {
                self.events.push(InotifyEvent {
                    w: *w,
                    mask: bits,
                    cookie,
                    name: name.map(|name| name.as_bytes().to_vec()),
                });
            }
        }
    }

    fn emit_at(&mut self, path: &str, bits: u32, cookie: u32) {
        let (parent, name) = split(path);
        if let Some((ino, _)) = self.nodes.get(&parent).copied() {
            self.emit(ino, bits, cookie, Some(&name));
        }
    }

    fn add(&mut self, path: &str, is_dir: bool) {
        let ino = self.next_ino;
        self.next_ino += 1;
        self.nodes.insert(path.to_string(), (ino, is_dir));
        self.emit_at(path, CREATE | if is_dir { ISDIR } else { 0 }, 0);
    }

    fn mkdir(&mut self, path: &str) {
        self.add(path, true);
    }

    fn create(&mut self, path: &str) {
        self.add(path, false);
    }

    fn link(&mut self, from: &str, to: &str) {
        let node = self.nodes[from];
        self.nodes.insert(to.to_string(), node);
    }

    fn write(&mut self, path: &str) {
        let (ino, _) = self.nodes[path];
        for bits in [MODIFY, CLOSE_WRITE] {
            self.emit_at(path, bits, 0);
            self.emit(ino, bits, 0, None);
        }
    }

    fn remove(&mut self, path: &str) {
        let below: Vec<String> = self
            .nodes
            .keys()
            .filter(|at| at.starts_with(&format!("{path}/")))
            .cloned()
            .collect();
        for at in below.iter().rev() {
            self.remove_one(at);
        }
        self.remove_one(path);
    }

    fn remove_one(&mut self, path: &str) {
        let (ino, is_dir) = self.nodes.remove(path).expect("node");
        let dir = if is_dir { ISDIR } else { 0 };
        self.emit(ino, DELETE_SELF, 0, None);
        self.emit_at(path, DELETE | dir, 0);
        if !self.nodes.values().any(|(other, _)| *other == ino) {
            self.emit(ino, IGNORED, 0, None);
            self.watches.remove(&ino);
        }
    }

    fn rename(&mut self, from: &str, to: &str) {
        let cookie = self.next_cookie;
        self.next_cookie += 1;
        let (ino, is_dir) = self.nodes[from];
        let dir = if is_dir { ISDIR } else { 0 };
        self.emit_at(from, MOVED_FROM | dir, cookie);
        let moved: Vec<String> = self
            .nodes
            .keys()
            .filter(|at| *at == from || at.starts_with(&format!("{from}/")))
            .cloned()
            .collect();
        for at in moved {
            let node = self.nodes.remove(&at).expect("node");
            self.nodes.insert(format!("{to}{}", &at[from.len()..]), node);
        }
        self.emit_at(to, MOVED_TO | dir, cookie);
        self.emit(ino, MOVE_SELF, 0, None);
    }

    fn stat(&self, path: &PathBuf) -> Result<FileStat, i32> {
        let path = text(path);
        if self.unreadable.iter().any(|at| path.starts_with(&format!("{at}/"))) {
            return Err(EACCES);
        }
        match self.nodes.get(&path) {
            Some((ino, is_dir)) => Ok(FileStat {
                is_dir: *is_dir,
                is_file: !is_dir,
                nlink: self.nodes.values().filter(|(other, _)| other == ino).count() as u64,
                inode: Inode { dev: 1, ino: *ino },
            }),
            None => Err(ENOENT),
        }
    }

    fn watch(&mut self, path: &PathBuf, bits: u32) -> Result<i32, i32> {
        let path = text(path);
        if self.unreadable.contains(&path) {
            return Err(EACCES);
        }
        let (ino, _) = *self.nodes.get(&path).ok_or(ENOENT)?;
        let asked = bits & !MASK_ADD;
        if let Some((w, known)) = self.watches.get_mut(&ino) {
            *known = if bits & MASK_ADD != 0 { *known | asked } else { asked };
            return Ok(*w);
        }
        if self.limit.is_some_and(|limit| self.watches.len() >= limit) {
            return Err(ENOSPC);
        }
        let w = self.next_w;
        self.next_w += 1;
        self.watches.insert(ino, (w, asked));
        Ok(w)
    }

    fn unwatch(&mut self, w: i32) -> Result<(), i32> {
        let known = self.watches.len();
        self.watches.retain(|_, (other, _)| *other != w);
        if self.watches.len() < known { Ok(()) } else { Err(22) }
    }

    fn answer(&mut self, request: Request<PathBuf>) -> Answer<PathBuf> {
        match request {
            Request::Idle | Request::Again => Answer::Go,
            Request::Stat(path) => Answer::Stat(self.stat(&path)),
            Request::Add(path, bits) => Answer::Added(Some(self.watch(&path, bits))),
            Request::Remove(w) => Answer::Removed(self.unwatch(w)),
            Request::Walk(path) => {
                let top = text(&path);
                let dirs = self
                    .nodes
                    .iter()
                    .filter(|(at, (_, is_dir))| {
                        *is_dir && (**at == top || at.starts_with(&format!("{top}/")))
                    })
                    .map(|(at, _)| p(at));
                self.walk = dirs.collect();
                self.walk.reverse();
                Answer::Entry(self.walk.pop())
            }
            Request::Next => Answer::Entry(self.walk.pop()),
        }
    }
}

/// An event loop on a disk.
struct Watcher {
    disk: Disk,
    events: EventLoop,
}

type Told = Vec<(EventKind, Vec<String>)>;

impl Watcher {
    fn new(disk: Disk) -> Watcher {
        Watcher { disk, events: EventLoop::new() }
    }

    fn run(&mut self) -> Result<(), Error> {
        let mut answer = Answer::Go;
        loop {
            let request = self.events.step(answer);
            if request == Request::Idle {
                return self.events.take_result();
            }
            answer = self.disk.answer(request);
        }
    }

    fn watch(&mut self, path: &str, mode: WatchMode) -> Result<(), Error> {
        self.events.add_watch(p(path), mode);
        self.run()
    }

    fn unwatch(&mut self, path: &str) -> Result<(), Error> {
        self.events.remove_watch(p(path));
        self.run()
    }

    /// Handles what the kernel has to tell, and returns what is reported.
    fn reports(&mut self) -> Vec<Report> {
        for event in std::mem::take(&mut self.disk.events) {
            let spellings = self.events.reading.spellings_of(&event);
            let stats = spellings
                .iter()
                .map(|spelling| {
                    if Reading::wants_stat(spelling) {
                        self.disk.stat(&spelling.path).ok()
                    } else {
                        None
                    }
                })
                .collect();
            self.events.handle_inotify_event(&event, &stats);
        }
        self.events.process_changes();
        assert!(self.run().is_ok());
        self.events.take_reports()
    }

    fn told(&mut self) -> Told {
        self.reports()
            .into_iter()
            .map(|report| match report {
                Report::Event(event) => (event.kind, event.paths.iter().map(text).collect()),
                Report::Error(error) => panic!("{error:?}"),
            })
            .collect()
    }

    fn handles(&self, chain: bool) -> Vec<String> {
        let table = &self.events.reading.table;
        table
            .handles_below(&PathBuf::new())
            .iter()
            .filter(|path| {
                let handle = table.handle_at(path).expect("handle");
                mask::contains(handle.mask, FULL_MASK) != chain
            })
            .map(text)
            .collect()
    }

    fn watch_handles(&self) -> Vec<String> {
        self.handles(false)
    }

    fn chain_handles(&self) -> Vec<String> {
        self.handles(true)
    }
}

fn one(kind: EventKind, path: &str) -> (EventKind, Vec<String>) {
    (kind, vec![path.to_string()])
}

const CREATED: EventKind = EventKind::Create(CreateKind::File);
const CREATED_DIR: EventKind = EventKind::Create(CreateKind::Folder);
const REMOVED: EventKind = EventKind::Remove(RemoveKind::File);
const REMOVED_DIR: EventKind = EventKind::Remove(RemoveKind::Folder);
const WRITTEN: EventKind = EventKind::Modify(ModifyKind::Data(DataChange::Any));
const CLOSED: EventKind = EventKind::Access(AccessKind::Close(AccessMode::Write));

fn renamed(mode: RenameMode) -> EventKind {
    EventKind::Modify(ModifyKind::Name(mode))
}

fn tmpdir() -> Disk {
    let mut disk = Disk::new();
    disk.mkdir("/t");
    disk.mkdir("/t/dir");
    disk
}

#[test]
fn masks_are_those_of_the_kernel() {
    assert_eq!(
        ENTRY_MASK,
        (WatchMask::CREATE | WatchMask::DELETE | WatchMask::MOVED_FROM | WatchMask::MOVED_TO).bits()
    );
    assert_eq!(
        FULL_MASK & !ENTRY_MASK,
        (WatchMask::ATTRIB | WatchMask::OPEN | WatchMask::CLOSE_WRITE | WatchMask::MODIFY).bits()
    );
    assert_eq!(SELF_MASK, (WatchMask::DELETE_SELF | WatchMask::MOVE_SELF).bits());
    assert_eq!(MASK_ADD, WatchMask::MASK_ADD.bits());
    assert_eq!(mask::ALL_EVENTS, EventMask::all().bits());
    assert_eq!(IGNORED, EventMask::IGNORED.bits());
    assert_eq!(Q_OVERFLOW, EventMask::Q_OVERFLOW.bits());
    assert_eq!(UNMOUNT, EventMask::UNMOUNT.bits());
    assert_eq!(ISDIR, EventMask::ISDIR.bits());
    assert_eq!(mask::CLOSE_NOWRITE, EventMask::CLOSE_NOWRITE.bits());
    assert_eq!(mask::ACCESS, EventMask::ACCESS.bits());
}

#[test]
fn event_is_told_as_far_as_it_was_asked_for() {
    assert_eq!(mask::seen(CREATE | ISDIR, ENTRY_MASK), CREATE | ISDIR);
    assert_eq!(mask::seen(MODIFY, ENTRY_MASK), 0);
    assert_eq!(mask::seen(UNMOUNT, ENTRY_MASK), UNMOUNT);
}

#[test]
fn native_error_type_on_missing_path() {
    let mut watcher = Watcher::new(Disk::new());
    let result = watcher.watch("/some/non/existant/path", no_track());
    assert!(matches!(result, Err(Error { paths: _, kind: ErrorKind::PathNotFound })));

    // a tracked path is waited for, however deep the missing part
    watcher.watch("/some/non/existant/path", non_recursive()).unwrap();
}

#[test]
fn inotify_create_self_file_no_track() {
    let mut watcher = Watcher::new(tmpdir());
    let result = watcher.watch("/t/dir/entry", no_track());
    assert!(matches!(result, Err(Error { paths: _, kind: ErrorKind::PathNotFound })));
}

#[test]
fn track_path_watches_a_root_without_a_parent() {
    let mut watcher = Watcher::new(tmpdir());

    watcher.watch("/", non_recursive()).expect("watch");
    assert_eq!(watcher.watch_handles(), vec!["/"]);

    watcher.unwatch("/").expect("unwatch");
    assert_eq!(watcher.watch_handles(), Vec::<String>::new());
}

#[test]
fn file_created_in_a_watched_directory() {
    let mut watcher = Watcher::new(tmpdir());
    watcher.watch("/t/dir", recursive()).expect("watch");
    assert_eq!(watcher.watch_handles(), vec!["/t", "/t/dir"]);
    assert_eq!(watcher.chain_handles(), vec!["/"]);

    watcher.disk.create("/t/dir/entry");
    assert_eq!(watcher.told(), vec![one(CREATED, "/t/dir/entry")]);
    assert_eq!(watcher.watch_handles(), vec!["/t", "/t/dir"]);

    watcher.disk.write("/t/dir/entry");
    assert_eq!(
        watcher.told(),
        vec![one(WRITTEN, "/t/dir/entry"), one(CLOSED, "/t/dir/entry")]
    );

    watcher.disk.remove("/t/dir/entry");
    assert_eq!(watcher.told(), vec![one(REMOVED, "/t/dir/entry")]);
}

#[test]
fn directory_created_in_a_recursive_watch_is_watched() {
    let mut watcher = Watcher::new(tmpdir());
    watcher.watch("/t/dir", recursive()).expect("watch");
    watcher.disk.mkdir("/t/dir/sub");
    assert_eq!(watcher.told(), vec![one(CREATED_DIR, "/t/dir/sub")]);
    assert_eq!(watcher.watch_handles(), vec!["/t", "/t/dir", "/t/dir/sub"]);
    watcher.disk.create("/t/dir/sub/file");
    assert_eq!(watcher.told(), vec![one(CREATED, "/t/dir/sub/file")]);
    watcher.disk.remove("/t/dir/sub");
    assert_eq!(
        watcher.told(),
        vec![one(REMOVED, "/t/dir/sub/file"), one(REMOVED_DIR, "/t/dir/sub")]
    );
    assert_eq!(watcher.watch_handles(), vec!["/t", "/t/dir"]);
    assert_eq!(watcher.disk.watches.len(), 3);
}

#[test]
fn missing_root_appears_with_its_parent() {
    let mut watcher = Watcher::new(tmpdir());
    watcher.watch("/t/dir/entry/nested", non_recursive()).expect("watch");
    assert_eq!(watcher.watch_handles(), Vec::<String>::new());
    assert_eq!(watcher.chain_handles(), vec!["/", "/t", "/t/dir"]);

    watcher.disk.mkdir("/t/dir/entry");
    assert_eq!(watcher.told(), vec![]);
    assert_eq!(watcher.watch_handles(), vec!["/t/dir/entry"]);

    watcher.disk.create("/t/dir/entry/nested");
    assert_eq!(watcher.told(), vec![one(CREATED, "/t/dir/entry/nested")]);
}

#[test]
fn root_there_with_its_parent_is_reported() {
    let mut watcher = Watcher::new(tmpdir());
    watcher.watch("/t/dir/entry/nested", non_recursive()).expect("watch");
    watcher.disk.mkdir("/t/dir/entry");
    watcher.disk.create("/t/dir/entry/nested");
    assert_eq!(watcher.told(), vec![one(CREATED, "/t/dir/entry/nested")]);
    assert_eq!(watcher.watch_handles(), vec!["/t/dir/entry"]);
}

#[test]
fn roots_follow_an_ancestor_that_moves_away_and_back() {
    let mut disk = tmpdir();
    disk.mkdir("/t/lib");
    disk.mkdir("/t/lib/sub");
    disk.create("/t/lib/a.js");
    disk.create("/t/lib/sub/b.js");
    let mut watcher = Watcher::new(disk);
    watcher.watch("/t/lib/a.js", non_recursive()).expect("watch");
    watcher.watch("/t/lib/sub/b.js", non_recursive()).expect("watch");
    assert_eq!(watcher.watch_handles(), vec!["/t/lib", "/t/lib/sub"]);
    assert_eq!(watcher.chain_handles(), vec!["/", "/t"]);

    watcher.disk.rename("/t/lib", "/t/moved");
    assert_eq!(
        watcher.told(),
        vec![one(REMOVED, "/t/lib/a.js"), one(REMOVED, "/t/lib/sub/b.js")]
    );
    assert_eq!(watcher.watch_handles(), Vec::<String>::new());
    assert_eq!(watcher.disk.watches.len(), 2);

    watcher.disk.rename("/t/moved", "/t/lib");
    assert_eq!(
        watcher.told(),
        vec![one(CREATED, "/t/lib/a.js"), one(CREATED, "/t/lib/sub/b.js")]
    );
    assert_eq!(watcher.watch_handles(), vec!["/t/lib", "/t/lib/sub"]);

    watcher.disk.write("/t/lib/a.js");
    assert_eq!(
        watcher.told(),
        vec![one(WRITTEN, "/t/lib/a.js"), one(CLOSED, "/t/lib/a.js")]
    );
}

#[test]
fn unwatch_drops_what_only_the_root_needed() {
    let mut disk = tmpdir();
    disk.mkdir("/t/dir/sub");
    disk.create("/t/dir/sub/file");
    let mut watcher = Watcher::new(disk);
    watcher.watch("/t/dir", recursive()).expect("watch");
    watcher.watch("/t/dir/sub/file", non_recursive()).expect("watch");
    watcher.unwatch("/t/dir").expect("unwatch");
    assert_eq!(watcher.watch_handles(), vec!["/t/dir/sub"]);
    assert_eq!(watcher.chain_handles(), vec!["/", "/t", "/t/dir"]);
    watcher.unwatch("/t/dir/sub/file").expect("unwatch");
    assert_eq!(watcher.watch_handles(), Vec::<String>::new());
    assert_eq!(watcher.chain_handles(), Vec::<String>::new());
    assert!(watcher.disk.watches.is_empty());
}

#[test]
fn unwatch_of_an_unknown_path_is_refused() {
    let mut watcher = Watcher::new(tmpdir());
    let error = watcher.unwatch("/t/dir").expect_err("unknown");
    assert_eq!(error.kind, ErrorKind::WatchNotFound);
    assert_eq!(error.paths, vec![p("/t/dir")]);
}

#[test]
fn rename_is_reported_with_both_ends() {
    let mut disk = tmpdir();
    disk.create("/t/dir/a");
    let mut watcher = Watcher::new(disk);
    watcher.watch("/t/dir", recursive()).expect("watch");
    watcher.disk.rename("/t/dir/a", "/t/dir/b");
    let reports = watcher.reports();
    let trackers: Vec<Option<usize>> = reports
        .iter()
        .map(|report| match report {
            Report::Event(event) => event.attrs.tracker,
            Report::Error(error) => panic!("{error:?}"),
        })
        .collect();
    assert_eq!(trackers, vec![Some(1), Some(1), Some(1)]);
    watcher.disk.rename("/t/dir/b", "/t/dir/c");
    assert_eq!(
        watcher.told(),
        vec![
            one(renamed(RenameMode::From), "/t/dir/b"),
            one(renamed(RenameMode::To), "/t/dir/c"),
            (
                renamed(RenameMode::Both),
                vec!["/t/dir/b".to_string(), "/t/dir/c".to_string()]
            ),
        ]
    );
}

#[test]
fn full_table_refuses_a_root_and_keeps_none_of_its_handles() {
    let mut disk = tmpdir();
    disk.mkdir("/t/dir/one");
    disk.mkdir("/t/dir/two");
    disk.limit = Some(4);
    let mut watcher = Watcher::new(disk);
    let error = watcher.watch("/t/dir", recursive()).expect_err("full");
    assert_eq!(error.kind, ErrorKind::MaxFilesWatch);
    assert_eq!(error.paths, vec![p("/t/dir/two")]);
    assert!(watcher.disk.watches.is_empty());
    assert_eq!(watcher.watch_handles(), Vec::<String>::new());
    assert!(watcher.unwatch("/t/dir").is_err());

    watcher.disk.limit = None;
    watcher.watch("/t/dir", recursive()).expect("watch");
    assert_eq!(watcher.disk.watches.len(), 5);
}

#[test]
fn full_table_is_reported_for_a_new_entry() {
    let mut watcher = Watcher::new(tmpdir());
    watcher.watch("/t/dir", recursive()).expect("watch");
    watcher.disk.limit = Some(3);
    watcher.disk.mkdir("/t/dir/one");
    watcher.disk.mkdir("/t/dir/two");
    let reports = watcher.reports();
    let errors: Vec<&Error> = reports
        .iter()
        .filter_map(|report| match report {
            Report::Error(error) => Some(error),
            Report::Event(_) => None,
        })
        .collect();
    assert_eq!(errors.len(), 1);
    assert_eq!(errors[0].kind, ErrorKind::MaxFilesWatch);
    assert_eq!(errors[0].paths, vec![p("/t/dir/one")]);
}

#[test]
fn root_that_cannot_be_read_is_refused_with_its_path() {
    let mut disk = tmpdir();
    disk.create("/t/dir/file");
    disk.unreadable.insert("/t/dir".to_string());
    let mut watcher = Watcher::new(disk);
    let error = watcher.watch("/t/dir/file", non_recursive()).expect_err("unreadable");
    assert_eq!(error.kind, ErrorKind::Io(EACCES));
    assert_eq!(error.paths, vec![p("/t/dir")]);
    assert!(watcher.disk.watches.is_empty());
    let error = watcher.watch("/t/dir/file", no_track()).expect_err("unreadable");
    assert_eq!(error.kind, ErrorKind::Io(EACCES));
}

#[test]
fn no_track_root_ends_with_its_entity() {
    let mut disk = tmpdir();
    disk.create("/t/dir/file");
    let mut watcher = Watcher::new(disk);
    watcher.watch("/t/dir/file", no_track()).expect("watch");
    assert_eq!(watcher.watch_handles(), vec!["/t/dir/file"]);
    watcher.disk.remove("/t/dir/file");
    assert_eq!(watcher.told(), vec![one(REMOVED, "/t/dir/file")]);
    assert!(watcher.unwatch("/t/dir/file").is_err());
    assert!(watcher.disk.watches.is_empty());
}

#[test]
fn watched_again_is_watched_in_both_modes() {
    let mut disk = tmpdir();
    disk.mkdir("/t/dir/sub");
    let mut watcher = Watcher::new(disk);
    watcher.watch("/t/dir", no_track()).expect("watch");
    assert_eq!(watcher.watch_handles(), vec!["/t/dir"]);
    watcher.watch("/t/dir", recursive()).expect("watch again");
    assert_eq!(watcher.watch_handles(), vec!["/t", "/t/dir", "/t/dir/sub"]);
    assert_eq!(watcher.chain_handles(), vec!["/"]);
    let root = watcher.events.reading.table.root(&p("/t/dir")).expect("root");
    assert_eq!(root.mode, recursive());
}

#[test]
fn spellings_of_one_directory_share_a_descriptor() {
    let mut disk = tmpdir();
    disk.mkdir("/t/real");
    disk.link("/t/real", "/t/alias");
    let mut watcher = Watcher::new(disk);
    watcher.watch("/t/real", no_track()).expect("watch");
    watcher.watch("/t/alias", no_track()).expect("watch");
    assert_eq!(watcher.disk.watches.len(), 1);
    assert_eq!(watcher.watch_handles(), vec!["/t/alias", "/t/real"]);

    watcher.disk.create("/t/real/file");
    watcher.disk.link("/t/real/file", "/t/alias/file");
    assert_eq!(
        watcher.told(),
        vec![one(CREATED, "/t/real/file"), one(CREATED, "/t/alias/file")]
    );

    watcher.unwatch("/t/real").expect("unwatch");
    assert_eq!(
        watcher.watch_handles(),
        vec!["/t/alias", "/t/alias/file", "/t/real/file"]
    );
    assert_eq!(watcher.disk.watches.len(), 2);
}

#[test]
fn overflow_asks_for_a_rescan() {
    let mut watcher = Watcher::new(tmpdir());
    let event = InotifyEvent { w: -1, mask: Q_OVERFLOW, cookie: 0, name: None };
    watcher.disk.events.push(event);
    let reports = watcher.reports();
    assert_eq!(reports.len(), 1);
    match &reports[0] {
        Report::Event(event) => {
            assert_eq!(event.kind, EventKind::Other);
            assert_eq!(event.attrs.flag, Some(Flag::Rescan));
        }
        Report::Error(error) => panic!("{error:?}"),
    }
}

#[test]
fn failed_read_is_reported() {
    let mut watcher = Watcher::new(tmpdir());
    watcher.events.read_failed(5);
    assert_eq!(
        watcher.events.take_reports(),
        vec![Report::Error(Error { kind: ErrorKind::Io(5), paths: Vec::new() })]
    );
    assert!(watcher.events.take_reports().is_empty());
}

#[test]
fn shutdown_removes_every_watch() {
    let mut disk = tmpdir();
    disk.mkdir("/t/dir/sub");
    let mut watcher = Watcher::new(disk);
    watcher.watch("/t/dir", recursive()).expect("watch");
    assert_eq!(watcher.disk.watches.len(), 4);
    watcher.events.remove_all_watches();
    watcher.run().expect("shutdown");
    assert!(watcher.disk.watches.is_empty());
    assert_eq!(watcher.watch_handles(), Vec::<String>::new());
}

#[test]
fn shutdown_stops_at_a_watch_that_cannot_be_removed() {
    let mut watcher = Watcher::new(tmpdir());
    watcher.watch("/t/dir", no_track()).expect("watch");
    watcher.disk.watches.clear();
    watcher.events.remove_all_watches();
    let error = watcher.run().expect_err("gone");
    assert_eq!(error.kind, ErrorKind::Io(22));
    assert_eq!(error.paths, vec![p("/t/dir")]);
}

#[test]
fn shared_components_are_counted_from_the_start() {
    assert_eq!(common_prefix_len(&p("/a/b/c"), &p("/a/b/d")), 3);
    assert_eq!(common_prefix_len(&p("/a"), &p("b")), 0);
    assert_eq!(common_prefix_len(&p("a/b"), &p("a/b/c")), 2);
}

#[test]
fn every_directory_of_a_recursive_root_is_watched() {
    let mut disk = tmpdir();
    disk.mkdir("/t/dir/a");
    disk.mkdir("/t/dir/a/b");
    disk.create("/t/dir/a/b/file");
    disk.mkdir("/t/dir/c");
    let mut watcher = Watcher::new(disk);
    watcher
        .watch("/t/dir", mode(RecursiveMode::Recursive, TargetMode::NoTrack))
        .expect("watch");
    assert_eq!(
        watcher.watch_handles(),
        vec!["/t/dir", "/t/dir/a", "/t/dir/a/b", "/t/dir/c"]
    );
    watcher.disk.write("/t/dir/a/b/file");
    assert_eq!(
        watcher.told(),
        vec![one(WRITTEN, "/t/dir/a/b/file"), one(CLOSED, "/t/dir/a/b/file")]
    );
    watcher.unwatch("/t/dir").expect("unwatch");
    assert!(watcher.disk.watches.is_empty());
}

#[test]
fn tree_that_appears_is_watched_with_all_its_directories() {
    let mut watcher = Watcher::new(tmpdir());
    watcher.watch("/t/dir", recursive()).expect("watch");
    watcher.disk.mkdir("/t/dir/a");
    watcher.disk.mkdir("/t/dir/a/b");
    watcher.disk.mkdir("/t/dir/a/b/c");
    watcher.told();
    assert_eq!(
        watcher.watch_handles(),
        vec!["/t", "/t/dir", "/t/dir/a", "/t/dir/a/b", "/t/dir/a/b/c"]
    );
}

#[test]
fn roots_below_each_ancestor_that_went_in_a_read_are_reported() {
    let mut disk = tmpdir();
    disk.mkdir("/t/lib");
    disk.create("/t/lib/a.js");
    disk.mkdir("/t/src");
    disk.create("/t/src/b.js");
    let mut watcher = Watcher::new(disk);
    watcher.watch("/t/lib/a.js", non_recursive()).expect("watch");
    watcher.watch("/t/src/b.js", non_recursive()).expect("watch");

    watcher.disk.rename("/t/lib", "/t/moved");
    watcher.disk.rename("/t/src", "/t/moved-too");
    assert_eq!(
        watcher.told(),
        vec![one(REMOVED, "/t/lib/a.js"), one(REMOVED, "/t/src/b.js")]
    );
}
