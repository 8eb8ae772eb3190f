//! What the events of one read say, and what they ask for once they are all handled.

use crate::event;
use crate::event::{
    AccessKind, AccessMode, CreateKind, DataChange, Event, EventKind, EventView, Flag, MetadataKind,
    ModifyKind, RemoveKind, RenameMode,
};
use crate::inotify::mask;
use crate::inotify::mask::{
    ATTRIB, CLOSE_NOWRITE, CLOSE_WRITE, CREATE, DELETE, DELETE_SELF, IGNORED, ISDIR, MODIFY,
    MOVED_FROM, MOVED_TO, MOVE_SELF, OPEN, Q_OVERFLOW, UNMOUNT,
};
use crate::inotify::table::{Inode, Table, TableView};
use crate::path;
use crate::path::PathBuf;
use crate::report;
use crate::report::{Report, ReportView};
use crate::root::RootState;
use vstd::prelude::*;

verus! {

/// What the disk says of a path that is there.
#[derive(Clone, Copy, Debug, PartialEq, Eq, Structural)]
pub struct FileStat {
    pub is_dir: bool,
    pub is_file: bool,
    pub nlink: u64,
    pub inode: Inode,
}

impl FileStat {
    pub open spec fn is_single_link(self) -> bool {
        self.is_file && self.nlink == 1
    }

    pub fn is_file_without_hardlinks(&self) -> (r: bool)
        ensures
            r == self.is_single_link(),
    {
        self.is_file && self.nlink == 1
    }
}

/// A path to watch once the events of a read are handled: whether it is watched recursively, and
/// whether it is a file without hard links, which its parent reports.
#[derive(Debug)]
pub struct AddWatch {
    pub path: PathBuf,
    pub is_recursive: bool,
    pub is_file_without_hardlinks: bool,
}

pub struct AddView {
    pub path: Seq<Seq<u8>>,
    pub is_recursive: bool,
    pub is_file_without_hardlinks: bool,
}

impl View for AddWatch {
    type V = AddView;

    open spec fn view(&self) -> AddView {
        AddView {
            path: self.path@,
            is_recursive: self.is_recursive,
            is_file_without_hardlinks: self.is_file_without_hardlinks,
        }
    }
}

pub open spec fn add_views(list: Seq<AddWatch>) -> Seq<AddView> {
    list.map_values(|a: AddWatch| a@)
}

pub open spec fn entry_views(list: Seq<Vec<AddWatch>>) -> Seq<Seq<AddView>> {
    list.map_values(|l: Vec<AddWatch>| add_views(l@))
}

/// An entry that was queued: the descriptor of its directory, its name, and where it is.
pub struct QueuedView {
    pub w: i32,
    pub name: Option<Seq<u8>>,
    pub at: nat,
}

/// Where the entry `name` of the directory `w` was queued last.
pub open spec fn queued_at(queued: Seq<QueuedView>, w: i32, name: Option<Seq<u8>>) -> Option<nat>
    decreases queued.len(),
{
    if queued.len() == 0 {
        None
    } else if queued.last().w == w && queued.last().name == name {
        Some(queued.last().at)
    } else {
        queued_at(queued.drop_last(), w, name)
    }
}

/// What the events of one read ask for, once they are all handled.
#[verifier::ext_equal]
pub struct ChangesView {
    /// The entries to watch, each under the spellings that watch it.
    pub add_watches: Seq<Seq<AddView>>,
    /// The spellings under which the entry of the event being handled is to be watched.
    pub entry_watches: Seq<AddView>,
    /// Where the entries of `add_watches` are: an entry that several events of the read are about
    /// is watched once.
    pub queued: Seq<QueuedView>,
    pub remove_watches: Seq<Seq<Seq<u8>>>,
    pub remove_watches_no_syscall: Seq<Seq<Seq<u8>>>,
    pub vanished: Seq<Seq<Seq<u8>>>,
    pub appeared: Seq<Seq<Seq<u8>>>,
    pub ignored: Seq<i32>,
}

impl ChangesView {
    pub open spec fn new() -> ChangesView {
        ChangesView {
            add_watches: Seq::empty(),
            entry_watches: Seq::empty(),
            queued: Seq::empty(),
            remove_watches: Seq::empty(),
            remove_watches_no_syscall: Seq::empty(),
            vanished: Seq::empty(),
            appeared: Seq::empty(),
            ignored: Seq::empty(),
        }
    }

    /// The entry is queued already, under the same spellings.
    pub open spec fn is_queued(self, w: i32, name: Option<Seq<u8>>) -> bool {
        queued_at(self.queued, w, name) matches Some(at) && at < self.add_watches.len()
            && self.add_watches[at as int] == self.entry_watches
    }

    /// Queues the entry that the event of `w` about `name` is about, under the spellings its
    /// handling asked for, unless another event of the read queued it the same way already.
    pub open spec fn queue_entry(self, w: i32, name: Option<Seq<u8>>) -> ChangesView {
        if self.entry_watches.len() == 0 {
            self
        } else if self.is_queued(w, name) {
            ChangesView { entry_watches: Seq::empty(), ..self }
        } else {
            ChangesView {
                entry_watches: Seq::empty(),
                queued: self.queued.push(QueuedView { w, name, at: self.add_watches.len() }),
                add_watches: self.add_watches.push(self.entry_watches),
                ..self
            }
        }
    }
}

/// What is known while the events of a read are handled.
#[verifier::ext_equal]
pub struct ReadingView {
    pub table: TableView,
    /// The cookie of the last entry moved away, and its spellings: the entry moved to with the same
    /// cookie is paired with them.
    pub rename_from: Option<(u32, Seq<Seq<Seq<u8>>>)>,
    pub changes: ChangesView,
    /// What is reported.
    pub reports: Seq<ReportView>,
}

/// How many components `a` and `b` share from the start.
pub open spec fn shared(a: Seq<Seq<u8>>, b: Seq<Seq<u8>>) -> nat
    decreases a.len(),
{
    if a.len() > 0 && b.len() > 0 && a[0] == b[0] {
        1 + shared(a.drop_first(), b.drop_first())
    } else {
        0
    }
}

/// Of the watched paths of `from`, the first that shares the most components with `to`.
pub open spec fn nearest(
    table: TableView,
    from: Seq<Seq<Seq<u8>>>,
    to: Seq<Seq<u8>>,
) -> Option<Seq<Seq<u8>>>
    decreases from.len(),
{
    if from.len() == 0 {
        None
    } else {
        let best = nearest(table, from.drop_last(), to);
        let last = from.last();
        if table.is_watched_path(last) && (best is None || shared(last, to) > shared(
            best->0,
            to,
        )) {
            Some(last)
        } else {
            best
        }
    }
}

/// What is watched of an entry at `p` that appeared: the root there, else what a root above watches.
pub open spec fn wanted(
    table: TableView,
    p: Seq<Seq<u8>>,
    is_file_without_hardlinks: bool,
) -> Option<AddView> {
    if table.roots.contains_key(p) {
        Some(
            AddView {
                path: p,
                is_recursive: table.roots[p].mode.is_recursive(),
                is_file_without_hardlinks,
            },
        )
    } else if path::has_parent(p) && table.roots.contains_key(p.drop_last()) {
        Some(
            AddView {
                path: p,
                is_recursive: table.roots[p.drop_last()].mode.is_recursive(),
                is_file_without_hardlinks,
            },
        )
    } else if table.is_below_recursive_root(p) {
        Some(AddView { path: p, is_recursive: true, is_file_without_hardlinks })
    } else {
        None
    }
}

pub open spec fn rename(mode: RenameMode) -> EventView {
    EventView::new(EventKind::Modify(ModifyKind::Name(mode)))
}

pub open spec fn plain(stat: Option<FileStat>) -> bool {
    stat matches Some(stat) && stat.is_single_link()
}

pub open spec fn is_dir_at(stat: Option<FileStat>) -> bool {
    stat matches Some(stat) && stat.is_dir
}

impl ReadingView {
    /// `event` is reported where `condition` holds and the path is watched.
    pub open spec fn reporting(
        self,
        condition: bool,
        p: Seq<Seq<u8>>,
        event: EventView,
    ) -> ReadingView {
        if condition && self.table.is_watched_path(p) {
            ReadingView { reports: self.reports.push(ReportView::Event(event)), ..self }
        } else {
            self
        }
    }

    /// Whether the entity at `p` had something of its own that goes with it: a handle, or a NoTrack
    /// root, which follows the entity.
    pub open spec fn loses_watch(self, p: Seq<Seq<u8>>) -> bool {
        self.table.handles.contains_key(p) || (self.table.roots.contains_key(p)
            && !self.table.roots[p].mode.tracks_path())
    }

    /// The entity at `p` is gone: its handles go.
    pub open spec fn removing(self, p: Seq<Seq<u8>>) -> ReadingView {
        if self.loses_watch(p) {
            ReadingView {
                changes: ChangesView {
                    remove_watches: self.changes.remove_watches.push(p),
                    ..self.changes
                },
                ..self
            }
        } else {
            self
        }
    }

    /// The entity at `p` is gone, and the kernel removed its watch already.
    pub open spec fn removing_no_syscall(self, p: Seq<Seq<u8>>) -> ReadingView {
        if self.loses_watch(p) {
            ReadingView {
                changes: ChangesView {
                    remove_watches_no_syscall: self.changes.remove_watches_no_syscall.push(p),
                    ..self.changes
                },
                ..self
            }
        } else {
            self
        }
    }

    /// The root at `p`, if there is one, is in the state `state`.
    pub open spec fn in_state(self, p: Seq<Seq<u8>>, state: RootState) -> ReadingView {
        ReadingView { table: self.table.in_state(p, state), ..self }
    }

    /// `p` is gone: a root there is missing, and the roots below it are cut off.
    pub open spec fn gone(self, p: Seq<Seq<u8>>) -> ReadingView {
        let missing = self.in_state(p, RootState::Missing);
        if self.table.leads_to_root(p) {
            ReadingView {
                changes: ChangesView {
                    vanished: self.changes.vanished.push(p),
                    ..self.changes
                },
                ..missing
            }
        } else {
            missing
        }
    }

    /// `p` exists now: a root there is present, and a directory may lead to roots below it. The
    /// event says whether the entry is a directory, but not where a symlink leads: an ancestor is
    /// followed, as the chain is armed through it.
    pub open spec fn present(
        self,
        p: Seq<Seq<u8>>,
        said_dir: bool,
        stat: Option<FileStat>,
    ) -> ReadingView {
        let leads = self.table.leads_to_root(p);
        let is_dir = said_dir || (leads && is_dir_at(stat));
        let there = self.in_state(
            p,
            if is_dir {
                RootState::Directory
            } else {
                RootState::File
            },
        );
        if is_dir && leads {
            ReadingView {
                changes: ChangesView {
                    appeared: self.changes.appeared.push(p),
                    ..self.changes
                },
                ..there
            }
        } else {
            there
        }
    }

    /// The entry at `p` is to be watched, if a root asks for it.
    pub open spec fn adding(self, p: Seq<Seq<u8>>, is_file_without_hardlinks: bool) -> ReadingView {
        match wanted(self.table, p, is_file_without_hardlinks) {
            Some(add) => ReadingView {
                changes: ChangesView {
                    entry_watches: self.changes.entry_watches.push(add),
                    ..self.changes
                },
                ..self
            },
            None => self,
        }
    }

    /// The entry at `p` was moved away with `cookie`.
    pub open spec fn leaving(self, cookie: u32, p: Seq<Seq<u8>>) -> ReadingView {
        ReadingView {
            rename_from: match self.rename_from {
                Some((from_cookie, from)) => if from_cookie == cookie {
                    Some((cookie, from.push(p)))
                } else {
                    Some((cookie, seq![p]))
                },
                None => Some((cookie, seq![p])),
            },
            ..self
        }
    }

    /// The spelling of the entry moved away with `cookie` that the entry moved to `to` is paired
    /// with.
    pub open spec fn renamed_from(self, cookie: u32, to: Seq<Seq<u8>>) -> Option<Seq<Seq<u8>>> {
        match self.rename_from {
            Some((from_cookie, from)) => if from_cookie == cookie {
                nearest(self.table, from, to)
            } else {
                None
            },
            None => None,
        }
    }

    pub open spec fn moved_from(self, cookie: u32, p: Seq<Seq<u8>>) -> ReadingView {
        self.removing(p).leaving(cookie, p).reporting(
            true,
            p,
            rename(RenameMode::From).with_path(p).with_tracker(cookie as usize),
        ).gone(p)
    }

    pub open spec fn moved_to(
        self,
        cookie: u32,
        p: Seq<Seq<u8>>,
        is_dir: bool,
        stat: Option<FileStat>,
    ) -> ReadingView {
        let to = self.reporting(
            true,
            p,
            rename(RenameMode::To).with_tracker(cookie as usize).with_path(p),
        );
        let both = match self.renamed_from(cookie, p) {
            Some(from) => to.reporting(
                true,
                p,
                rename(RenameMode::Both).with_tracker(cookie as usize).with_path(from).with_path(p),
            ),
            None => to,
        };
        both.adding(p, !is_dir && plain(stat)).present(p, is_dir, stat)
    }

    pub open spec fn moved_self(self, p: Seq<Seq<u8>>) -> ReadingView {
        self.removing(p).in_state(p, RootState::Missing).reporting(
            true,
            p,
            rename(RenameMode::From).with_path(p),
        )
    }

    pub open spec fn created(
        self,
        p: Seq<Seq<u8>>,
        is_dir: bool,
        stat: Option<FileStat>,
    ) -> ReadingView {
        self.reporting(
            true,
            p,
            EventView::new(
                EventKind::Create(
                    if is_dir {
                        CreateKind::Folder
                    } else {
                        CreateKind::File
                    },
                ),
            ).with_path(p),
        ).adding(p, !is_dir && plain(stat)).present(p, is_dir, stat)
    }

    pub open spec fn deleted(self, p: Seq<Seq<u8>>, is_dir: bool) -> ReadingView {
        self.reporting(
            true,
            p,
            EventView::new(
                EventKind::Remove(
                    if is_dir {
                        RemoveKind::Folder
                    } else {
                        RemoveKind::File
                    },
                ),
            ).with_path(p),
        ).removing(p).gone(p)
    }

    pub open spec fn deleted_self(self, p: Seq<Seq<u8>>) -> ReadingView {
        let kind = match self.table.handle_at(p) {
            Some(handle) => if handle.is_dir {
                RemoveKind::Folder
            } else {
                RemoveKind::File
            },
            None => RemoveKind::Other,
        };
        self.in_state(p, RootState::Missing).reporting(
            true,
            p,
            EventView::new(EventKind::Remove(kind)).with_path(p),
        ).removing(p)
    }

    pub open spec fn unmounted(self, p: Seq<Seq<u8>>) -> ReadingView {
        self.reporting(
            true,
            p,
            EventView::new(EventKind::Remove(RemoveKind::Other)).with_path(p),
        ).removing_no_syscall(p).gone(p)
    }

    /// What came of an event that only says what happened at the path.
    pub open spec fn touched(self, mask: u32, p: Seq<Seq<u8>>) -> ReadingView {
        self.reporting(
            mask::has(mask, MODIFY),
            p,
            EventView::new(EventKind::Modify(ModifyKind::Data(DataChange::Any))).with_path(p),
        ).reporting(
            mask::has(mask, CLOSE_WRITE),
            p,
            EventView::new(EventKind::Access(AccessKind::Close(AccessMode::Write))).with_path(p),
        ).reporting(
            mask::has(mask, CLOSE_NOWRITE),
            p,
            EventView::new(EventKind::Access(AccessKind::Close(AccessMode::Read))).with_path(p),
        ).reporting(
            mask::has(mask, ATTRIB),
            p,
            EventView::new(EventKind::Modify(ModifyKind::Metadata(MetadataKind::Any))).with_path(p),
        ).reporting(
            mask::has(mask, OPEN),
            p,
            EventView::new(EventKind::Access(AccessKind::Open(AccessMode::Any))).with_path(p),
        )
    }

    /// What came of the entry at `p` moving.
    pub open spec fn after_move(
        self,
        mask: u32,
        cookie: u32,
        p: Seq<Seq<u8>>,
        stat: Option<FileStat>,
    ) -> ReadingView {
        if mask::has(mask, MOVED_FROM) {
            self.moved_from(cookie, p)
        } else if mask::has(mask, MOVED_TO) {
            self.moved_to(cookie, p, mask::has(mask, ISDIR), stat)
        } else {
            self
        }
    }

    pub open spec fn after_move_self(self, mask: u32, p: Seq<Seq<u8>>) -> ReadingView {
        if mask::has(mask, MOVE_SELF) {
            self.moved_self(p)
        } else {
            self
        }
    }

    pub open spec fn after_create(
        self,
        mask: u32,
        p: Seq<Seq<u8>>,
        stat: Option<FileStat>,
    ) -> ReadingView {
        if mask::has(mask, CREATE) {
            self.created(p, mask::has(mask, ISDIR), stat)
        } else {
            self
        }
    }

    /// What came of the entity at `p` going, or its file system.
    pub open spec fn after_removal(self, mask: u32, p: Seq<Seq<u8>>) -> ReadingView {
        let r = if mask::has(mask, DELETE) {
            self.deleted(p, mask::has(mask, ISDIR))
        } else {
            self
        };
        let r = if mask::has(mask, DELETE_SELF) {
            r.deleted_self(p)
        } else {
            r
        };
        if mask::has(mask, UNMOUNT) {
            r.unmounted(p)
        } else {
            r
        }
    }

    /// What came of the event `mask` at `p`, one spelling of the entry it is about. `stat` is what
    /// the disk says of the path.
    pub open spec fn event_at(
        self,
        mask: u32,
        cookie: u32,
        p: Seq<Seq<u8>>,
        stat: Option<FileStat>,
    ) -> ReadingView {
        self.after_move(mask, cookie, p, stat).after_move_self(mask, p).after_create(
            mask,
            p,
            stat,
        ).after_removal(mask, p).touched(mask, p)
    }
}

/// An event at one of the spellings of its descriptor.
pub struct SpellingView {
    pub path: Seq<Seq<u8>>,
    pub mask: u32,
}

/// The spellings of the entry `name` of `w`, each with what it is told of the event: what it asked
/// for.
pub open spec fn spelled(
    table: TableView,
    w: i32,
    mask: u32,
    name: Option<Seq<u8>>,
) -> Seq<SpellingView> {
    table.spellings(w).map_values(
        |s: Seq<Seq<u8>>|
            SpellingView {
                path: match name {
                    Some(name) => s.push(name),
                    None => s,
                },
                mask: mask::seen_of(mask, table.handles[s].mask),
            },
    )
}

/// What came of an event at its spellings, in turn.
pub open spec fn at_spellings(
    r: ReadingView,
    spellings: Seq<SpellingView>,
    cookie: u32,
    stats: Seq<Option<FileStat>>,
) -> ReadingView
    decreases spellings.len(),
{
    if spellings.len() == 0 {
        r
    } else {
        let before = at_spellings(r, spellings.drop_last(), cookie, stats.drop_last());
        let s = spellings.last();
        if s.mask & !ISDIR != 0 {
            before.event_at(s.mask, cookie, s.path, stats.last())
        } else {
            before
        }
    }
}

impl ReadingView {
    /// What came of an event of the descriptor `w`: it is handled once for each spelling of the
    /// descriptor, and an entry that appeared is queued once, under the spellings that watch it.
    pub open spec fn event(
        self,
        w: i32,
        mask: u32,
        cookie: u32,
        name: Option<Seq<u8>>,
        stats: Seq<Option<FileStat>>,
    ) -> ReadingView {
        let r = if mask::has(mask, Q_OVERFLOW) {
            ReadingView {
                reports: self.reports.push(
                    ReportView::Event(EventView::new(EventKind::Other).with_flag(Flag::Rescan)),
                ),
                ..self
            }
        } else {
            self
        };
        if !self.table.bound.contains_key(w) {
            r
        } else if mask::has(mask, IGNORED) {
            ReadingView {
                changes: ChangesView { ignored: r.changes.ignored.push(w), ..r.changes },
                ..r
            }
        } else {
            let handled = at_spellings(
                r,
                spelled(self.table, w, mask, name),
                cookie,
                stats,
            );
            ReadingView { changes: handled.changes.queue_entry(w, name), ..handled }
        }
    }
}

#[derive(Debug)]
struct Queued {
    w: i32,
    name: Option<Vec<u8>>,
    at: usize,
}

pub open spec fn name_view(name: Option<Vec<u8>>) -> Option<Seq<u8>> {
    match name {
        Some(name) => Some(name@),
        None => None,
    }
}

impl Queued {
    spec fn shown(self) -> QueuedView {
        QueuedView { w: self.w, name: name_view(self.name), at: self.at as nat }
    }
}

/// What the events of one read ask for, once they are all handled.
#[derive(Debug)]
pub struct WatchChanges {
    pub add_watches: Vec<Vec<AddWatch>>,
    pub entry_watches: Vec<AddWatch>,
    queued: Vec<Queued>,
    pub remove_watches: Vec<PathBuf>,
    pub remove_watches_no_syscall: Vec<PathBuf>,
    pub vanished: Vec<PathBuf>,
    pub appeared: Vec<PathBuf>,
    pub ignored: Vec<i32>,
}

impl View for WatchChanges {
    type V = ChangesView;

    closed spec fn view(&self) -> ChangesView {
        ChangesView {
            add_watches: entry_views(self.add_watches@),
            entry_watches: add_views(self.entry_watches@),
            queued: self.queued@.map_values(|q: Queued| q.shown()),
            remove_watches: path::views(self.remove_watches@),
            remove_watches_no_syscall: path::views(self.remove_watches_no_syscall@),
            vanished: path::views(self.vanished@),
            appeared: path::views(self.appeared@),
            ignored: self.ignored@,
        }
    }
}

/// What the events of one read asked for, as lists.
#[derive(Debug)]
pub struct Asked {
    pub add_watches: Vec<Vec<AddWatch>>,
    pub remove_watches: Vec<PathBuf>,
    pub remove_watches_no_syscall: Vec<PathBuf>,
    pub vanished: Vec<PathBuf>,
    pub appeared: Vec<PathBuf>,
    pub ignored: Vec<i32>,
}

fn same_adds(a: &Vec<AddWatch>, b: &Vec<AddWatch>) -> (r: bool)
    ensures
        r == (add_views(a@) == add_views(b@)),
{
    if a.len() != b.len() {
        assert(add_views(a@).len() != add_views(b@).len());
        return false;
    }
    let mut i: usize = 0;
    while i < a.len()
        invariant
            i <= a@.len() == b@.len(),
            forall|j: int| 0 <= j < i ==> #[trigger] add_views(a@)[j] == add_views(b@)[j],
        decreases a.len() - i,
    {
        let same = a[i].path.same(&b[i].path) && a[i].is_recursive == b[i].is_recursive
            && a[i].is_file_without_hardlinks == b[i].is_file_without_hardlinks;
        if !same {
            assert(add_views(a@)[i as int] == a@[i as int]@);
            assert(add_views(b@)[i as int] == b@[i as int]@);
            return false;
        }
        i = i + 1;
    }
    assert(add_views(a@) =~= add_views(b@));
    true
}

fn same_entry(a: &Option<Vec<u8>>, b: &Option<Vec<u8>>) -> (r: bool)
    ensures
        r == (name_view(*a) == name_view(*b)),
{
    match (a, b) {
        (Some(a), Some(b)) => path::same_name(a, b),
        (None, None) => true,
        _ => false,
    }
}

fn copy_entry(name: &Option<Vec<u8>>) -> (copy: Option<Vec<u8>>)
    ensures
        name_view(copy) == name_view(*name),
{
    match name {
        Some(name) => Some(path::copy_name(name)),
        None => None,
    }
}

impl WatchChanges {
    pub fn new() -> (changes: WatchChanges)
        ensures
            changes@ == ChangesView::new(),
    {
        let changes = WatchChanges {
            add_watches: Vec::new(),
            entry_watches: Vec::new(),
            queued: Vec::new(),
            remove_watches: Vec::new(),
            remove_watches_no_syscall: Vec::new(),
            vanished: Vec::new(),
            appeared: Vec::new(),
            ignored: Vec::new(),
        };
        assert(changes@ =~= ChangesView::new());
        changes
    }

    /// Where the entry `name` of the directory `w` was queued last.
    fn queued_at(&self, w: i32, name: &Option<Vec<u8>>) -> (at: Option<usize>)
        ensures
            (match at {
                Some(at) => queued_at(self@.queued, w, name_view(*name)) == Some(at as nat),
                None => queued_at(self@.queued, w, name_view(*name)) is None,
            }),
    {
        let ghost all = self@.queued;
        let mut n: usize = self.queued.len();
        assert(all.take(n as int) =~= all);
        while n > 0
            invariant
                n <= self.queued@.len(),
                all == self@.queued,
                queued_at(all, w, name_view(*name)) == queued_at(
                    all.take(n as int),
                    w,
                    name_view(*name),
                ),
            decreases n,
        {
            let ghost here = all.take(n as int);
            assert(here.last() == self.queued@[n - 1].shown());
            assert(here.drop_last() =~= all.take(n - 1));
            let entry = &self.queued[n - 1];
            if entry.w == w && same_entry(&entry.name, name) {
                return Some(entry.at);
            }
            n = n - 1;
        }
        None
    }

    /// Queues the entry that the event of `w` about `name` is about, under the spellings its
    /// handling asked for, unless another event of the read queued it the same way already. An
    /// entry queued another way, such as a file that a directory replaced, is queued again.
    pub fn queue_entry(&mut self, w: i32, name: &Option<Vec<u8>>)
        ensures
            final(self)@ == old(self)@.queue_entry(w, name_view(*name)),
    {
        let ghost before = self@;
        if self.entry_watches.len() == 0 {
            return;
        }
        let mut spellings: Vec<AddWatch> = Vec::new();
        std::mem::swap(&mut self.entry_watches, &mut spellings);
        assert(self@.entry_watches =~= Seq::empty());
        if let Some(at) = self.queued_at(w, name) {
            if at < self.add_watches.len() {
                assert(before.add_watches[at as int] == add_views(self.add_watches@[at as int]@));
                if same_adds(&self.add_watches[at], &spellings) {
                    assert(self@ =~= before.queue_entry(w, name_view(*name)));
                    return;
                }
            }
        }
        let ghost queued = self.queued@;
        let ghost adds = self.add_watches@;
        let entry = Queued { w, name: copy_entry(name), at: self.add_watches.len() };
        self.queued.push(entry);
        self.add_watches.push(spellings);
        proof {
            assert(self@.queued =~= before.queued.push(entry.shown()));
            assert(self@.add_watches =~= before.add_watches.push(before.entry_watches));
            assert(self@ =~= before.queue_entry(w, name_view(*name)));
        }
    }
}

/// How many components `a` and `b` share from the start.
pub fn common_prefix_len(a: &PathBuf, b: &PathBuf) -> (n: usize)
    ensures
        n == shared(a@, b@),
{
    let mut n: usize = 0;
    assert(a@.skip(0) =~= a@);
    assert(b@.skip(0) =~= b@);
    while n < a.len() && n < b.len()
        invariant
            n <= a@.len(),
            n <= b@.len(),
            shared(a@, b@) == n + shared(a@.skip(n as int), b@.skip(n as int)),
        decreases a@.len() - n,
    {
        proof {
            let x = a@.skip(n as int);
            let y = b@.skip(n as int);
            assert(x[0] == a@[n as int] && y[0] == b@[n as int]);
            assert(x.drop_first() =~= a@.skip(n + 1));
            assert(y.drop_first() =~= b@.skip(n + 1));
        }
        if !path::same_name(a.component(n), b.component(n)) {
            return n;
        }
        n = n + 1;
    }
    n
}

/// What `a` and `b` share is the longest path that both start with.
pub proof fn shared_is_longest(a: Seq<Seq<u8>>, b: Seq<Seq<u8>>, n: int)
    requires
        0 <= n <= a.len(),
        n <= b.len(),
        a.take(n) == b.take(n),
    ensures
        n <= shared(a, b),
        shared(a, b) <= a.len(),
        shared(a, b) <= b.len(),
        a.take(shared(a, b) as int) == b.take(shared(a, b) as int),
    decreases a.len(),
{
    if a.len() > 0 && b.len() > 0 && a[0] == b[0] {
        let x = a.drop_first();
        let y = b.drop_first();
        if n > 0 {
            assert(x.take(n - 1) =~= a.take(n).drop_first());
            assert(y.take(n - 1) =~= b.take(n).drop_first());
            shared_is_longest(x, y, n - 1);
        } else {
            assert(x.take(0) =~= y.take(0));
            shared_is_longest(x, y, 0);
        }
        let k = shared(x, y) as int;
        assert(a.take(k + 1) =~= seq![a[0]] + x.take(k));
        assert(b.take(k + 1) =~= seq![b[0]] + y.take(k));
    } else {
        if n > 0 {
            assert(a.take(n)[0] == b.take(n)[0]);
        }
        assert(a.take(0) =~= b.take(0));
    }
}

/// What is known while the events of a read are handled.
#[derive(Debug)]
pub struct Reading {
    pub table: Table,
    pub rename_from: Option<(u32, Vec<PathBuf>)>,
    pub changes: WatchChanges,
    pub reports: Vec<Report>,
}

impl View for Reading {
    type V = ReadingView;

    open spec fn view(&self) -> ReadingView {
        ReadingView {
            table: self.table@,
            rename_from: match self.rename_from {
                Some((cookie, from)) => Some((cookie, path::views(from@))),
                None => None,
            },
            changes: self.changes@,
            reports: report::views(self.reports@),
        }
    }
}

/// Adds a path to a list.
fn push_path(list: &mut Vec<PathBuf>, path: &PathBuf)
    ensures
        path::views(final(list)@) == path::views(old(list)@).push(path@),
{
    let copy = path.clone();
    proof {
        path::lemma_views_push(list@, copy);
    }
    list.push(copy);
}

/// What is watched of an entry at `path` that appeared, added to `add_watches`.
fn add_watch_by_event(
    table: &Table,
    path: &PathBuf,
    is_file_without_hardlinks: bool,
    add_watches: &mut Vec<AddWatch>,
)
    requires
        table.wf(),
    ensures
        add_views(final(add_watches)@) == (match wanted(
            table@,
            path@,
            is_file_without_hardlinks,
        ) {
            Some(add) => add_views(old(add_watches)@).push(add),
            None => add_views(old(add_watches)@),
        }),
{
    let is_recursive = match table.root(path) {
        Some(root) => root.mode.recursive(),
        None => {
            let mut recursive = false;
            let mut found = false;
            if let Some(parent) = path.parent() {
                if let Some(root) = table.root(&parent) {
                    recursive = root.mode.recursive();
                    found = true;
                }
            }
            if !found {
                if !table.is_below_recursive_root(path) {
                    return;
                }
                recursive = true;
            }
            recursive
        },
    };
    let ghost before = add_watches@;
    let add = AddWatch { path: path.clone(), is_recursive, is_file_without_hardlinks };
    add_watches.push(add);
    assert(add_views(add_watches@) =~= add_views(before).push(add@));
}

impl Reading {
    pub open spec fn wf(&self) -> bool {
        self.table.wf()
    }

    fn report_if(&mut self, condition: bool, path: &PathBuf, event: Event)
        requires
            old(self).wf(),
        ensures
            final(self).wf(),
            final(self)@ == old(self)@.reporting(condition, path@, event@),
    {
        if condition && self.table.is_watched_path(path) {
            report::push_event(&mut self.reports, event);
        }
    }

    /// Whether the entity at `path` had a handle, or a NoTrack root, which follows the entity, even
    /// when it was reported by its parent and had no handle of its own.
    fn loses_watch(&self, path: &PathBuf) -> (r: bool)
        requires
            self.wf(),
        ensures
            r == self@.loses_watch(path@),
    {
        self.table.has_handle(path) || match self.table.root(path) {
            Some(root) => !root.mode.tracks(),
            None => false,
        }
    }

    /// The entity at `path` is gone: its handles go, and so does a NoTrack root there.
    fn remove_watch_by_event(&mut self, path: &PathBuf)
        requires
            old(self).wf(),
        ensures
            final(self).wf(),
            final(self)@ == old(self)@.removing(path@),
    {
        if self.loses_watch(path) {
            push_path(&mut self.changes.remove_watches, path);
            assert(self@ =~= old(self)@.removing(path@));
        }
    }

    fn remove_watch_no_syscall(&mut self, path: &PathBuf)
        requires
            old(self).wf(),
        ensures
            final(self).wf(),
            final(self)@ == old(self)@.removing_no_syscall(path@),
    {
        if self.loses_watch(path) {
            push_path(&mut self.changes.remove_watches_no_syscall, path);
            assert(self@ =~= old(self)@.removing_no_syscall(path@));
        }
    }

    fn set_state(&mut self, path: &PathBuf, state: RootState)
        requires
            old(self).wf(),
        ensures
            final(self).wf(),
            final(self)@ == old(self)@.in_state(path@, state),
    {
        self.table.set_state(path, state);
    }

    /// `path` is gone: a root there is missing, and the roots below it are cut off.
    fn note_gone(&mut self, path: &PathBuf)
        requires
            old(self).wf(),
        ensures
            final(self).wf(),
            final(self)@ == old(self)@.gone(path@),
    {
        let leads = self.table.leads_to_root(path);
        self.table.set_state(path, RootState::Missing);
        if leads {
            push_path(&mut self.changes.vanished, path);
        }
        assert(self@ =~= old(self)@.gone(path@));
    }

    /// `path` exists now: a root there is present, and a directory may lead to roots below it.
    fn note_present(&mut self, path: &PathBuf, said_dir: bool, stat: Option<FileStat>)
        requires
            old(self).wf(),
        ensures
            final(self).wf(),
            final(self)@ == old(self)@.present(path@, said_dir, stat),
    {
        let leads = self.table.leads_to_root(path);
        let found_dir = match stat {
            Some(stat) => stat.is_dir,
            None => false,
        };
        let is_dir = said_dir || (leads && found_dir);
        self.table.set_state(
            path,
            if is_dir {
                RootState::Directory
            } else {
                RootState::File
            },
        );
        if is_dir && leads {
            push_path(&mut self.changes.appeared, path);
        }
        assert(self@ =~= old(self)@.present(path@, said_dir, stat));
    }

    fn add_entry(&mut self, path: &PathBuf, is_file_without_hardlinks: bool)
        requires
            old(self).wf(),
        ensures
            final(self).wf(),
            final(self)@ == old(self)@.adding(path@, is_file_without_hardlinks),
    {
        add_watch_by_event(
            &self.table,
            path,
            is_file_without_hardlinks,
            &mut self.changes.entry_watches,
        );
        assert(self@ =~= old(self)@.adding(path@, is_file_without_hardlinks));
    }

    fn leave(&mut self, cookie: u32, path: &PathBuf)
        requires
            old(self).wf(),
        ensures
            final(self).wf(),
            final(self)@ == old(self)@.leaving(cookie, path@),
    {
        let taken = self.rename_from.take();
        let mut from: Vec<PathBuf> = match taken {
            Some((from_cookie, from)) => if from_cookie == cookie {
                from
            } else {
                Vec::new()
            },
            None => Vec::new(),
        };
        let ghost before = from@;
        push_path(&mut from, path);
        assert(before.len() == 0 ==> path::views(from@) =~= seq![path@]);
        self.rename_from = Some((cookie, from));
        assert(self@ =~= old(self)@.leaving(cookie, path@));
    }

    /// The spelling of the entry moved away with `cookie` that the entry moved to `to` is paired
    /// with: the one that shares the longest path prefix with `to`, which is reached through the
    /// same spelling of the directories the entry moved between, else the first one; a spelling
    /// that is not watched is not paired.
    fn renamed_from(&self, cookie: u32, to: &PathBuf) -> (from: Option<PathBuf>)
        requires
            self.wf(),
        ensures
            (match from {
                Some(from) => self@.renamed_from(cookie, to@) == Some(from@),
                None => self@.renamed_from(cookie, to@) is None,
            }),
    {
        match &self.rename_from {
            Some((from_cookie, from)) => {
                if *from_cookie != cookie {
                    return None;
                }
                let ghost all = path::views(from@);
                let mut best: Option<usize> = None;
                let mut i: usize = 0;
                assert(all.take(0) =~= Seq::empty());
                while i < from.len()
                    invariant
                        i <= from@.len(),
                        all == path::views(from@),
                        self.wf(),
                        (match best {
                            Some(b) => b < i && nearest(self@.table, all.take(i as int), to@)
                                == Some(all[b as int]),
                            None => nearest(self@.table, all.take(i as int), to@) is None,
                        }),
                    decreases from.len() - i,
                {
                    proof {
                        assert(all.take(i + 1).drop_last() =~= all.take(i as int));
                        assert(all.take(i + 1).last() == from@[i as int]@);
                    }
                    if self.table.is_watched_path(&from[i]) {
                        let nearer = match best {
                            Some(b) => common_prefix_len(&from[i], to) > common_prefix_len(
                                &from[b],
                                to,
                            ),
                            None => true,
                        };
                        if nearer {
                            best = Some(i);
                        }
                    }
                    i = i + 1;
                }
                assert(all.take(i as int) =~= all);
                match best {
                    Some(b) => Some(from[b].clone()),
                    None => None,
                }
            },
            None => None,
        }
    }

    fn handle_moved_from(&mut self, cookie: u32, path: &PathBuf)
        requires
            old(self).wf(),
        ensures
            final(self).wf(),
            final(self)@ == old(self)@.moved_from(cookie, path@),
    {
        self.remove_watch_by_event(path);
        self.leave(cookie, path);
        self.report_if(
            true,
            path,
            Event::new(EventKind::Modify(ModifyKind::Name(RenameMode::From))).add_path(
                path.clone(),
            ).set_tracker(cookie as usize),
        );
        self.note_gone(path);
    }

    fn handle_moved_to(
        &mut self,
        cookie: u32,
        path: &PathBuf,
        is_dir: bool,
        stat: Option<FileStat>,
    )
        requires
            old(self).wf(),
        ensures
            final(self).wf(),
            final(self)@ == old(self)@.moved_to(cookie, path@, is_dir, stat),
    {
        let from = self.renamed_from(cookie, path);
        self.report_if(
            true,
            path,
            Event::new(EventKind::Modify(ModifyKind::Name(RenameMode::To))).set_tracker(
                cookie as usize,
            ).add_path(path.clone()),
        );
        if let Some(from) = from {
            self.report_if(
                true,
                path,
                Event::new(EventKind::Modify(ModifyKind::Name(RenameMode::Both))).set_tracker(
                    cookie as usize,
                ).add_path(from).add_path(path.clone()),
            );
        }
        let is_plain = match stat {
            Some(stat) => stat.is_file_without_hardlinks(),
            None => false,
        };
        self.add_entry(path, !is_dir && is_plain);
        self.note_present(path, is_dir, stat);
    }

    fn handle_move_self(&mut self, path: &PathBuf)
        requires
            old(self).wf(),
        ensures
            final(self).wf(),
            final(self)@ == old(self)@.moved_self(path@),
    {
        self.remove_watch_by_event(path);
        self.set_state(path, RootState::Missing);
        self.report_if(
            true,
            path,
            Event::new(EventKind::Modify(ModifyKind::Name(RenameMode::From))).add_path(
                path.clone(),
            ),
        );
    }

    fn handle_create(&mut self, path: &PathBuf, is_dir: bool, stat: Option<FileStat>)
        requires
            old(self).wf(),
        ensures
            final(self).wf(),
            final(self)@ == old(self)@.created(path@, is_dir, stat),
    {
        self.report_if(
            true,
            path,
            Event::new(
                EventKind::Create(
                    if is_dir {
                        CreateKind::Folder
                    } else {
                        CreateKind::File
                    },
                ),
            ).add_path(path.clone()),
        );
        let is_plain = match stat {
            Some(stat) => stat.is_file_without_hardlinks(),
            None => false,
        };
        self.add_entry(path, !is_dir && is_plain);
        self.note_present(path, is_dir, stat);
    }

    fn handle_delete(&mut self, path: &PathBuf, is_dir: bool)
        requires
            old(self).wf(),
        ensures
            final(self).wf(),
            final(self)@ == old(self)@.deleted(path@, is_dir),
    {
        self.report_if(
            true,
            path,
            Event::new(
                EventKind::Remove(
                    if is_dir {
                        RemoveKind::Folder
                    } else {
                        RemoveKind::File
                    },
                ),
            ).add_path(path.clone()),
        );
        self.remove_watch_by_event(path);
        self.note_gone(path);
    }

    fn handle_delete_self(&mut self, path: &PathBuf)
        requires
            old(self).wf(),
        ensures
            final(self).wf(),
            final(self)@ == old(self)@.deleted_self(path@),
    {
        let kind = match self.table.handle_at(path) {
            Some(handle) => if handle.is_dir {
                RemoveKind::Folder
            } else {
                RemoveKind::File
            },
            None => RemoveKind::Other,
        };
        self.set_state(path, RootState::Missing);
        self.report_if(true, path, Event::new(EventKind::Remove(kind)).add_path(path.clone()));
        self.remove_watch_by_event(path);
    }

    /// The kernel has already removed this watch descriptor and will emit `IGNORED`: it is not
    /// removed again. The roots below are cut off like on a delete. A later mount makes no inotify
    /// event, so they are watched again only when the mount point itself is created or watched
    /// anew.
    fn handle_unmount(&mut self, path: &PathBuf)
        requires
            old(self).wf(),
        ensures
            final(self).wf(),
            final(self)@ == old(self)@.unmounted(path@),
    {
        self.report_if(
            true,
            path,
            Event::new(EventKind::Remove(RemoveKind::Other)).add_path(path.clone()),
        );
        self.remove_watch_no_syscall(path);
        self.note_gone(path);
    }

    fn handle_touched(&mut self, mask: u32, path: &PathBuf)
        requires
            old(self).wf(),
        ensures
            final(self).wf(),
            final(self)@ == old(self)@.touched(mask, path@),
    {
        self.report_if(
            mask::contains(mask, MODIFY),
            path,
            Event::new(EventKind::Modify(ModifyKind::Data(DataChange::Any))).add_path(
                path.clone(),
            ),
        );
        self.report_if(
            mask::contains(mask, CLOSE_WRITE),
            path,
            Event::new(EventKind::Access(AccessKind::Close(AccessMode::Write))).add_path(
                path.clone(),
            ),
        );
        self.report_if(
            mask::contains(mask, CLOSE_NOWRITE),
            path,
            Event::new(EventKind::Access(AccessKind::Close(AccessMode::Read))).add_path(
                path.clone(),
            ),
        );
        self.report_if(
            mask::contains(mask, ATTRIB),
            path,
            Event::new(EventKind::Modify(ModifyKind::Metadata(MetadataKind::Any))).add_path(
                path.clone(),
            ),
        );
        self.report_if(
            mask::contains(mask, OPEN),
            path,
            Event::new(EventKind::Access(AccessKind::Open(AccessMode::Any))).add_path(
                path.clone(),
            ),
        );
    }

    /// Handles the inotify event `mask` at `path`, one spelling of the entry it is about. `stat` is
    /// what the disk says of the path.
    pub fn handle_inotify_event_at(
        &mut self,
        mask: u32,
        cookie: u32,
        path: &PathBuf,
        stat: Option<FileStat>,
    )
        requires
            old(self).wf(),
        ensures
            final(self).wf(),
            final(self)@ == old(self)@.event_at(mask, cookie, path@, stat),
    {
        let is_dir = mask::contains(mask, ISDIR);
        if mask::contains(mask, MOVED_FROM) {
            self.handle_moved_from(cookie, path);
        } else if mask::contains(mask, MOVED_TO) {
            self.handle_moved_to(cookie, path, is_dir, stat);
        }
        if mask::contains(mask, MOVE_SELF) {
            self.handle_move_self(path);
        }
        if mask::contains(mask, CREATE) {
            self.handle_create(path, is_dir, stat);
        }
        if mask::contains(mask, DELETE) {
            self.handle_delete(path, is_dir);
        }
        if mask::contains(mask, DELETE_SELF) {
            self.handle_delete_self(path);
        }
        if mask::contains(mask, UNMOUNT) {
            self.handle_unmount(path);
        }
        self.handle_touched(mask, path);
    }
}

/// An event as the kernel reports it.
#[derive(Debug)]
pub struct InotifyEvent {
    pub w: i32,
    pub mask: u32,
    pub cookie: u32,
    /// The entry of the directory that the event is about.
    pub name: Option<Vec<u8>>,
}

/// An event at one of the spellings of its descriptor.
#[derive(Debug)]
pub struct Spelling {
    pub path: PathBuf,
    pub mask: u32,
}

impl View for Spelling {
    type V = SpellingView;

    open spec fn view(&self) -> SpellingView {
        SpellingView { path: self.path@, mask: self.mask }
    }
}

pub open spec fn spelling_views(list: Seq<Spelling>) -> Seq<SpellingView> {
    list.map_values(|s: Spelling| s@)
}

/// Whether what came of an event rests on what the disk says of its path: something came there.
pub open spec fn rests_on_stat(mask: u32) -> bool {
    mask::has(mask, MOVED_TO) || mask::has(mask, CREATE)
}

/// What the disk says of a path does not matter where nothing came there.
pub proof fn unasked_stat_does_not_matter(
    r: ReadingView,
    mask: u32,
    cookie: u32,
    p: Seq<Seq<u8>>,
    a: Option<FileStat>,
    b: Option<FileStat>,
)
    requires
        !rests_on_stat(mask),
    ensures
        r.event_at(mask, cookie, p, a) == r.event_at(mask, cookie, p, b),
{
    assert(r.after_move(mask, cookie, p, a) == r.after_move(mask, cookie, p, b));
    let moved = r.after_move(mask, cookie, p, a).after_move_self(mask, p);
    assert(moved.after_create(mask, p, a) == moved.after_create(mask, p, b));
}

/// Whether the event `mask` at `p` says that `event` happened. What is deleted itself is a folder
/// or a file as its handle in `table` says.
pub open spec fn tells(
    table: TableView,
    mask: u32,
    cookie: u32,
    p: Seq<Seq<u8>>,
    event: EventView,
) -> bool {
    let is_dir = mask::has(mask, ISDIR);
    ||| mask::has(mask, MOVED_FROM) && event == rename(RenameMode::From).with_path(p).with_tracker(
        cookie as usize,
    )
    ||| mask::has(mask, MOVED_TO) && !mask::has(mask, MOVED_FROM) && event == rename(
        RenameMode::To,
    ).with_tracker(cookie as usize).with_path(p)
    ||| mask::has(mask, MOVE_SELF) && event == rename(RenameMode::From).with_path(p)
    ||| mask::has(mask, CREATE) && event == EventView::new(
        EventKind::Create(
            if is_dir {
                CreateKind::Folder
            } else {
                CreateKind::File
            },
        ),
    ).with_path(p)
    ||| mask::has(mask, DELETE) && event == EventView::new(
        EventKind::Remove(
            if is_dir {
                RemoveKind::Folder
            } else {
                RemoveKind::File
            },
        ),
    ).with_path(p)
    ||| mask::has(mask, DELETE_SELF) && event == EventView::new(
        EventKind::Remove(
            if !table.handles.contains_key(p) {
                RemoveKind::Other
            } else if table.handles[p].is_dir {
                RemoveKind::Folder
            } else {
                RemoveKind::File
            },
        ),
    ).with_path(p)
    ||| mask::has(mask, UNMOUNT) && event == EventView::new(
        EventKind::Remove(RemoveKind::Other),
    ).with_path(p)
    ||| mask::has(mask, MODIFY) && event == EventView::new(
        EventKind::Modify(ModifyKind::Data(DataChange::Any)),
    ).with_path(p)
    ||| mask::has(mask, CLOSE_WRITE) && event == EventView::new(
        EventKind::Access(AccessKind::Close(AccessMode::Write)),
    ).with_path(p)
    ||| mask::has(mask, CLOSE_NOWRITE) && event == EventView::new(
        EventKind::Access(AccessKind::Close(AccessMode::Read)),
    ).with_path(p)
    ||| mask::has(mask, ATTRIB) && event == EventView::new(
        EventKind::Modify(ModifyKind::Metadata(MetadataKind::Any)),
    ).with_path(p)
    ||| mask::has(mask, OPEN) && event == EventView::new(
        EventKind::Access(AccessKind::Open(AccessMode::Any)),
    ).with_path(p)
}

/// What was reported stays reported, the same paths are watched, and the handles are the same.
pub open spec fn goes_on(a: ReadingView, b: ReadingView) -> bool {
    &&& forall|report: ReportView| #[trigger]
        a.reports.contains(report) ==> b.reports.contains(report)
    &&& forall|q: Seq<Seq<u8>>| #[trigger]
        b.table.is_watched_path(q) == a.table.is_watched_path(q)
    &&& b.table.handles == a.table.handles
}

proof fn lemma_reporting(r: ReadingView, condition: bool, p: Seq<Seq<u8>>, event: EventView)
    ensures
        goes_on(r, r.reporting(condition, p, event)),
        condition && r.table.is_watched_path(p) ==> r.reporting(
            condition,
            p,
            event,
        ).reports.contains(ReportView::Event(event)),
{
    let after = r.reporting(condition, p, event).reports;
    let report = ReportView::Event(event);
    if condition && r.table.is_watched_path(p) {
        assert(after[r.reports.len() as int] == report);
        assert forall|other: ReportView| #[trigger]
            r.reports.contains(other) implies after.contains(other) by {
            let i = r.reports.index_of(other);
            assert(after[i] == other);
        }
    }
}

proof fn lemma_in_state_goes_on(r: ReadingView, p: Seq<Seq<u8>>, state: RootState)
    ensures
        goes_on(r, r.in_state(p, state)),
{
    let a = r.table;
    let b = r.table.in_state(p, state);
    assert forall|q: Seq<Seq<u8>>| #[trigger] b.is_watched_path(q) == a.is_watched_path(q) by {
        assert forall|t: Seq<Seq<u8>>| #[trigger]
            a.roots.contains_key(t) == b.roots.contains_key(t) by {}
        if a.is_below_recursive_root(q) {
            let t = choose|t: Seq<Seq<u8>>| #[trigger]
                a.roots.contains_key(t) && a.roots[t].mode.is_recursive() && path::lies_below(q, t);
            assert(b.roots.contains_key(t) && b.roots[t].mode.is_recursive());
        }
        if b.is_below_recursive_root(q) {
            let t = choose|t: Seq<Seq<u8>>| #[trigger]
                b.roots.contains_key(t) && b.roots[t].mode.is_recursive() && path::lies_below(q, t);
            assert(a.roots.contains_key(t) && a.roots[t].mode.is_recursive());
        }
    }
}

proof fn lemma_gone_goes_on(r: ReadingView, p: Seq<Seq<u8>>)
    ensures
        goes_on(r, r.gone(p)),
{
    lemma_in_state_goes_on(r, p, RootState::Missing);
}

proof fn lemma_present_goes_on(
    r: ReadingView,
    p: Seq<Seq<u8>>,
    said_dir: bool,
    stat: Option<FileStat>,
)
    ensures
        goes_on(r, r.present(p, said_dir, stat)),
{
    lemma_in_state_goes_on(r, p, RootState::Directory);
    lemma_in_state_goes_on(r, p, RootState::File);
}

/// Both ends of a move.
spec fn pairing(cookie: u32, from: Seq<Seq<u8>>, to: Seq<Seq<u8>>) -> EventView {
    rename(RenameMode::Both).with_tracker(cookie as usize).with_path(from).with_path(to)
}

proof fn lemma_moved(
    r: ReadingView,
    mask: u32,
    cookie: u32,
    p: Seq<Seq<u8>>,
    stat: Option<FileStat>,
)
    ensures
        goes_on(r, r.after_move(mask, cookie, p, stat)),
        r.table.is_watched_path(p) && mask::has(mask, MOVED_FROM) ==> r.after_move(
            mask,
            cookie,
            p,
            stat,
        ).reports.contains(
            ReportView::Event(
                rename(RenameMode::From).with_path(p).with_tracker(cookie as usize),
            ),
        ),
        r.table.is_watched_path(p) && mask::has(mask, MOVED_TO) && !mask::has(mask, MOVED_FROM)
            ==> r.after_move(mask, cookie, p, stat).reports.contains(
            ReportView::Event(rename(RenameMode::To).with_tracker(cookie as usize).with_path(p)),
        ),
        r.table.is_watched_path(p) && mask::has(mask, MOVED_TO) && !mask::has(mask, MOVED_FROM)
            && r.renamed_from(cookie, p) is Some ==> r.after_move(
            mask,
            cookie,
            p,
            stat,
        ).reports.contains(ReportView::Event(pairing(cookie, r.renamed_from(cookie, p)->0, p))),
        !mask::has(mask, MOVED_FROM) ==> r.after_move(mask, cookie, p, stat).rename_from
            == r.rename_from,
{
    if mask::has(mask, MOVED_FROM) {
        let event = rename(RenameMode::From).with_path(p).with_tracker(cookie as usize);
        let left = r.removing(p).leaving(cookie, p);
        assert(goes_on(r, left));
        lemma_reporting(left, true, p, event);
        lemma_gone_goes_on(left.reporting(true, p, event), p);
    } else if mask::has(mask, MOVED_TO) {
        let is_dir = mask::has(mask, ISDIR);
        let event = rename(RenameMode::To).with_tracker(cookie as usize).with_path(p);
        let to = r.reporting(true, p, event);
        lemma_reporting(r, true, p, event);
        let both = match r.renamed_from(cookie, p) {
            Some(from) => {
                let pair = rename(RenameMode::Both).with_tracker(cookie as usize).with_path(
                    from,
                ).with_path(p);
                lemma_reporting(to, true, p, pair);
                to.reporting(true, p, pair)
            },
            None => to,
        };
        let added = both.adding(p, !is_dir && plain(stat));
        assert(goes_on(both, added));
        lemma_present_goes_on(added, p, is_dir, stat);
    }
}

proof fn lemma_moved_self(r: ReadingView, mask: u32, p: Seq<Seq<u8>>)
    ensures
        goes_on(r, r.after_move_self(mask, p)),
        r.table.is_watched_path(p) && mask::has(mask, MOVE_SELF) ==> r.after_move_self(
            mask,
            p,
        ).reports.contains(ReportView::Event(rename(RenameMode::From).with_path(p))),
{
    let removed = r.removing(p);
    assert(goes_on(r, removed));
    lemma_in_state_goes_on(removed, p, RootState::Missing);
    lemma_reporting(
        removed.in_state(p, RootState::Missing),
        true,
        p,
        rename(RenameMode::From).with_path(p),
    );
}

spec fn creation(mask: u32, p: Seq<Seq<u8>>) -> EventView {
    EventView::new(
        EventKind::Create(
            if mask::has(mask, ISDIR) {
                CreateKind::Folder
            } else {
                CreateKind::File
            },
        ),
    ).with_path(p)
}

proof fn lemma_created(r: ReadingView, mask: u32, p: Seq<Seq<u8>>, stat: Option<FileStat>)
    ensures
        goes_on(r, r.after_create(mask, p, stat)),
        r.table.is_watched_path(p) && mask::has(mask, CREATE) ==> r.after_create(
            mask,
            p,
            stat,
        ).reports.contains(ReportView::Event(creation(mask, p))),
{
    let is_dir = mask::has(mask, ISDIR);
    lemma_reporting(r, true, p, creation(mask, p));
    let told = r.reporting(true, p, creation(mask, p));
    let added = told.adding(p, !is_dir && plain(stat));
    assert(goes_on(told, added));
    lemma_present_goes_on(added, p, is_dir, stat);
}

spec fn deletion(mask: u32, p: Seq<Seq<u8>>) -> EventView {
    EventView::new(
        EventKind::Remove(
            if mask::has(mask, ISDIR) {
                RemoveKind::Folder
            } else {
                RemoveKind::File
            },
        ),
    ).with_path(p)
}

proof fn lemma_deleted(r: ReadingView, mask: u32, p: Seq<Seq<u8>>)
    ensures
        goes_on(r, r.deleted(p, mask::has(mask, ISDIR))),
        r.table.is_watched_path(p) ==> r.deleted(p, mask::has(mask, ISDIR)).reports.contains(
            ReportView::Event(deletion(mask, p)),
        ),
{
    lemma_reporting(r, true, p, deletion(mask, p));
    let told = r.reporting(true, p, deletion(mask, p));
    assert(goes_on(told, told.removing(p)));
    lemma_gone_goes_on(told.removing(p), p);
}

proof fn lemma_deleted_self(r: ReadingView, p: Seq<Seq<u8>>)
    ensures
        goes_on(r, r.deleted_self(p)),
        r.table.is_watched_path(p) ==> r.deleted_self(p).reports.contains(
            ReportView::Event(
                EventView::new(
                    EventKind::Remove(
                        if !r.table.handles.contains_key(p) {
                            RemoveKind::Other
                        } else if r.table.handles[p].is_dir {
                            RemoveKind::Folder
                        } else {
                            RemoveKind::File
                        },
                    ),
                ).with_path(p),
            ),
        ),
{
    let kind = match r.table.handle_at(p) {
        Some(handle) => if handle.is_dir {
            RemoveKind::Folder
        } else {
            RemoveKind::File
        },
        None => RemoveKind::Other,
    };
    let event = EventView::new(EventKind::Remove(kind)).with_path(p);
    lemma_in_state_goes_on(r, p, RootState::Missing);
    let missing = r.in_state(p, RootState::Missing);
    lemma_reporting(missing, true, p, event);
    let told = missing.reporting(true, p, event);
    assert(goes_on(told, told.removing(p)));
}

proof fn lemma_unmounted(r: ReadingView, p: Seq<Seq<u8>>)
    ensures
        goes_on(r, r.unmounted(p)),
        r.table.is_watched_path(p) ==> r.unmounted(p).reports.contains(
            ReportView::Event(EventView::new(EventKind::Remove(RemoveKind::Other)).with_path(p)),
        ),
{
    let event = EventView::new(EventKind::Remove(RemoveKind::Other)).with_path(p);
    lemma_reporting(r, true, p, event);
    let told = r.reporting(true, p, event);
    assert(goes_on(told, told.removing_no_syscall(p)));
    lemma_gone_goes_on(told.removing_no_syscall(p), p);
}

proof fn lemma_touched(r: ReadingView, mask: u32, p: Seq<Seq<u8>>)
    ensures
        goes_on(r, r.touched(mask, p)),
        r.table.is_watched_path(p) && mask::has(mask, MODIFY) ==> r.touched(
            mask,
            p,
        ).reports.contains(
            ReportView::Event(
                EventView::new(EventKind::Modify(ModifyKind::Data(DataChange::Any))).with_path(p),
            ),
        ),
        r.table.is_watched_path(p) && mask::has(mask, CLOSE_WRITE) ==> r.touched(
            mask,
            p,
        ).reports.contains(
            ReportView::Event(
                EventView::new(EventKind::Access(AccessKind::Close(AccessMode::Write))).with_path(
                    p,
                ),
            ),
        ),
        r.table.is_watched_path(p) && mask::has(mask, CLOSE_NOWRITE) ==> r.touched(
            mask,
            p,
        ).reports.contains(
            ReportView::Event(
                EventView::new(EventKind::Access(AccessKind::Close(AccessMode::Read))).with_path(p),
            ),
        ),
        r.table.is_watched_path(p) && mask::has(mask, ATTRIB) ==> r.touched(
            mask,
            p,
        ).reports.contains(
            ReportView::Event(
                EventView::new(EventKind::Modify(ModifyKind::Metadata(MetadataKind::Any))).with_path(
                    p,
                ),
            ),
        ),
        r.table.is_watched_path(p) && mask::has(mask, OPEN) ==> r.touched(
            mask,
            p,
        ).reports.contains(
            ReportView::Event(
                EventView::new(EventKind::Access(AccessKind::Open(AccessMode::Any))).with_path(p),
            ),
        ),
{
    let modified = EventView::new(EventKind::Modify(ModifyKind::Data(DataChange::Any))).with_path(
        p,
    );
    let written = EventView::new(
        EventKind::Access(AccessKind::Close(AccessMode::Write)),
    ).with_path(p);
    let closed = EventView::new(EventKind::Access(AccessKind::Close(AccessMode::Read))).with_path(
        p,
    );
    let changed = EventView::new(
        EventKind::Modify(ModifyKind::Metadata(MetadataKind::Any)),
    ).with_path(p);
    let opened = EventView::new(EventKind::Access(AccessKind::Open(AccessMode::Any))).with_path(p);
    let a = r.reporting(mask::has(mask, MODIFY), p, modified);
    let b = a.reporting(mask::has(mask, CLOSE_WRITE), p, written);
    let c = b.reporting(mask::has(mask, CLOSE_NOWRITE), p, closed);
    let d = c.reporting(mask::has(mask, ATTRIB), p, changed);
    lemma_reporting(r, mask::has(mask, MODIFY), p, modified);
    lemma_reporting(a, mask::has(mask, CLOSE_WRITE), p, written);
    lemma_reporting(b, mask::has(mask, CLOSE_NOWRITE), p, closed);
    lemma_reporting(c, mask::has(mask, ATTRIB), p, changed);
    lemma_reporting(d, mask::has(mask, OPEN), p, opened);
}

/// The table stays the same through the parts of an event but for the states of roots.
pub proof fn lemma_stages(
    r: ReadingView,
    mask: u32,
    cookie: u32,
    p: Seq<Seq<u8>>,
    stat: Option<FileStat>,
)
    ensures
        ({
            let a = r.after_move(mask, cookie, p, stat);
            let b = a.after_move_self(mask, p);
            let c = b.after_create(mask, p, stat);
            let d = if mask::has(mask, DELETE) {
                c.deleted(p, mask::has(mask, ISDIR))
            } else {
                c
            };
            let e = if mask::has(mask, DELETE_SELF) {
                d.deleted_self(p)
            } else {
                d
            };
            let f = if mask::has(mask, UNMOUNT) {
                e.unmounted(p)
            } else {
                e
            };
            &&& c.after_removal(mask, p) == f
            &&& r.event_at(mask, cookie, p, stat) == f.touched(mask, p)
            &&& a.table.handles == r.table.handles && a.table.is_watched_path(p)
                == r.table.is_watched_path(p)
            &&& a.removing(p).in_state(p, RootState::Missing).table.is_watched_path(p)
                == r.table.is_watched_path(p)
            &&& b.table.handles == r.table.handles && b.table.is_watched_path(p)
                == r.table.is_watched_path(p)
            &&& c.table.handles == r.table.handles && c.table.is_watched_path(p)
                == r.table.is_watched_path(p)
            &&& d.table.handles == r.table.handles && d.table.is_watched_path(p)
                == r.table.is_watched_path(p)
            &&& d.in_state(p, RootState::Missing).table.is_watched_path(p)
                == r.table.is_watched_path(p)
            &&& e.table.handles == r.table.handles && e.table.is_watched_path(p)
                == r.table.is_watched_path(p)
            &&& f.table.handles == r.table.handles && f.table.is_watched_path(p)
                == r.table.is_watched_path(p)
        }),
{
    let a = r.after_move(mask, cookie, p, stat);
    let b = a.after_move_self(mask, p);
    let c = b.after_create(mask, p, stat);
    let d = if mask::has(mask, DELETE) {
        c.deleted(p, mask::has(mask, ISDIR))
    } else {
        c
    };
    let e = if mask::has(mask, DELETE_SELF) {
        d.deleted_self(p)
    } else {
        d
    };
    lemma_moved(r, mask, cookie, p, stat);
    lemma_in_state_goes_on(a.removing(p), p, RootState::Missing);
    lemma_moved_self(a, mask, p);
    lemma_created(b, mask, p, stat);
    lemma_deleted(c, mask, p);
    lemma_in_state_goes_on(d, p, RootState::Missing);
    lemma_deleted_self(d, p);
    lemma_unmounted(e, p);
}

#[verifier::rlimit(60)]
pub proof fn lemma_event_at(
    r: ReadingView,
    mask: u32,
    cookie: u32,
    p: Seq<Seq<u8>>,
    stat: Option<FileStat>,
)
    ensures
        goes_on(r, r.event_at(mask, cookie, p, stat)),
        forall|event: EventView| #[trigger]
            tells(r.table, mask, cookie, p, event) && r.table.is_watched_path(p) ==> r.event_at(
                mask,
                cookie,
                p,
                stat,
            ).reports.contains(ReportView::Event(event)),
        !mask::has(mask, MOVED_FROM) ==> r.event_at(mask, cookie, p, stat).rename_from
            == r.rename_from,
        r.table.is_watched_path(p) && mask::has(mask, MOVED_TO) && !mask::has(mask, MOVED_FROM)
            && r.renamed_from(cookie, p) is Some ==> r.event_at(
            mask,
            cookie,
            p,
            stat,
        ).reports.contains(
            ReportView::Event(
                rename(RenameMode::Both).with_tracker(cookie as usize).with_path(
                    r.renamed_from(cookie, p)->0,
                ).with_path(p),
            ),
        ),
{
    let a = r.after_move(mask, cookie, p, stat);
    let b = a.after_move_self(mask, p);
    let c = b.after_create(mask, p, stat);
    let d = if mask::has(mask, DELETE) {
        c.deleted(p, mask::has(mask, ISDIR))
    } else {
        c
    };
    let e = if mask::has(mask, DELETE_SELF) {
        d.deleted_self(p)
    } else {
        d
    };
    let f = if mask::has(mask, UNMOUNT) {
        e.unmounted(p)
    } else {
        e
    };
    lemma_moved(r, mask, cookie, p, stat);
    lemma_moved_self(a, mask, p);
    lemma_created(b, mask, p, stat);
    lemma_deleted(c, mask, p);
    lemma_deleted_self(d, p);
    lemma_unmounted(e, p);
    lemma_touched(f, mask, p);
    assert(c.after_removal(mask, p) == f);
    let last = f.touched(mask, p);
    assert(r.event_at(mask, cookie, p, stat) == last);
    lemma_goes_on(e, f, last);
    lemma_goes_on(d, e, last);
    lemma_goes_on(c, d, last);
    lemma_goes_on(b, c, last);
    lemma_goes_on(a, b, last);
    lemma_goes_on(r, a, last);
    lemma_goes_on(r, a, b);
    lemma_goes_on(r, b, c);
    lemma_goes_on(r, c, d);
    lemma_goes_on(r, d, e);
    lemma_goes_on(r, e, f);
    if r.table.is_watched_path(p) {
        assert forall|event: EventView| #[trigger]
            tells(r.table, mask, cookie, p, event) implies last.reports.contains(
            ReportView::Event(event),
        ) by {
            assert(a.table.is_watched_path(p) && b.table.is_watched_path(p)
                && c.table.is_watched_path(p) && d.table.is_watched_path(p)
                && e.table.is_watched_path(p) && f.table.is_watched_path(p));
        }
    }
}

proof fn lemma_goes_on(a: ReadingView, b: ReadingView, c: ReadingView)
    requires
        goes_on(a, b),
        goes_on(b, c),
    ensures
        goes_on(a, c),
{
    assert forall|report: ReportView| #[trigger]
        a.reports.contains(report) implies c.reports.contains(report) by {
        assert(b.reports.contains(report));
    }
    assert forall|q: Seq<Seq<u8>>| #[trigger]
        c.table.is_watched_path(q) == a.table.is_watched_path(q) by {
        assert(b.table.is_watched_path(q) == a.table.is_watched_path(q));
    }
}

proof fn lemma_at_spellings(
    r: ReadingView,
    spellings: Seq<SpellingView>,
    cookie: u32,
    stats: Seq<Option<FileStat>>,
    i: int,
    event: EventView,
)
    requires
        0 <= i < spellings.len(),
        r.table.is_watched_path(spellings[i].path),
        tells(r.table, spellings[i].mask, cookie, spellings[i].path, event),
    ensures
        goes_on(r, at_spellings(r, spellings, cookie, stats)),
        at_spellings(r, spellings, cookie, stats).reports.contains(ReportView::Event(event)),
    decreases spellings.len(),
{
    let s = spellings.last();
    let before = at_spellings(r, spellings.drop_last(), cookie, stats.drop_last());
    lemma_spellings_go_on(r, spellings.drop_last(), cookie, stats.drop_last());
    lemma_event_at(before, s.mask, cookie, s.path, stats.last());
    if i < spellings.len() - 1 {
        lemma_at_spellings(r, spellings.drop_last(), cookie, stats.drop_last(), i, event);
    } else {
        assert(spellings[i] == s);
        lemma_tells(r.table, s.mask, cookie, s.path, event);
        assert(tells(before.table, s.mask, cookie, s.path, event));
    }
}

/// An event that says something is handled.
proof fn lemma_tells(
    table: TableView,
    mask: u32,
    cookie: u32,
    p: Seq<Seq<u8>>,
    event: EventView,
)
    requires
        tells(table, mask, cookie, p, event),
    ensures
        mask & !ISDIR != 0,
{
    assert(mask & MOVED_FROM == MOVED_FROM || mask & MOVED_TO == MOVED_TO || mask & MOVE_SELF
        == MOVE_SELF || mask & CREATE == CREATE || mask & DELETE == DELETE || mask & DELETE_SELF
        == DELETE_SELF || mask & UNMOUNT == UNMOUNT || mask & MODIFY == MODIFY || mask
        & CLOSE_WRITE == CLOSE_WRITE || mask & CLOSE_NOWRITE == CLOSE_NOWRITE || mask & ATTRIB == ATTRIB || mask & OPEN == OPEN ==> mask
        & !ISDIR != 0) by (bit_vector);
}

pub proof fn lemma_spellings_go_on(
    r: ReadingView,
    spellings: Seq<SpellingView>,
    cookie: u32,
    stats: Seq<Option<FileStat>>,
)
    ensures
        goes_on(r, at_spellings(r, spellings, cookie, stats)),
    decreases spellings.len(),
{
    if spellings.len() > 0 {
        let s = spellings.last();
        let before = at_spellings(r, spellings.drop_last(), cookie, stats.drop_last());
        lemma_spellings_go_on(r, spellings.drop_last(), cookie, stats.drop_last());
        lemma_event_at(before, s.mask, cookie, s.path, stats.last());
    }
}

/// What an event says of a watched path is reported, under each spelling of the path that asked for
/// it.
pub proof fn asked_is_reported(
    r: ReadingView,
    w: i32,
    mask: u32,
    cookie: u32,
    name: Option<Seq<u8>>,
    stats: Seq<Option<FileStat>>,
    i: int,
    event: EventView,
)
    requires
        r.table.bound.contains_key(w),
        !mask::has(mask, IGNORED),
        0 <= i < r.table.spellings(w).len(),
        ({
            let s = spelled(r.table, w, mask, name)[i];
            r.table.is_watched_path(s.path) && tells(r.table, s.mask, cookie, s.path, event)
        }),
    ensures
        r.event(w, mask, cookie, name, stats).reports.contains(ReportView::Event(event)),
{
    let start = if mask::has(mask, Q_OVERFLOW) {
        ReadingView {
            reports: r.reports.push(
                ReportView::Event(EventView::new(EventKind::Other).with_flag(Flag::Rescan)),
            ),
            ..r
        }
    } else {
        r
    };
    lemma_at_spellings(start, spelled(r.table, w, mask, name), cookie, stats, i, event);
}

proof fn lemma_unwatched(
    r: ReadingView,
    mask: u32,
    cookie: u32,
    p: Seq<Seq<u8>>,
    stat: Option<FileStat>,
)
    requires
        !r.table.is_watched_path(p),
    ensures
        r.event_at(mask, cookie, p, stat).reports == r.reports,
{
    let a = r.after_move(mask, cookie, p, stat);
    let b = a.after_move_self(mask, p);
    let c = b.after_create(mask, p, stat);
    let d = if mask::has(mask, DELETE) {
        c.deleted(p, mask::has(mask, ISDIR))
    } else {
        c
    };
    let e = if mask::has(mask, DELETE_SELF) {
        d.deleted_self(p)
    } else {
        d
    };
    let f = c.after_removal(mask, p);
    lemma_moved(r, mask, cookie, p, stat);
    assert(!a.table.is_watched_path(p));
    lemma_moved_self(a, mask, p);
    lemma_in_state_goes_on(a.removing(p), p, RootState::Missing);
    assert(!b.table.is_watched_path(p));
    lemma_created(b, mask, p, stat);
    assert(!c.table.is_watched_path(p));
    lemma_deleted(c, mask, p);
    assert(!d.table.is_watched_path(p));
    lemma_in_state_goes_on(d, p, RootState::Missing);
    lemma_deleted_self(d, p);
    assert(!e.table.is_watched_path(p));
    lemma_unmounted(e, p);
    assert(!f.table.is_watched_path(p));
    assert(a.reports == r.reports);
    assert(b.reports == a.reports);
    assert(c.reports == b.reports);
    assert(f.reports == c.reports);
}

proof fn lemma_none_watched(
    r: ReadingView,
    spellings: Seq<SpellingView>,
    cookie: u32,
    stats: Seq<Option<FileStat>>,
)
    requires
        forall|i: int|
            0 <= i < spellings.len() ==> !r.table.is_watched_path((#[trigger] spellings[i]).path),
    ensures
        at_spellings(r, spellings, cookie, stats).reports == r.reports,
    decreases spellings.len(),
{
    if spellings.len() > 0 {
        let s = spellings.last();
        let shorter = spellings.drop_last();
        assert forall|i: int| 0 <= i < shorter.len() implies !r.table.is_watched_path(
            (#[trigger] shorter[i]).path,
        ) by {
            assert(shorter[i] == spellings[i]);
        }
        let before = at_spellings(r, shorter, cookie, stats.drop_last());
        lemma_none_watched(r, shorter, cookie, stats.drop_last());
        lemma_spellings_go_on(r, shorter, cookie, stats.drop_last());
        assert(s == spellings[spellings.len() - 1]);
        assert(!before.table.is_watched_path(s.path));
        lemma_unwatched(before, s.mask, cookie, s.path, stats.last());
    }
}

/// Nothing is reported of an event at paths that are not watched.
pub proof fn unwatched_is_not_reported(
    r: ReadingView,
    w: i32,
    mask: u32,
    cookie: u32,
    name: Option<Seq<u8>>,
    stats: Seq<Option<FileStat>>,
)
    requires
        !mask::has(mask, Q_OVERFLOW),
        forall|i: int|
            0 <= i < r.table.spellings(w).len() ==> !r.table.is_watched_path(
                (#[trigger] spelled(r.table, w, mask, name)[i]).path,
            ),
    ensures
        r.event(w, mask, cookie, name, stats).reports == r.reports,
{
    lemma_none_watched(r, spelled(r.table, w, mask, name), cookie, stats);
}

/// An entry that was queued is not queued again under the same spellings.
pub proof fn queued_once(c: ChangesView, w: i32, name: Option<Seq<u8>>)
    requires
        c.entry_watches.len() > 0,
        forall|i: int|
            0 <= i < c.queued.len() ==> (#[trigger] c.queued[i]).at < c.add_watches.len(),
    ensures
        ({
            let again = ChangesView {
                entry_watches: c.entry_watches,
                ..c.queue_entry(w, name)
            };
            again.queue_entry(w, name).add_watches == c.queue_entry(w, name).add_watches
        }),
{
    let once = c.queue_entry(w, name);
    if !c.is_queued(w, name) {
        assert(once.queued.last().w == w && once.queued.last().name == name);
        assert(queued_at(once.queued, w, name) == Some(c.add_watches.len()));
        assert(once.add_watches[c.add_watches.len() as int] == c.entry_watches);
    }
}

/// Both ends of a rename are paired under the spelling that shares the most with the new path.
pub proof fn paired_with_nearest(
    table: TableView,
    from: Seq<Seq<Seq<u8>>>,
    to: Seq<Seq<u8>>,
    i: int,
)
    requires
        0 <= i < from.len(),
        table.is_watched_path(from[i]),
    ensures
        nearest(table, from, to) matches Some(best) && shared(from[i], to) <= shared(best, to)
            && table.is_watched_path(best) && from.contains(best),
    decreases from.len(),
{
    let shorter = from.drop_last();
    assert(from[from.len() - 1] == from.last());
    if i < shorter.len() {
        assert(shorter[i] == from[i]);
        paired_with_nearest(table, shorter, to, i);
        let best = nearest(table, shorter, to)->0;
        let k = choose|k: int| 0 <= k < shorter.len() && shorter[k] == best;
        assert(from[k] == best);
    } else if nearest(table, shorter, to) is Some {
        lemma_nearest_is_one(table, shorter, to);
        let best = nearest(table, shorter, to)->0;
        let k = choose|k: int| 0 <= k < shorter.len() && shorter[k] == best;
        assert(from[k] == best);
    }
}

proof fn lemma_nearest_is_one(table: TableView, from: Seq<Seq<Seq<u8>>>, to: Seq<Seq<u8>>)
    ensures
        nearest(table, from, to) matches Some(best) ==> from.contains(best)
            && table.is_watched_path(best),
    decreases from.len(),
{
    if from.len() > 0 {
        let shorter = from.drop_last();
        lemma_nearest_is_one(table, shorter, to);
        assert(from[from.len() - 1] == from.last());
        if let Some(best) = nearest(table, shorter, to) {
            let k = choose|k: int| 0 <= k < shorter.len() && shorter[k] == best;
            assert(from[k] == best);
        }
    }
}

impl Reading {
    /// What the events of the read ask for, taken.
    pub fn take_changes(&mut self) -> (asked: Asked)
        requires
            old(self).wf(),
        ensures
            final(self).wf(),
            final(self)@ == (ReadingView { changes: ChangesView::new(), ..old(self)@ }),
            entry_views(asked.add_watches@) == old(self)@.changes.add_watches,
            path::views(asked.remove_watches@) == old(self)@.changes.remove_watches,
            path::views(asked.remove_watches_no_syscall@)
                == old(self)@.changes.remove_watches_no_syscall,
            path::views(asked.vanished@) == old(self)@.changes.vanished,
            path::views(asked.appeared@) == old(self)@.changes.appeared,
            asked.ignored@ == old(self)@.changes.ignored,
    {
        let mut changes = WatchChanges::new();
        std::mem::swap(&mut changes, &mut self.changes);
        Asked {
            add_watches: changes.add_watches,
            remove_watches: changes.remove_watches,
            remove_watches_no_syscall: changes.remove_watches_no_syscall,
            vanished: changes.vanished,
            appeared: changes.appeared,
            ignored: changes.ignored,
        }
    }

    /// The spellings of the entry that `event` is about, each with what it is told: what it asked
    /// for, as the kernel watches the inode for all of them. None where the event is of no
    /// descriptor that is known, or is the last one of a descriptor.
    pub fn spellings_of(&self, event: &InotifyEvent) -> (spellings: Vec<Spelling>)
        requires
            self.wf(),
        ensures
            spelling_views(spellings@) == spelled(
                self@.table,
                event.w,
                event.mask,
                name_view(event.name),
            ),
    {
        let paths = self.table.spellings(event.w);
        let ghost all = path::views(paths@);
        let ghost w = event.w;
        let mut spellings: Vec<Spelling> = Vec::new();
        let mut i: usize = 0;
        let ghost told = spelled(self@.table, event.w, event.mask, name_view(event.name));
        while i < paths.len()
            invariant
                i <= paths@.len(),
                all == path::views(paths@),
                all == self@.table.spellings(w),
                w == event.w,
                self.wf(),
                told == spelled(self@.table, event.w, event.mask, name_view(event.name)),
                told.len() == paths@.len(),
                spellings@.len() == i,
                forall|j: int| 0 <= j < i ==> (#[trigger] spellings@[j])@ == told[j],
            decreases paths.len() - i,
        {
            let asked: u32 = match self.table.handle_at(&paths[i]) {
                Some(handle) => handle.mask,
                None => 0,
            };
            proof {
                self.table.lemma_consistent();
                assert(all[i as int] == paths@[i as int]@);
                assert(self@.table.bound[w].spellings.contains(all[i as int]));
                assert(self@.table.handles.contains_key(all[i as int]));
            }
            let path = match &event.name {
                Some(name) => paths[i].entry(name),
                None => paths[i].clone(),
            };
            spellings.push(Spelling { path, mask: mask::seen(event.mask, asked) });
            i = i + 1;
        }
        assert(spelling_views(spellings@) =~= told);
        spellings
    }

    /// Whether the disk has to be asked about the path of a spelling.
    pub fn wants_stat(spelling: &Spelling) -> (r: bool)
        ensures
            r == rests_on_stat(spelling.mask),
    {
        mask::contains(spelling.mask, MOVED_TO) || mask::contains(spelling.mask, CREATE)
    }

    /// Handles an inotify event once for each spelling of its descriptor. An entry that appeared
    /// is queued once, under the spellings that watch it. `stats` is what the disk says of the
    /// spellings of the entry.
    ///
    /// A rename is reported under each spelling, all with the same tracker: the `From` event of
    /// each spelling first, then the `To` and `Both` events of each spelling. Each `Both` event
    /// pairs a spelling with the one it came from, which shares the longest path prefix with it;
    /// a consumer that pairs `From` and `To` events by tracker has to pair them by that prefix as
    /// well, or it pairs one spelling with another.
    pub fn handle_inotify_event(&mut self, event: &InotifyEvent, stats: &Vec<Option<FileStat>>)
        requires
            old(self).wf(),
            stats@.len() == old(self)@.table.spellings(event.w).len(),
        ensures
            final(self).wf(),
            final(self)@ == old(self)@.event(
                event.w,
                event.mask,
                event.cookie,
                name_view(event.name),
                stats@,
            ),
    {
        let ghost start = self@;
        if mask::contains(event.mask, Q_OVERFLOW) {
            report::push_event(
                &mut self.reports,
                Event::new(EventKind::Other).set_flag(Flag::Rescan),
            );
        }
        if !self.table.is_bound(event.w) {
            return;
        }
        if mask::contains(event.mask, IGNORED) {
            self.changes.ignored.push(event.w);
            assert(self@ =~= start.event(
                event.w,
                event.mask,
                event.cookie,
                name_view(event.name),
                stats@,
            ));
            return;
        }
        let ghost r = self@;
        let spellings = self.spellings_of(event);
        let ghost told = spelling_views(spellings@);
        let mut i: usize = 0;
        assert(told.take(0) =~= Seq::empty());
        while i < spellings.len()
            invariant
                i <= spellings@.len() == stats@.len(),
                told == spelling_views(spellings@),
                self.wf(),
                self@ == at_spellings(r, told.take(i as int), event.cookie, stats@.take(i as int)),
            decreases spellings.len() - i,
        {
            proof {
                assert(told.take(i + 1).drop_last() =~= told.take(i as int));
                assert(stats@.take(i + 1).drop_last() =~= stats@.take(i as int));
                assert(told.take(i + 1).last() == spellings@[i as int]@);
            }
            if spellings[i].mask & !ISDIR != 0 {
                self.handle_inotify_event_at(
                    spellings[i].mask,
                    event.cookie,
                    &spellings[i].path,
                    stats[i],
                );
            }
            i = i + 1;
        }
        assert(told.take(i as int) =~= told);
        assert(stats@.take(i as int) =~= stats@);
        self.changes.queue_entry(event.w, &event.name);
    }
}

} // verus!
