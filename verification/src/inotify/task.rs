//! What is left to do, one step at a time: every call of the system is asked for, and its answer
//! decides what comes next.

use crate::config::WatchMode;
use crate::error;
use crate::error::{ErrorKind, ErrorView};
use crate::event::{CreateKind, EventKind, EventView, RemoveKind};
use crate::inotify::mask;
use crate::inotify::mask::{ENTRY_MASK, FULL_MASK, MASK_ADD, SELF_MASK};
use crate::inotify::reading::{AddView, ChangesView, FileStat, ReadingView};
use crate::inotify::table::{Inode, TableView};
use crate::outcome::Outcome;
use crate::path;
use crate::path_map;
use crate::report::ReportView;
use crate::root;
use crate::root::{RootState, RootWatch};
use vstd::prelude::*;

verus! {

pub const ENOSPC: i32 = 28;

/// What is asked of the system.
#[derive(Debug, PartialEq, Eq)]
pub enum Request<P> {
    /// Nothing is left to do.
    Idle,
    /// Nothing: go on.
    Again,
    /// What is at the path, following symlinks.
    Stat(P),
    /// Watch the inode at the path for the mask.
    Add(P, u32),
    /// Remove the watch of the descriptor.
    Remove(i32),
    /// The first directory of a walk of the directories at and below the path.
    Walk(P),
    /// The next directory of the walk.
    Next,
}

/// What the system answered.
#[derive(Debug)]
pub enum Answer<P> {
    Go,
    Stat(Result<FileStat, i32>),
    /// The descriptor, or the error number; nothing when inotify is closed.
    Added(Option<Result<i32, i32>>),
    Removed(Result<(), i32>),
    /// The directory, if there is one more.
    Entry(Option<P>),
}

impl<P> Answer<P> {
    pub open spec fn stat(self) -> Result<FileStat, i32> {
        match self {
            Answer::Stat(stat) => stat,
            _ => Err(0),
        }
    }

    pub open spec fn added(self) -> Option<Result<i32, i32>> {
        match self {
            Answer::Added(added) => added,
            _ => None,
        }
    }

    pub open spec fn removed(self) -> Result<(), i32> {
        match self {
            Answer::Removed(removed) => removed,
            _ => Ok(()),
        }
    }

    pub open spec fn entry(self) -> Option<P> {
        match self {
            Answer::Entry(entry) => entry,
            _ => None,
        }
    }
}

/// What is done to each of a list of paths.
#[derive(Clone, Copy, Debug, PartialEq, Eq, Structural)]
pub enum Deed {
    /// Its handle goes unless it is needed.
    Release,
    /// Its handle goes.
    Remove,
    /// Its handle is forgotten, as the kernel removed the watch already.
    Unbind,
}

/// A task. `P` is a path, `L` a list of paths to go through, `D` a list of directories, `A` a list
/// of paths to watch, `B` a list of those, `E` an error.
#[derive(Debug)]
pub enum Task<P, L, D, A, B, E> {
    /// Whatever the answer, that is all.
    Heedless,
    /// Ends with an error.
    Fail { error: E },
    /// Ends well.
    Succeed,
    /// Makes the kernel watch the inode of `w` for what its spellings ask for, now that it watches
    /// it for `before`.
    Sync { w: i32, before: u32 },
    SyncThrough { w: i32, mask: u32, rest: L },
    SyncLooked { w: i32, mask: u32, rest: L },
    SyncAdded { w: i32, mask: u32, rest: L },
    /// Watches the path for the mask, besides what it is watched for already.
    Add { path: P, mask: u32, is_file_without_hardlinks: bool },
    Added { path: P, mask: u32 },
    /// Records the handle that inotify returned for the path.
    Record { w: i32, path: P, mask: u32 },
    RecordLooked { w: i32, path: P, mask: u32 },
    /// Changes the mask of the handle at the path.
    SetMask { path: P, mask: u32 },
    SetMaskAdded { path: P, mask: u32, w: i32, before: u32, after: u32 },
    RemoveHandle { path: P },
    Release { path: P },
    Each { deed: Deed, paths: L },
    /// Watches the ancestors of the root that exist, from the one with `n` components down.
    Chain { root: P, n: usize },
    ChainLooked { root: P, n: usize },
    ChainAdded { root: P, n: usize },
    /// Watches a tracked root: its ancestors, and the root itself if it exists.
    ArmRoot { root: P, recursive: bool },
    ArmReached { root: P, recursive: bool },
    ArmLooked { root: P, recursive: bool },
    ArmAdded { state: RootState },
    /// Arms a root, and drops what the arm installed at and below the root when it fails halfway.
    Arm { root: P, recursive: bool },
    ArmEnded { root: P },
    /// Watches the directories at and below the path for everything, and the path for its own
    /// removal too with `watch_self`.
    Walk { path: P, watch_self: bool },
    WalkFound { watch_self: bool, dirs: D },
    WalkAdded { dir: P, dirs: D },
    /// Watches an entry that appeared, under each of its spellings.
    Entry { paths: L, single: A },
    EntryWalked { walked: P, paths: L, single: A },
    /// Binds the directories below the paths to the handles that the walk of another spelling
    /// found.
    Bind { walked: P, dirs: D, paths: L, i: usize },
    Single { single: A },
    SingleAdded { single: A },
    /// The user watches a path.
    AddRoot { path: P, mode: WatchMode },
    AddRootArmed { path: P, mode: WatchMode },
    AddRootLooked { path: P, mode: WatchMode },
    AddRootAdded { path: P, mode: WatchMode, state: RootState },
    Upgrade { path: P, track: bool, recurse: bool },
    UpgradeReached { path: P, recurse: bool },
    UpgradeLooked { path: P },
    UpgradeEnded { path: P, mode: WatchMode, track: bool },
    UpgradeArmed { path: P },
    /// The user watches a path no longer.
    RemoveRoot { path: P },
    ReleaseBelow { path: P },
    ArmAgain { roots: L },
    /// The entities at the paths moved away or are gone.
    DropAll { paths: L, without_os_call: bool },
    Drop { path: P, keep_root: bool, without_os_call: bool },
    DropRoots { path: P, roots: L },
    /// The roots below the paths are out of reach.
    VanishAll { paths: L },
    /// The entries appeared.
    AddAll { entries: B },
    AddAllEnded { entries: B },
    /// The paths are directories again.
    RearmAll { paths: L },
    RearmEach { roots: L },
    RearmEnded { root: P, roots: L },
    /// All watches are removed.
    RemoveAll { paths: L },
    RemoveAllAnswered { paths: L },
}

pub type TaskView = Task<
    Seq<Seq<u8>>,
    Seq<Seq<Seq<u8>>>,
    Seq<Seq<Seq<u8>>>,
    Seq<AddView>,
    Seq<Seq<AddView>>,
    ErrorView,
>;

/// What is reported when a path cannot be watched.
pub open spec fn add_error(errno: i32, p: Seq<Seq<u8>>) -> ErrorView {
    ErrorView::at(
        if errno == ENOSPC {
            ErrorKind::MaxFilesWatch
        } else {
            error::watch_kind(errno)
        },
        p,
    )
}

/// Whether the watch table is full, which stops the adds that follow.
pub open spec fn table_full(outcome: Outcome<ErrorView>) -> bool {
    outcome matches Outcome::Failed(error) && error.kind == ErrorKind::MaxFilesWatch
}

pub open spec fn state_of(stat: FileStat) -> RootState {
    if stat.is_dir {
        RootState::Directory
    } else {
        RootState::File
    }
}

/// The ancestors of `p` with at least `n` components whose handles may go once `p` is no longer
/// tracked, nearest first: those that lead to no other root, and the parent.
pub open spec fn untracked(table: TableView, p: Seq<Seq<u8>>, n: int) -> Seq<Seq<Seq<u8>>>
    decreases p.len() - n,
{
    if n >= p.len() || n < 0 {
        Seq::empty()
    } else {
        let nearer = untracked(table, p, n + 1);
        if n + 1 == p.len() || !table.leads_to_root(p.take(n)) {
            nearer.push(p.take(n))
        } else {
            nearer
        }
    }
}

/// Whether a root does not track its path.
pub open spec fn is_no_track(table: TableView) -> spec_fn(Seq<Seq<u8>>) -> bool {
    |r: Seq<Seq<u8>>| !table.roots[r].mode.tracks_path()
}

/// The NoTrack roots at and below `p`.
pub open spec fn no_track_roots(table: TableView, p: Seq<Seq<u8>>) -> Seq<Seq<Seq<u8>>> {
    path::chosen(path_map::at_and_below(table.roots.dom(), p), is_no_track(table))
}

/// Whether one of the NoTrack roots still needs the handle at `h`: its own, or one below it when
/// it is recursive. A directory root reports its entries through its own handle.
pub open spec fn kept_by_no_track_root(
    table: TableView,
    roots: Seq<Seq<Seq<u8>>>,
    h: Seq<Seq<u8>>,
) -> bool {
    exists|i: int|
        0 <= i < roots.len() && (#[trigger] roots[i] == h || (table.roots.contains_key(roots[i])
            && table.roots[roots[i]].mode.is_recursive() && path::starts_with(h, roots[i])))
}

/// Whether a handle goes when the entity at `p` moved away or is gone.
pub open spec fn is_dropped(table: TableView, p: Seq<Seq<u8>>, keep_root: bool) -> spec_fn(
    Seq<Seq<u8>>,
) -> bool {
    let keeps_root = keep_root && table.roots.contains_key(p) && table.roots[p].state
        != RootState::Missing;
    |h: Seq<Seq<u8>>|
        !(kept_by_no_track_root(table, no_track_roots(table, p), h) || (keeps_root && h == p))
}

/// The handles that go when the entity at `p` moved away or is gone: those at and below it, except
/// the ones a NoTrack root still needs, as NoTrack follows the entity, and with `keep_root` that of
/// a present root at `p`.
pub open spec fn dropped_handles(
    table: TableView,
    p: Seq<Seq<u8>>,
    keep_root: bool,
) -> Seq<Seq<Seq<u8>>> {
    path::chosen(
        path_map::at_and_below(table.handles.dom(), p),
        is_dropped(table, p, keep_root),
    )
}

/// Whether a root is tracked and there.
pub open spec fn is_armed(table: TableView) -> spec_fn(Seq<Seq<u8>>) -> bool {
    |r: Seq<Seq<u8>>|
        table.roots[r].mode.tracks_path() && table.roots[r].state != RootState::Missing
}

/// Whether a path is `root` or below it.
pub open spec fn is_at_or_below(root: Seq<Seq<u8>>) -> spec_fn(Seq<Seq<u8>>) -> bool {
    |p: Seq<Seq<u8>>| path::starts_with(p, root)
}

/// Whether the descriptor of a path was bound to it first.
pub open spec fn is_primary(table: TableView) -> spec_fn(Seq<Seq<u8>>) -> bool {
    |p: Seq<Seq<u8>>| table.spellings(table.handles[p].w)[0] == p
}

/// A root that was there is out of reach.
pub open spec fn vanished(r: ReadingView, root: Seq<Seq<u8>>) -> ReadingView {
    ReadingView {
        table: r.table.in_state(root, RootState::Missing),
        reports: r.reports.push(
            ReportView::Event(
                EventView::new(
                    EventKind::Remove(
                        if r.table.roots.contains_key(root) && r.table.roots[root].state
                            == RootState::Directory {
                            RemoveKind::Folder
                        } else {
                            RemoveKind::File
                        },
                    ),
                ).with_path(root),
            ),
        ),
        ..r
    }
}

/// All of `roots`, which were there, are out of reach.
pub open spec fn all_vanished(r: ReadingView, roots: Seq<Seq<Seq<u8>>>) -> ReadingView
    decreases roots.len(),
{
    if roots.len() == 0 {
        r
    } else {
        vanished(all_vanished(r, roots.drop_last()), roots.last())
    }
}

/// A missing root is present now: it is recorded and reported created.
pub open spec fn note_armed(r: ReadingView, root: Seq<Seq<u8>>, state: RootState) -> ReadingView {
    ReadingView {
        table: r.table.in_state(root, state),
        reports: r.reports.push(
            ReportView::Event(
                EventView::new(
                    EventKind::Create(
                        if state == RootState::Directory {
                            CreateKind::Folder
                        } else {
                            CreateKind::File
                        },
                    ),
                ).with_path(root),
            ),
        ),
        ..r
    }
}

/// The paths that descriptors are bound to first, in their order.
pub open spec fn primaries(table: TableView) -> Seq<Seq<Seq<u8>>> {
    path::chosen(
        path_map::at_and_below(table.handles.dom(), Seq::empty()),
        is_primary(table),
    )
}

/// The paths that are watched recursively.
pub open spec fn recursive_paths(adds: Seq<AddView>) -> Seq<Seq<Seq<u8>>>
    decreases adds.len(),
{
    if adds.len() == 0 {
        Seq::empty()
    } else if adds.last().is_recursive {
        recursive_paths(adds.drop_last()).push(adds.last().path)
    } else {
        recursive_paths(adds.drop_last())
    }
}

/// The paths that are not.
pub open spec fn single_adds(adds: Seq<AddView>) -> Seq<AddView>
    decreases adds.len(),
{
    if adds.len() == 0 {
        Seq::empty()
    } else if adds.last().is_recursive {
        single_adds(adds.drop_last())
    } else {
        single_adds(adds.drop_last()).push(adds.last())
    }
}

/// Whether the task is about the handle of a path.
pub open spec fn is_handle_task(task: TaskView) -> bool {
    match task {
        Task::Heedless => true,
        Task::Fail { .. } => true,
        Task::Succeed => true,
        Task::Sync { .. } => true,
        Task::SyncThrough { .. } => true,
        Task::SyncLooked { .. } => true,
        Task::SyncAdded { .. } => true,
        Task::Add { .. } => true,
        Task::Added { .. } => true,
        Task::Record { .. } => true,
        Task::RecordLooked { .. } => true,
        Task::SetMask { .. } => true,
        Task::SetMaskAdded { .. } => true,
        Task::RemoveHandle { .. } => true,
        Task::Release { .. } => true,
        Task::Each { .. } => true,
        _ => false,
    }
}

/// Whether the task arms a root.
pub open spec fn is_arm_task(task: TaskView) -> bool {
    match task {
        Task::Chain { .. } => true,
        Task::ChainLooked { .. } => true,
        Task::ChainAdded { .. } => true,
        Task::ArmRoot { .. } => true,
        Task::ArmReached { .. } => true,
        Task::ArmLooked { .. } => true,
        Task::ArmAdded { .. } => true,
        Task::Arm { .. } => true,
        Task::ArmEnded { .. } => true,
        _ => false,
    }
}

/// Whether the task watches what is below a path.
pub open spec fn is_walk_task(task: TaskView) -> bool {
    match task {
        Task::Walk { .. } => true,
        Task::WalkFound { .. } => true,
        Task::WalkAdded { .. } => true,
        Task::Entry { .. } => true,
        Task::EntryWalked { .. } => true,
        Task::Bind { .. } => true,
        Task::Single { .. } => true,
        Task::SingleAdded { .. } => true,
        _ => false,
    }
}

/// Whether the task is what the user asked for.
pub open spec fn is_root_task(task: TaskView) -> bool {
    match task {
        Task::AddRoot { .. } => true,
        Task::AddRootArmed { .. } => true,
        Task::AddRootLooked { .. } => true,
        Task::AddRootAdded { .. } => true,
        Task::Upgrade { .. } => true,
        Task::UpgradeReached { .. } => true,
        Task::UpgradeLooked { .. } => true,
        Task::UpgradeEnded { .. } => true,
        Task::UpgradeArmed { .. } => true,
        Task::RemoveRoot { .. } => true,
        Task::ReleaseBelow { .. } => true,
        Task::ArmAgain { .. } => true,
        _ => false,
    }
}

/// Where an event loop stands.
#[verifier::ext_equal]
pub struct LoopView {
    pub reading: ReadingView,
    /// The tasks, the one to go on with last.
    pub tasks: Seq<TaskView>,
    /// How the last task ended.
    pub outcome: Outcome<ErrorView>,
    /// The directories that the last walk watched.
    pub walked: Seq<Seq<Seq<u8>>>,
}

pub type RequestView = Request<Seq<Seq<u8>>>;

pub type AnswerView = Answer<Seq<Seq<u8>>>;

impl LoopView {
    pub open spec fn table(self) -> TableView {
        self.reading.table
    }

    pub open spec fn with_table(self, table: TableView) -> LoopView {
        LoopView { reading: ReadingView { table, ..self.reading }, ..self }
    }

    pub open spec fn push(self, task: TaskView) -> LoopView {
        LoopView { tasks: self.tasks.push(task), ..self }
    }

    /// The task ended, without a request.
    pub open spec fn ended(self, outcome: Outcome<ErrorView>) -> (LoopView, RequestView) {
        (LoopView { outcome, ..self }, Request::Again)
    }

    /// The last outcome is dealt with.
    pub open spec fn taken(self) -> LoopView {
        LoopView { outcome: Outcome::Done, ..self }
    }

    pub open spec fn again(self) -> (LoopView, RequestView) {
        (self, Request::Again)
    }

    pub open spec fn asks(self, request: RequestView) -> (LoopView, RequestView) {
        (self, request)
    }

    // --- the masks of the kernel

    #[verifier::opaque]
    pub open spec fn sync(self, w: i32, before: u32) -> (LoopView, RequestView) {
        let rest = self.table().spellings(w);
        let mask = self.table().kernel_mask(w);
        if rest.len() == 0 {
            self.push(Task::Heedless).asks(Request::Remove(w))
        } else if mask == before {
            self.ended(Outcome::Done)
        } else {
            self.push(Task::SyncThrough { w, mask, rest }).again()
        }
    }

    #[verifier::opaque]
    pub open spec fn sync_through(self, w: i32, mask: u32, rest: Seq<Seq<Seq<u8>>>) -> (
        LoopView,
        RequestView,
    ) {
        if rest.len() == 0 {
            self.ended(Outcome::Done)
        } else {
            self.push(Task::SyncLooked { w, mask, rest }).asks(Request::Stat(rest[0]))
        }
    }

    /// Whether a path that is found like this still leads to the inode that `w` watches.
    pub open spec fn leads_to(self, w: i32, stat: Result<FileStat, i32>) -> bool {
        self.table().bound.contains_key(w) ==> (stat matches Ok(stat) && stat.inode
            == self.table().bound[w].inode)
    }

    #[verifier::opaque]
    pub open spec fn sync_looked(
        self,
        w: i32,
        mask: u32,
        rest: Seq<Seq<Seq<u8>>>,
        answer: AnswerView,
    ) -> (LoopView, RequestView) {
        if rest.len() == 0 {
            self.ended(Outcome::Done)
        } else if self.leads_to(w, answer.stat()) {
            self.push(Task::SyncAdded { w, mask, rest }).asks(Request::Add(rest[0], mask))
        } else {
            self.push(Task::SyncThrough { w, mask, rest: rest.drop_first() }).again()
        }
    }

    #[verifier::opaque]
    pub open spec fn sync_added(
        self,
        w: i32,
        mask: u32,
        rest: Seq<Seq<Seq<u8>>>,
        answer: AnswerView,
    ) -> (LoopView, RequestView) {
        let next = Task::SyncThrough { w, mask, rest: rest.drop_first() };
        match answer.added() {
            None => self.ended(Outcome::Done),
            Some(Ok(other)) => if other == w || rest.len() == 0 {
                self.ended(Outcome::Done)
            } else if self.table().bound.contains_key(other) {
                self.push(next).push(Task::Heedless).asks(
                    Request::Add(rest[0], self.table().kernel_mask(other)),
                )
            } else {
                self.push(next).push(Task::Heedless).asks(Request::Remove(other))
            },
            Some(Err(_)) => if rest.len() == 0 {
                self.ended(Outcome::Done)
            } else {
                self.push(next).again()
            },
        }
    }

    // --- the handles of paths

    #[verifier::opaque]
    pub open spec fn add(self, p: Seq<Seq<u8>>, mask: u32, is_file_without_hardlinks: bool) -> (
        LoopView,
        RequestView,
    ) {
        let existing = self.table().handle_at(p);
        let parent_sees = is_file_without_hardlinks && path::has_parent(p)
            && self.table().handles.contains_key(p.drop_last()) && mask::has(
            self.table().handles[p.drop_last()].mask,
            FULL_MASK,
        );
        let all = match existing {
            Some(handle) => handle.mask | mask,
            None => mask,
        };
        if existing matches Some(handle) && mask::has(handle.mask, mask) {
            self.ended(Outcome::Done)
        } else if parent_sees {
            self.ended(Outcome::Done)
        } else {
            self.push(Task::Added { path: p, mask: all }).asks(Request::Add(p, all | MASK_ADD))
        }
    }

    #[verifier::opaque]
    pub open spec fn added(self, p: Seq<Seq<u8>>, mask: u32, answer: AnswerView) -> (
        LoopView,
        RequestView,
    ) {
        match answer.added() {
            None => self.ended(Outcome::Done),
            Some(Ok(w)) => self.push(Task::Record { w, path: p, mask }).again(),
            Some(Err(errno)) => self.ended(Outcome::Failed(add_error(errno, p))),
        }
    }

    /// `p` is bound to `w`. A handle that it had on another descriptor is stale, and that
    /// descriptor is narrowed down to what its other spellings ask for.
    #[verifier::opaque]
    pub open spec fn bound_to(
        self,
        w: i32,
        p: Seq<Seq<u8>>,
        mask: u32,
        is_dir: bool,
        inode: Inode,
    ) -> (LoopView, RequestView) {
        match self.table().handle_at(p) {
            Some(stale) => self.with_table(
                self.table().unbind(p).bind(w, p, mask, is_dir, inode),
            ).push(
                Task::Sync { w: stale.w, before: self.table().kernel_mask(stale.w) },
            ).again(),
            None => self.with_table(self.table().bind(w, p, mask, is_dir, inode)).ended(
                Outcome::Done,
            ),
        }
    }

    #[verifier::opaque]
    pub open spec fn record(self, w: i32, p: Seq<Seq<u8>>, mask: u32) -> (LoopView, RequestView) {
        if self.table().handle_at(p) matches Some(handle) && handle.w == w {
            self.with_table(self.table().with_mask(p, mask)).ended(Outcome::Done)
        } else if self.table().bound.contains_key(w) {
            self.bound_to(
                w,
                p,
                mask,
                self.table().handles[self.table().spellings(w)[0]].is_dir,
                self.table().bound[w].inode,
            )
        } else {
            self.push(Task::RecordLooked { w, path: p, mask }).asks(Request::Stat(p))
        }
    }

    #[verifier::opaque]
    pub open spec fn record_looked(
        self,
        w: i32,
        p: Seq<Seq<u8>>,
        mask: u32,
        answer: AnswerView,
    ) -> (LoopView, RequestView) {
        match answer.stat() {
            Ok(stat) => self.bound_to(w, p, mask, stat.is_dir, stat.inode),
            Err(errno) => self.push(
                Task::Fail { error: ErrorView::at(ErrorKind::Io(errno), p) },
            ).push(Task::Heedless).asks(Request::Remove(w)),
        }
    }

    #[verifier::opaque]
    pub open spec fn set_mask(self, p: Seq<Seq<u8>>, mask: u32) -> (LoopView, RequestView) {
        match self.table().handle_at(p) {
            None => self.ended(Outcome::Done),
            Some(handle) => {
                let changed = self.with_table(self.table().with_mask(p, mask));
                let after = changed.table().kernel_mask(handle.w);
                if handle.mask == mask {
                    self.ended(Outcome::Done)
                } else if after == self.table().kernel_mask(handle.w) {
                    changed.ended(Outcome::Done)
                } else {
                    changed.push(
                        Task::SetMaskAdded {
                            path: p,
                            mask,
                            w: handle.w,
                            before: handle.mask,
                            after,
                        },
                    ).asks(Request::Add(p, after))
                }
            },
        }
    }

    #[verifier::opaque]
    pub open spec fn set_mask_added(
        self,
        p: Seq<Seq<u8>>,
        mask: u32,
        w: i32,
        before: u32,
        after: u32,
        answer: AnswerView,
    ) -> (LoopView, RequestView) {
        let back = self.with_table(self.table().with_mask(p, before));
        match answer.added() {
            None => self.ended(Outcome::Done),
            Some(Ok(other)) => if other == w {
                self.ended(Outcome::Done)
            } else {
                back.push(Task::Sync { w: other, before: after }).push(
                    Task::Record { w: other, path: p, mask },
                ).again()
            },
            Some(Err(errno)) => if error::absent(errno) {
                back.push(Task::RemoveHandle { path: p }).again()
            } else {
                back.ended(Outcome::Done)
            },
        }
    }

    #[verifier::opaque]
    pub open spec fn remove_handle(self, p: Seq<Seq<u8>>) -> (LoopView, RequestView) {
        match self.table().handle_at(p) {
            None => self.ended(Outcome::Done),
            Some(handle) => self.with_table(self.table().unbind(p)).push(
                Task::Sync { w: handle.w, before: self.table().kernel_mask(handle.w) },
            ).again(),
        }
    }

    #[verifier::opaque]
    pub open spec fn release(self, p: Seq<Seq<u8>>) -> (LoopView, RequestView) {
        if !self.table().handles.contains_key(p) || self.table().is_handle_needed(p) {
            self.ended(Outcome::Done)
        } else if self.table().leads_to_root(p) {
            self.push(Task::SetMask { path: p, mask: self.table().chain_mask(p) }).again()
        } else {
            self.push(Task::RemoveHandle { path: p }).again()
        }
    }

    #[verifier::opaque]
    pub open spec fn each(self, deed: Deed, paths: Seq<Seq<Seq<u8>>>) -> (LoopView, RequestView) {
        if paths.len() == 0 {
            self.ended(Outcome::Done)
        } else {
            let rest = self.push(Task::Each { deed, paths: paths.drop_first() });
            match deed {
                Deed::Release => rest.push(Task::Release { path: paths[0] }).again(),
                Deed::Remove => rest.push(Task::RemoveHandle { path: paths[0] }).again(),
                Deed::Unbind => rest.with_table(self.table().unbind(paths[0])).again(),
            }
        }
    }

    // --- the arm of roots

    #[verifier::opaque]
    pub open spec fn chain(self, root: Seq<Seq<u8>>, n: usize) -> (LoopView, RequestView) {
        if n >= root.len() {
            self.ended(Outcome::Reached(true))
        } else {
            self.push(Task::ChainLooked { root, n }).asks(Request::Stat(root.take(n as int)))
        }
    }

    #[verifier::opaque]
    pub open spec fn chain_looked(self, root: Seq<Seq<u8>>, n: usize, answer: AnswerView) -> (
        LoopView,
        RequestView,
    ) {
        let ancestor = root.take(n as int);
        match answer.stat() {
            _ if n >= root.len() => self.ended(Outcome::Reached(true)),
            Ok(stat) => if stat.is_dir {
                self.push(Task::ChainAdded { root, n }).push(
                    Task::Add {
                        path: ancestor,
                        mask: if n + 1 == root.len() {
                            FULL_MASK
                        } else {
                            ENTRY_MASK
                        },
                        is_file_without_hardlinks: false,
                    },
                ).again()
            } else {
                self.ended(Outcome::Reached(false))
            },
            Err(errno) => if error::absent(errno) {
                self.ended(Outcome::Reached(false))
            } else {
                self.ended(Outcome::Failed(ErrorView::at(ErrorKind::Io(errno), ancestor)))
            },
        }
    }

    /// An ancestor that cannot be watched is passed over, but not the parent.
    #[verifier::opaque]
    pub open spec fn chain_added(self, root: Seq<Seq<u8>>, n: usize) -> (LoopView, RequestView) {
        if n >= root.len() {
            self.ended(Outcome::Reached(true))
        } else if self.outcome is Failed && n + 1 >= root.len() {
            self.again()
        } else {
            self.push(Task::Chain { root, n: (n + 1) as usize }).again()
        }
    }

    #[verifier::opaque]
    pub open spec fn arm_root(self, root: Seq<Seq<u8>>, recursive: bool) -> (
        LoopView,
        RequestView,
    ) {
        self.push(Task::ArmReached { root, recursive }).push(
            Task::Chain { root, n: path::floor(root) as usize },
        ).again()
    }

    #[verifier::opaque]
    pub open spec fn arm_reached(self, root: Seq<Seq<u8>>, recursive: bool) -> (
        LoopView,
        RequestView,
    ) {
        match self.outcome {
            Outcome::Failed(_) => self.again(),
            Outcome::Reached(true) => self.push(Task::ArmLooked { root, recursive }).asks(
                Request::Stat(root),
            ),
            _ => self.ended(Outcome::Armed(RootState::Missing)),
        }
    }

    /// Watches `p`, and what is below it with `recursive`.
    pub open spec fn add_maybe_recursive(
        self,
        p: Seq<Seq<u8>>,
        recursive: bool,
        is_file_without_hardlinks: bool,
        watch_self: bool,
    ) -> LoopView {
        if recursive {
            self.push(Task::Walk { path: p, watch_self })
        } else {
            self.push(
                Task::Add { path: p, mask: everything(watch_self), is_file_without_hardlinks },
            )
        }
    }

    #[verifier::opaque]
    pub open spec fn arm_looked(
        self,
        root: Seq<Seq<u8>>,
        recursive: bool,
        answer: AnswerView,
    ) -> (LoopView, RequestView) {
        match answer.stat() {
            Ok(stat) => self.push(Task::ArmAdded { state: state_of(stat) }).add_maybe_recursive(
                root,
                recursive && stat.is_dir,
                stat.is_single_link(),
                false,
            ).again(),
            Err(errno) => if error::absent(errno) {
                self.ended(Outcome::Armed(RootState::Missing))
            } else {
                self.ended(Outcome::Failed(ErrorView::at(error::watch_kind(errno), root)))
            },
        }
    }

    #[verifier::opaque]
    pub open spec fn arm_added(self, state: RootState) -> (LoopView, RequestView) {
        if self.outcome is Failed {
            self.again()
        } else {
            self.ended(Outcome::Armed(state))
        }
    }

    #[verifier::opaque]
    pub open spec fn arm(self, root: Seq<Seq<u8>>, recursive: bool) -> (LoopView, RequestView) {
        self.with_table(TableView { armed: Some(Seq::empty()), ..self.table() }).push(
            Task::ArmEnded { root },
        ).push(Task::ArmRoot { root, recursive }).again()
    }

    /// A failed arm gives back the handles that it installed at and below the root.
    #[verifier::opaque]
    pub open spec fn arm_ended(self, root: Seq<Seq<u8>>) -> (LoopView, RequestView) {
        let installed = match self.table().armed {
            Some(armed) => armed,
            None => Seq::empty(),
        };
        let over = self.with_table(TableView { armed: None, ..self.table() });
        match self.outcome {
            Outcome::Failed(error) => over.taken().push(Task::Fail { error }).push(
                Task::Each {
                    deed: Deed::Remove,
                    paths: path::chosen(installed, is_at_or_below(root)),
                },
            ).again(),
            _ => over.again(),
        }
    }

    // --- walks and entries

    #[verifier::opaque]
    pub open spec fn walk(self, p: Seq<Seq<u8>>, watch_self: bool) -> (LoopView, RequestView) {
        self.push(Task::WalkFound { watch_self, dirs: Seq::empty() }).asks(Request::Walk(p))
    }

    #[verifier::opaque]
    pub open spec fn walk_found(
        self,
        watch_self: bool,
        dirs: Seq<Seq<Seq<u8>>>,
        answer: AnswerView,
    ) -> (LoopView, RequestView) {
        match answer.entry() {
            Some(dir) => self.push(Task::WalkAdded { dir, dirs }).push(
                Task::Add {
                    path: dir,
                    mask: everything(watch_self),
                    is_file_without_hardlinks: false,
                },
            ).again(),
            None => (LoopView { walked: dirs, ..self }).ended(Outcome::Done),
        }
    }

    #[verifier::opaque]
    pub open spec fn walk_added(self, dir: Seq<Seq<u8>>, dirs: Seq<Seq<Seq<u8>>>) -> (
        LoopView,
        RequestView,
    ) {
        if self.outcome is Failed {
            (LoopView { walked: dirs, ..self }).again()
        } else {
            self.push(Task::WalkFound { watch_self: false, dirs: dirs.push(dir) }).asks(
                Request::Next,
            )
        }
    }

    #[verifier::opaque]
    pub open spec fn entry(self, paths: Seq<Seq<Seq<u8>>>, single: Seq<AddView>) -> (
        LoopView,
        RequestView,
    ) {
        if paths.len() == 0 {
            self.push(Task::Single { single }).again()
        } else {
            self.push(
                Task::EntryWalked { walked: paths[0], paths: paths.drop_first(), single },
            ).push(Task::Walk { path: paths[0], watch_self: false }).again()
        }
    }

    /// The other spellings are bound to what the walk found; a full watch table stops the entry.
    #[verifier::opaque]
    pub open spec fn entry_walked(
        self,
        walked: Seq<Seq<u8>>,
        paths: Seq<Seq<Seq<u8>>>,
        single: Seq<AddView>,
    ) -> (LoopView, RequestView) {
        let next = match self.outcome {
            Outcome::Failed(error) => if table_full(self.outcome) {
                Task::Fail { error }
            } else {
                Task::Single { single }
            },
            _ => Task::Single { single },
        };
        (LoopView { walked: Seq::empty(), ..self.taken() }).push(next).push(
            Task::Bind { walked, dirs: self.walked, paths, i: 0 },
        ).again()
    }

    #[verifier::opaque]
    pub open spec fn bind(
        self,
        walked: Seq<Seq<u8>>,
        dirs: Seq<Seq<Seq<u8>>>,
        paths: Seq<Seq<Seq<u8>>>,
        i: usize,
    ) -> (LoopView, RequestView) {
        if paths.len() == 0 {
            self.ended(Outcome::Done)
        } else if i >= dirs.len() {
            self.push(Task::Bind { walked, dirs, paths: paths.drop_first(), i: 0 }).again()
        } else {
            let next = self.push(Task::Bind { walked, dirs, paths, i: (i + 1) as usize });
            let dir = dirs[i as int];
            if !path::starts_with(dir, walked) || !self.table().handles.contains_key(dir) {
                next.again()
            } else {
                let w = self.table().handles[dir].w;
                next.bind_walked(w, paths[0] + dir.skip(walked.len() as int)).again()
            }
        }
    }

    /// Binds `p` to `w`, whose inode the kernel watches for everything already. A handle of its
    /// own that asks for more than that goes through an add.
    pub open spec fn bind_walked(self, w: i32, p: Seq<Seq<u8>>) -> LoopView {
        let existing = self.table().handle_at(p);
        let mask = match existing {
            Some(handle) => handle.mask | FULL_MASK,
            None => FULL_MASK,
        };
        if existing matches Some(handle) && mask::has(handle.mask, FULL_MASK) {
            self
        } else if mask::has(self.table().kernel_mask(w), mask) {
            self.push(Task::Record { w, path: p, mask })
        } else {
            self.push(Task::Add { path: p, mask: FULL_MASK, is_file_without_hardlinks: false })
        }
    }

    #[verifier::opaque]
    pub open spec fn single(self, single: Seq<AddView>) -> (LoopView, RequestView) {
        if single.len() == 0 {
            self.ended(Outcome::Done)
        } else {
            self.push(Task::SingleAdded { single: single.drop_first() }).push(
                Task::Add {
                    path: single[0].path,
                    mask: FULL_MASK,
                    is_file_without_hardlinks: single[0].is_file_without_hardlinks,
                },
            ).again()
        }
    }

    #[verifier::opaque]
    pub open spec fn single_added(self, single: Seq<AddView>) -> (LoopView, RequestView) {
        if table_full(self.outcome) {
            self.again()
        } else {
            self.push(Task::Single { single }).again()
        }
    }

    // --- what the user asks for

    #[verifier::opaque]
    pub open spec fn add_root(self, p: Seq<Seq<u8>>, mode: WatchMode) -> (LoopView, RequestView) {
        if self.table().roots.contains_key(p) {
            let existing = self.table().roots[p];
            let track = mode.tracks_path() && !existing.mode.tracks_path();
            let recurse = mode.is_recursive() && !existing.mode.is_recursive() && existing.state
                != RootState::Missing;
            self.push(Task::UpgradeEnded { path: p, mode, track }).push(
                Task::Upgrade { path: p, track, recurse },
            ).again()
        } else if mode.tracks_path() {
            self.push(Task::AddRootArmed { path: p, mode }).push(
                Task::Arm { root: p, recursive: mode.is_recursive() },
            ).again()
        } else {
            self.push(Task::AddRootLooked { path: p, mode }).asks(Request::Stat(p))
        }
    }

    /// A root that cannot be armed is not watched, and the chain that the arm added is released.
    #[verifier::opaque]
    pub open spec fn add_root_armed(self, p: Seq<Seq<u8>>, mode: WatchMode) -> (
        LoopView,
        RequestView,
    ) {
        match self.outcome {
            Outcome::Failed(error) => self.taken().push(Task::Fail { error }).push(
                Task::Each {
                    deed: Deed::Release,
                    paths: untracked(self.table(), p, path::floor(p)),
                },
            ).again(),
            _ => self.with_table(
                self.table().with_root(p, RootWatch { mode, state: self.outcome.state() }),
            ).ended(Outcome::Done),
        }
    }

    #[verifier::opaque]
    pub open spec fn add_root_looked(
        self,
        p: Seq<Seq<u8>>,
        mode: WatchMode,
        answer: AnswerView,
    ) -> (LoopView, RequestView) {
        match answer.stat() {
            Ok(stat) => self.push(
                Task::AddRootAdded { path: p, mode, state: state_of(stat) },
            ).add_maybe_recursive(
                p,
                mode.is_recursive() && stat.is_dir,
                stat.is_single_link(),
                true,
            ).again(),
            Err(errno) => self.ended(Outcome::Failed(ErrorView::new(error::watch_kind(errno)))),
        }
    }

    #[verifier::opaque]
    pub open spec fn add_root_added(
        self,
        p: Seq<Seq<u8>>,
        mode: WatchMode,
        state: RootState,
    ) -> (LoopView, RequestView) {
        if self.outcome is Failed {
            self.again()
        } else {
            self.with_table(self.table().with_root(p, RootWatch { mode, state })).ended(
                Outcome::Done,
            )
        }
    }

    #[verifier::opaque]
    pub open spec fn upgrade(self, p: Seq<Seq<u8>>, track: bool, recurse: bool) -> (
        LoopView,
        RequestView,
    ) {
        let next = (LoopView { outcome: Outcome::Done, ..self }).push(
            Task::UpgradeReached { path: p, recurse },
        );
        if track {
            next.push(Task::Chain { root: p, n: path::floor(p) as usize }).again()
        } else {
            next.again()
        }
    }

    #[verifier::opaque]
    pub open spec fn upgrade_reached(self, p: Seq<Seq<u8>>, recurse: bool) -> (
        LoopView,
        RequestView,
    ) {
        if self.outcome is Failed {
            self.again()
        } else if recurse {
            self.push(Task::UpgradeLooked { path: p }).asks(Request::Stat(p))
        } else {
            self.ended(Outcome::Done)
        }
    }

    #[verifier::opaque]
    pub open spec fn upgrade_looked(self, p: Seq<Seq<u8>>, answer: AnswerView) -> (
        LoopView,
        RequestView,
    ) {
        match answer.stat() {
            Ok(stat) => if stat.is_dir {
                self.push(Task::Walk { path: p, watch_self: true }).again()
            } else {
                self.ended(Outcome::Done)
            },
            Err(errno) => self.ended(Outcome::Failed(ErrorView::new(ErrorKind::Io(errno)))),
        }
    }

    /// A tracked root that could not be armed when it was last seen gets another try, so that
    /// watching it again is the way to recover from a failed arm.
    #[verifier::opaque]
    pub open spec fn upgrade_ended(self, p: Seq<Seq<u8>>, mode: WatchMode, track: bool) -> (
        LoopView,
        RequestView,
    ) {
        match self.outcome {
            Outcome::Failed(error) => if track {
                self.taken().push(Task::Fail { error }).push(
                    Task::Each {
                        deed: Deed::Release,
                        paths: untracked(self.table(), p, path::floor(p)),
                    },
                ).again()
            } else {
                self.again()
            },
            _ => if self.table().roots.contains_key(p) {
                let root = self.table().roots[p];
                let both = RootWatch { mode: WatchMode::both(root.mode, mode), ..root };
                let upgraded = self.with_table(self.table().with_root(p, both));
                if both.mode.tracks_path() && both.state == RootState::Missing {
                    upgraded.push(Task::UpgradeArmed { path: p }).push(
                        Task::Arm { root: p, recursive: both.mode.is_recursive() },
                    ).again()
                } else {
                    upgraded.ended(Outcome::Done)
                }
            } else {
                self.ended(Outcome::Done)
            },
        }
    }

    #[verifier::opaque]
    pub open spec fn upgrade_armed(self, p: Seq<Seq<u8>>) -> (LoopView, RequestView) {
        if self.outcome is Failed {
            self.again()
        } else if self.outcome.state() == RootState::Missing {
            self.ended(Outcome::Done)
        } else {
            (LoopView {
                reading: note_armed(self.reading, p, self.outcome.state()),
                ..self
            }).ended(Outcome::Done)
        }
    }

    /// The handles the other roots still need stay: a handle that other tracked roots count as an
    /// ancestor becomes a chain handle, and the tracked roots below a recursive root are armed
    /// again, in case the walk took a handle of theirs.
    #[verifier::opaque]
    pub open spec fn remove_root(self, p: Seq<Seq<u8>>) -> (LoopView, RequestView) {
        if !self.table().roots.contains_key(p) {
            self.ended(Outcome::Failed(ErrorView::at(ErrorKind::WatchNotFound, p)))
        } else {
            let root = self.table().roots[p];
            let removed = self.with_table(self.table().without_root(p));
            let last = removed.push(Task::Succeed);
            let last = if path::has_parent(p) && !self.table().handles.contains_key(p) {
                last.push(Task::Release { path: p.drop_last() })
            } else {
                last
            };
            let last = if root.mode.tracks_path() {
                last.push(
                    Task::Each {
                        deed: Deed::Release,
                        paths: untracked(removed.table(), p, path::floor(p)),
                    },
                )
            } else {
                last
            };
            if root.mode.is_recursive() {
                last.push(Task::ReleaseBelow { path: p }).again()
            } else {
                last.push(Task::Release { path: p }).again()
            }
        }
    }

    #[verifier::opaque]
    pub open spec fn release_below(self, p: Seq<Seq<u8>>) -> (LoopView, RequestView) {
        self.push(
            Task::ArmAgain {
                roots: path::chosen(
                    path_map::at_and_below(self.table().roots.dom(), p),
                    is_armed(self.table()),
                ),
            },
        ).push(
            Task::Each {
                deed: Deed::Release,
                paths: path_map::at_and_below(self.table().handles.dom(), p),
            },
        ).again()
    }

    /// Arms the roots again, each whatever became of the one before.
    #[verifier::opaque]
    pub open spec fn arm_again(self, roots: Seq<Seq<Seq<u8>>>) -> (LoopView, RequestView) {
        if roots.len() == 0 {
            self.ended(Outcome::Done)
        } else {
            let next = self.push(Task::ArmAgain { roots: roots.drop_first() });
            if self.table().roots.contains_key(roots[0]) {
                next.push(
                    Task::ArmRoot {
                        root: roots[0],
                        recursive: self.table().roots[roots[0]].mode.is_recursive(),
                    },
                ).again()
            } else {
                next.again()
            }
        }
    }

    // --- what the events of a read ask for

    #[verifier::opaque]
    pub open spec fn drop_all(self, paths: Seq<Seq<Seq<u8>>>, without_os_call: bool) -> (
        LoopView,
        RequestView,
    ) {
        if paths.len() == 0 {
            self.ended(Outcome::Done)
        } else {
            let p = paths[0];
            let forgotten = if self.table().roots.contains_key(p)
                && !self.table().roots[p].mode.tracks_path() {
                self.with_table(self.table().without_root(p))
            } else {
                self
            };
            forgotten.push(Task::DropAll { paths: paths.drop_first(), without_os_call }).push(
                Task::Drop { path: p, keep_root: false, without_os_call },
            ).again()
        }
    }

    #[verifier::opaque]
    pub open spec fn drop(self, p: Seq<Seq<u8>>, keep_root: bool, without_os_call: bool) -> (
        LoopView,
        RequestView,
    ) {
        self.push(Task::DropRoots { path: p, roots: no_track_roots(self.table(), p) }).push(
            Task::Each {
                deed: if without_os_call {
                    Deed::Unbind
                } else {
                    Deed::Remove
                },
                paths: dropped_handles(self.table(), p, keep_root),
            },
        ).again()
    }

    /// A NoTrack file that its parent reported, having no handle of its own, cannot follow the
    /// entity: the root is dropped and reported removed.
    #[verifier::opaque]
    pub open spec fn drop_roots(self, p: Seq<Seq<u8>>, roots: Seq<Seq<Seq<u8>>>) -> (
        LoopView,
        RequestView,
    ) {
        if roots.len() == 0 {
            self.ended(Outcome::Done)
        } else {
            let r = roots[0];
            let next = self.push(Task::DropRoots { path: p, roots: roots.drop_first() });
            let stays = r == p || self.table().handles.contains_key(r) || (path::has_parent(r)
                && self.table().handles.contains_key(r.drop_last()));
            if stays || !self.table().roots.contains_key(r) {
                next.again()
            } else {
                let removed = next.with_table(self.table().without_root(r));
                if self.table().roots[r].state == RootState::Missing {
                    removed.again()
                } else {
                    removed.reporting(
                        ReportView::Event(
                            EventView::new(EventKind::Remove(RemoveKind::File)).with_path(r),
                        ),
                    ).again()
                }
            }
        }
    }

    pub open spec fn reporting(self, report: ReportView) -> LoopView {
        LoopView {
            reading: ReadingView { reports: self.reading.reports.push(report), ..self.reading },
            ..self
        }
    }

    #[verifier::opaque]
    pub open spec fn vanish_all(self, paths: Seq<Seq<Seq<u8>>>) -> (LoopView, RequestView) {
        if paths.len() == 0 {
            self.ended(Outcome::Done)
        } else {
            (LoopView {
                reading: all_vanished(
                    self.reading,
                    root::tracked_roots_below(self.table().roots, paths[0], false),
                ),
                ..self
            }).push(Task::VanishAll { paths: paths.drop_first() }).push(
                Task::Drop { path: paths[0], keep_root: true, without_os_call: false },
            ).again()
        }
    }

    #[verifier::opaque]
    pub open spec fn add_all(self, entries: Seq<Seq<AddView>>) -> (LoopView, RequestView) {
        if entries.len() == 0 {
            self.ended(Outcome::Done)
        } else {
            self.push(Task::AddAllEnded { entries: entries.drop_first() }).push(
                Task::Entry {
                    paths: recursive_paths(entries[0]),
                    single: single_adds(entries[0]),
                },
            ).again()
        }
    }

    /// A full watch table is reported, and stops the entries that follow.
    #[verifier::opaque]
    pub open spec fn add_all_ended(self, entries: Seq<Seq<AddView>>) -> (LoopView, RequestView) {
        match self.outcome {
            Outcome::Failed(error) => if table_full(self.outcome) {
                self.reporting(ReportView::Error(error)).ended(Outcome::Done)
            } else {
                self.push(Task::AddAll { entries }).again()
            },
            _ => self.push(Task::AddAll { entries }).again(),
        }
    }

    #[verifier::opaque]
    pub open spec fn rearm_all(self, paths: Seq<Seq<Seq<u8>>>) -> (LoopView, RequestView) {
        if paths.len() == 0 {
            self.ended(Outcome::Done)
        } else {
            self.push(Task::RearmAll { paths: paths.drop_first() }).push(
                Task::RearmEach { roots: root::tracked_roots_below(self.table().roots, paths[0], true) },
            ).again()
        }
    }

    #[verifier::opaque]
    pub open spec fn rearm_each(self, roots: Seq<Seq<Seq<u8>>>) -> (LoopView, RequestView) {
        if roots.len() == 0 {
            self.ended(Outcome::Done)
        } else if self.table().roots.contains_key(roots[0]) {
            self.push(Task::RearmEnded { root: roots[0], roots: roots.drop_first() }).push(
                Task::Arm {
                    root: roots[0],
                    recursive: self.table().roots[roots[0]].mode.is_recursive(),
                },
            ).again()
        } else {
            self.push(Task::RearmEach { roots: roots.drop_first() }).again()
        }
    }

    /// Each root that cannot be armed is reported with an error of its own, naming it, and stays
    /// missing. A full watch table does not stop the other roots.
    #[verifier::opaque]
    pub open spec fn rearm_ended(self, root: Seq<Seq<u8>>, roots: Seq<Seq<Seq<u8>>>) -> (
        LoopView,
        RequestView,
    ) {
        let next = self.push(Task::RearmEach { roots });
        match self.outcome {
            Outcome::Armed(state) => if state == RootState::Missing {
                next.again()
            } else {
                (LoopView { reading: note_armed(self.reading, root, state), ..next }).again()
            },
            Outcome::Failed(error) => next.taken().reporting(
                ReportView::Error(
                    if error.paths.contains(root) {
                        error
                    } else {
                        error.with_path(root)
                    },
                ),
            ).again(),
            _ => next.again(),
        }
    }

    // --- the end

    #[verifier::opaque]
    pub open spec fn remove_all(self, paths: Seq<Seq<Seq<u8>>>) -> (LoopView, RequestView) {
        if paths.len() == 0 {
            self.with_table(
                TableView { armed: self.table().armed, ..TableView::new() },
            ).ended(Outcome::Done)
        } else if self.table().handles.contains_key(paths[0]) {
            self.push(Task::RemoveAllAnswered { paths }).asks(
                Request::Remove(self.table().handles[paths[0]].w),
            )
        } else {
            self.push(Task::RemoveAll { paths: paths.drop_first() }).again()
        }
    }

    #[verifier::opaque]
    pub open spec fn remove_all_answered(
        self,
        paths: Seq<Seq<Seq<u8>>>,
        answer: AnswerView,
    ) -> (LoopView, RequestView) {
        match answer.removed() {
            _ if paths.len() == 0 => self.ended(Outcome::Done),
            Ok(()) => self.push(Task::RemoveAll { paths: paths.drop_first() }).again(),
            Err(errno) => self.ended(
                Outcome::Failed(ErrorView::at(ErrorKind::Io(errno), paths[0])),
            ),
        }
    }
}

/// What a watch asks for: everything, and with `watch_self` what becomes of the path itself.
pub open spec fn everything(watch_self: bool) -> u32 {
    if watch_self {
        FULL_MASK | SELF_MASK
    } else {
        FULL_MASK
    }
}

impl LoopView {
    /// The task that is gone on with, taken off.
    pub open spec fn popped(self) -> LoopView {
        LoopView { tasks: self.tasks.drop_last(), ..self }
    }

    /// The next step: what the answer to the last request leads to, and what is asked next.
    pub open spec fn step(self, answer: AnswerView) -> (LoopView, RequestView) {
        if self.tasks.len() == 0 {
            (self, Request::Idle)
        } else {
            self.popped().go_on(self.tasks.last(), answer)
        }
    }

    /// Goes on with `task`, which is taken off.
    pub open spec fn go_on(self, task: TaskView, answer: AnswerView) -> (LoopView, RequestView) {
        if is_handle_task(task) {
            self.go_on_handle(task, answer)
        } else if is_arm_task(task) {
            self.go_on_arm(task, answer)
        } else if is_walk_task(task) {
            self.go_on_walk(task, answer)
        } else if is_root_task(task) {
            self.go_on_root(task, answer)
        } else {
            self.go_on_change(task, answer)
        }
    }

    /// [`LoopView::go_on`] for a task of one kind.
    pub open spec fn go_on_handle(self, task: TaskView, answer: AnswerView) -> (
        LoopView,
        RequestView,
    ) {
        match task {
            Task::Heedless => self.ended(Outcome::Done),
            Task::Fail { error } => self.ended(Outcome::Failed(error)),
            Task::Succeed => self.ended(Outcome::Done),
            Task::Sync { w, before } => self.sync(w, before),
            Task::SyncThrough { w, mask, rest } => self.sync_through(w, mask, rest),
            Task::SyncLooked { w, mask, rest } => self.sync_looked(w, mask, rest, answer),
            Task::SyncAdded { w, mask, rest } => self.sync_added(w, mask, rest, answer),
            Task::Add { path, mask, is_file_without_hardlinks } => self.add(
                path,
                mask,
                is_file_without_hardlinks,
            ),
            Task::Added { path, mask } => self.added(path, mask, answer),
            Task::Record { w, path, mask } => self.record(w, path, mask),
            Task::RecordLooked { w, path, mask } => self.record_looked(w, path, mask, answer),
            Task::SetMask { path, mask } => self.set_mask(path, mask),
            Task::SetMaskAdded { path, mask, w, before, after } => self.set_mask_added(
                path,
                mask,
                w,
                before,
                after,
                answer,
            ),
            Task::RemoveHandle { path } => self.remove_handle(path),
            Task::Release { path } => self.release(path),
            Task::Each { deed, paths } => self.each(deed, paths),
            _ => self.again(),
        }
    }

    /// [`LoopView::go_on`] for a task of one kind.
    pub open spec fn go_on_arm(self, task: TaskView, answer: AnswerView) -> (
        LoopView,
        RequestView,
    ) {
        match task {
            Task::Chain { root, n } => self.chain(root, n),
            Task::ChainLooked { root, n } => self.chain_looked(root, n, answer),
            Task::ChainAdded { root, n } => self.chain_added(root, n),
            Task::ArmRoot { root, recursive } => self.arm_root(root, recursive),
            Task::ArmReached { root, recursive } => self.arm_reached(root, recursive),
            Task::ArmLooked { root, recursive } => self.arm_looked(root, recursive, answer),
            Task::ArmAdded { state } => self.arm_added(state),
            Task::Arm { root, recursive } => self.arm(root, recursive),
            Task::ArmEnded { root } => self.arm_ended(root),
            _ => self.again(),
        }
    }

    /// [`LoopView::go_on`] for a task of one kind.
    pub open spec fn go_on_walk(self, task: TaskView, answer: AnswerView) -> (
        LoopView,
        RequestView,
    ) {
        match task {
            Task::Walk { path, watch_self } => self.walk(path, watch_self),
            Task::WalkFound { watch_self, dirs } => self.walk_found(watch_self, dirs, answer),
            Task::WalkAdded { dir, dirs } => self.walk_added(dir, dirs),
            Task::Entry { paths, single } => self.entry(paths, single),
            Task::EntryWalked { walked, paths, single } => self.entry_walked(
                walked,
                paths,
                single,
            ),
            Task::Bind { walked, dirs, paths, i } => self.bind(walked, dirs, paths, i),
            Task::Single { single } => self.single(single),
            Task::SingleAdded { single } => self.single_added(single),
            _ => self.again(),
        }
    }

    /// [`LoopView::go_on`] for a task of one kind.
    pub open spec fn go_on_root(self, task: TaskView, answer: AnswerView) -> (
        LoopView,
        RequestView,
    ) {
        match task {
            Task::AddRoot { path, mode } => self.add_root(path, mode),
            Task::AddRootArmed { path, mode } => self.add_root_armed(path, mode),
            Task::AddRootLooked { path, mode } => self.add_root_looked(path, mode, answer),
            Task::AddRootAdded { path, mode, state } => self.add_root_added(path, mode, state),
            Task::Upgrade { path, track, recurse } => self.upgrade(path, track, recurse),
            Task::UpgradeReached { path, recurse } => self.upgrade_reached(path, recurse),
            Task::UpgradeLooked { path } => self.upgrade_looked(path, answer),
            Task::UpgradeEnded { path, mode, track } => self.upgrade_ended(path, mode, track),
            Task::UpgradeArmed { path } => self.upgrade_armed(path),
            Task::RemoveRoot { path } => self.remove_root(path),
            Task::ReleaseBelow { path } => self.release_below(path),
            Task::ArmAgain { roots } => self.arm_again(roots),
            _ => self.again(),
        }
    }

    /// [`LoopView::go_on`] for a task of one kind.
    pub open spec fn go_on_change(self, task: TaskView, answer: AnswerView) -> (
        LoopView,
        RequestView,
    ) {
        match task {
            Task::DropAll { paths, without_os_call } => self.drop_all(paths, without_os_call),
            Task::Drop { path, keep_root, without_os_call } => self.drop(
                path,
                keep_root,
                without_os_call,
            ),
            Task::DropRoots { path, roots } => self.drop_roots(path, roots),
            Task::VanishAll { paths } => self.vanish_all(paths),
            Task::AddAll { entries } => self.add_all(entries),
            Task::AddAllEnded { entries } => self.add_all_ended(entries),
            Task::RearmAll { paths } => self.rearm_all(paths),
            Task::RearmEach { roots } => self.rearm_each(roots),
            Task::RearmEnded { root, roots } => self.rearm_ended(root, roots),
            Task::RemoveAll { paths } => self.remove_all(paths),
            Task::RemoveAllAnswered { paths } => self.remove_all_answered(paths, answer),
            _ => self.again(),
        }
    }

    /// What the events of a read asked for is to be done. The kernel dropped the ignored watches, as
    /// their inodes are gone: the handles are dead, and must not pass for live ones when their paths
    /// are armed again.
    pub open spec fn process(self) -> LoopView {
        let changes = self.reading.changes;
        (LoopView {
            reading: ReadingView {
                table: all_unbound(self.table(), changes.ignored),
                changes: ChangesView::new(),
                ..self.reading
            },
            ..self
        }).push(Task::RearmAll { paths: changes.appeared }).push(
            Task::AddAll { entries: changes.add_watches },
        ).push(Task::VanishAll { paths: changes.vanished }).push(
            Task::DropAll { paths: changes.remove_watches, without_os_call: false },
        ).push(
            Task::DropAll { paths: changes.remove_watches_no_syscall, without_os_call: true },
        )
    }
}

/// None of `ws` is known any more.
pub open spec fn all_unbound(table: TableView, ws: Seq<i32>) -> TableView
    decreases ws.len(),
{
    if ws.len() == 0 {
        table
    } else {
        all_unbound(table, ws.drop_last()).unbind_all(ws.last())
    }
}

} // verus!
