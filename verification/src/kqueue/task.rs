//! What is left to do, one step at a time: every call of the system is asked for, and its answer
//! decides what comes next.

use crate::config::{TargetMode, WatchMode};
use crate::error;
use crate::error::{ErrorKind, ErrorView, ENOENT};
use crate::event::{
    CreateKind, DataChange, EventKind, EventView, MetadataKind, ModifyKind, RemoveKind, RenameMode,
};
use crate::outcome::Outcome;
use crate::path;
use crate::path_map;
use crate::report::ReportView;
use crate::root;
use crate::root::{RootState, RootWatch};
use vstd::prelude::*;

verus! {

/// What happened to the entity behind a handle.
#[derive(Clone, Copy, Debug, PartialEq, Eq, Structural)]
pub enum Vnode {
    Delete,
    Write,
    Extend,
    Truncate,
    Attrib,
    Link,
    Rename,
    Revoke,
    Other,
}

/// What the disk says of a path that is there.
#[derive(Clone, Copy, Debug, PartialEq, Eq, Structural)]
pub struct PathStat {
    pub is_dir: bool,
    pub is_file: bool,
}

/// Why a walk could not go on.
#[derive(Debug)]
pub enum WalkError<P> {
    /// A call of the operating system failed, at the path if one is known.
    Io { errno: i32, path: Option<P> },
    /// A link leads back to a directory above it, in words.
    Loop { message: String },
}

/// What is asked of the system.
#[derive(Debug, PartialEq, Eq)]
pub enum Request<P> {
    /// Nothing is left to do.
    Idle,
    /// Nothing: go on.
    Again,
    /// What is at the path, following symlinks.
    Stat(P),
    /// The entries of the directory.
    List(P),
    /// The first path of a walk of everything at and below the path.
    Walk(P),
    /// The next path of the walk.
    Next,
    /// Open a handle at the path.
    Add(P),
    /// Close the handle at the path.
    Remove(P),
    /// Register the handles opened and closed.
    Register,
}

/// What the system answered.
#[derive(Debug)]
pub enum Answer<P, L> {
    Go,
    Stat(Result<PathStat, i32>),
    List(Result<L, i32>),
    Walked(Option<Result<P, WalkError<P>>>),
    /// To an add, a remove or a registration.
    Did(Result<(), i32>),
}

pub type RequestView = Request<Seq<Seq<u8>>>;

pub type AnswerView = Answer<Seq<Seq<u8>>, Seq<Seq<Seq<u8>>>>;

impl<P, L> Answer<P, L> {
    pub open spec fn stat(self) -> Result<PathStat, i32> {
        match self {
            Answer::Stat(stat) => stat,
            _ => Err(0),
        }
    }

    pub open spec fn list(self) -> Result<L, i32> {
        match self {
            Answer::List(list) => list,
            _ => Err(0),
        }
    }

    pub open spec fn walked(self) -> Option<Result<P, WalkError<P>>> {
        match self {
            Answer::Walked(walked) => walked,
            _ => None,
        }
    }

    pub open spec fn did(self) -> Result<(), i32> {
        match self {
            Answer::Did(did) => did,
            _ => Ok(()),
        }
    }
}

/// A task. `P` is a path, `L` a list of paths to go through, `M` the handles of some paths, `W` a
/// list of paths to watch with their modes, `E` an error.
#[derive(Debug)]
pub enum Task<P, L, M, W, E> {
    /// Ends with an error.
    Fail { error: E },
    /// Opens a handle at the path.
    AddSingle { path: P, chain: bool },
    AddSingleAnswered { path: P, chain: bool },
    /// Closes the handle at the path.
    RemoveSingle { path: P },
    RemoveAnswered { path: P },
    RemoveEach { paths: L },
    /// Closes the handle at the path unless a root needs it.
    ReleaseHandle { path: P },
    ReleaseEach { paths: L },
    /// Watches a path: the tree below it, a directory and its entries, or the path alone.
    Watch { path: P, recursive: bool, is_dir: bool },
    DirAdded { path: P },
    DirListed,
    AddEach { paths: L },
    AddEachAdded { paths: L },
    WalkFound,
    WalkAdded,
    /// Watches the ancestors of the root that exist, from the one with `n` components down.
    Chain { root: P, n: usize },
    ChainLooked { root: P, n: usize },
    ChainAdded { root: P, n: usize },
    /// Watches a tracked root: its ancestors, and the root itself if it exists.
    ArmRoot { root: P, recursive: bool },
    ArmReached { root: P, recursive: bool },
    ArmLooked { root: P, recursive: bool },
    ArmAdded { state: RootState },
    /// Arms a root, and undoes what the arm did to the handles when it fails halfway.
    Arm { root: P, recursive: bool },
    ArmEnded { root: P, before: M },
    Restore { before: M },
    /// Arms a missing tracked root again.
    Rearm { root: P },
    RearmEnded { root: P },
    RearmEach { roots: L },
    /// The path was just found a directory again.
    RearmBelow { path: P },
    /// The roots below the path are out of reach.
    VanishBelow { path: P },
    VanishEach { paths: L },
    /// The handles at and below the path, which is gone, are closed.
    DropBelow { path: P },
    DropEach { paths: L },
    /// An ancestor of tracked roots is looked at.
    CheckAncestor { path: P },
    CheckLooked { path: P },
    CheckEach { paths: L },
    CheckChainEach { paths: L },
    /// An ancestor that an arm found present again is looked at once more.
    Recheck { path: P },
    RecheckLooked { path: P },
    RecheckEach { paths: L },
    /// The handles are registered, and the roots found present are reported.
    Register,
    RegisterKevents,
    RegisterAnswered,
    RegisterRearmed,
    RegisterRound,
    Flush,
    /// The user watches a path, or several.
    AddRoot { path: P, mode: WatchMode },
    AddRoots { wanted: W },
    AddInnerEach { wanted: W },
    AddInnerEnded { wanted: W },
    AddRegister,
    Fallback { error: E },
    AddInner { path: P, mode: WatchMode },
    AddRootArmed { path: P, mode: WatchMode },
    AddRootLooked { path: P, mode: WatchMode },
    AddRootAdded { path: P, mode: WatchMode, state: RootState },
    UpgradeReached { path: P, mode: WatchMode, recurse: bool },
    Upgrade { path: P, mode: WatchMode, recurse: bool },
    UpgradeLooked { path: P, mode: WatchMode },
    UpgradeAdded { path: P, mode: WatchMode },
    UpgradeArmed { path: P },
    /// The ancestors lead to no tracked root any more.
    UntrackEach { paths: L },
    /// The user watches a path no longer.
    RemoveRoot { path: P },
    RemoveRootReleased { path: P, tracks: bool },
    /// Something happened to the entity behind the handle at the path.
    Happened { vnode: Vnode, path: P },
    DeleteLooked { path: P },
    WriteLooked { path: P },
    Listed { path: P },
    Scan { path: P, files: L, found: bool },
    ScanLooked { path: P, file: P, files: L },
    /// The batch of events is read.
    StaleEach { paths: L },
    AddAll { paths: L },
    AddAllEnded { path: P, paths: L },
    BatchEnded,
}

/// A path to watch, and how.
pub struct WantedView {
    pub path: Seq<Seq<u8>>,
    pub mode: WatchMode,
}

pub type TaskView = Task<
    Seq<Seq<u8>>,
    Seq<Seq<Seq<u8>>>,
    Map<Seq<Seq<u8>>, bool>,
    Seq<WantedView>,
    ErrorView,
>;

/// How a path that was found new is watched: whether recursively, and whether it is a directory.
#[derive(Clone, Copy, Debug, PartialEq, Eq, Structural)]
pub struct Found {
    pub is_recursive: bool,
    pub is_dir: bool,
}

/// What the events of one batch ask for, once they are all read.
#[verifier::ext_equal]
pub struct BatchView {
    /// The paths to watch. A path found new twice in the batch is one entry, so it is reported once.
    pub add: Map<Seq<Seq<u8>>, Found>,
    /// The paths whose entity is gone or renamed: their handles are stale.
    pub stale: Set<Seq<Seq<u8>>>,
    /// The directories whose tree is walked again.
    pub rewalk: Seq<Seq<Seq<u8>>>,
    pub vanished: Set<Seq<Seq<u8>>>,
    pub changed: Set<Seq<Seq<u8>>>,
}

impl BatchView {
    pub open spec fn new() -> BatchView {
        BatchView {
            add: Map::empty(),
            stale: Set::empty(),
            rewalk: Seq::empty(),
            vanished: Set::empty(),
            changed: Set::empty(),
        }
    }
}

/// Where an event loop stands.
#[verifier::ext_equal]
pub struct LoopView {
    pub roots: Map<Seq<Seq<u8>>, RootWatch>,
    /// The watched paths, and whether each is only an ancestor of tracked roots.
    pub handles: Map<Seq<Seq<u8>>, bool>,
    /// The ancestors of tracked roots last seen as directories.
    pub present: Set<Seq<Seq<u8>>>,
    /// The tracked roots found missing since the handles were last registered.
    pub unarmed: Seq<Seq<Seq<u8>>>,
    /// The ancestors found present again by an arm, looked at again once the handles are
    /// registered.
    pub reappeared: Seq<Seq<Seq<u8>>>,
    /// Whether a handle was opened since the handles were last registered.
    pub unregistered: bool,
    /// The tracked roots found present again, reported once their handles are registered.
    pub pending: Seq<EventView>,
    pub batch: BatchView,
    pub reports: Seq<ReportView>,
    /// The tasks, the one to go on with last.
    pub tasks: Seq<TaskView>,
    /// How the last task ended.
    pub outcome: Outcome<ErrorView>,
}

/// The paths of a set, in their order.
pub open spec fn listed(paths: Set<Seq<Seq<u8>>>) -> Seq<Seq<Seq<u8>>> {
    path_map::at_and_below(paths, Seq::empty())
}

/// Whether `p` is a recursive root or lies below one.
pub open spec fn is_recursive_at(roots: Map<Seq<Seq<u8>>, RootWatch>, p: Seq<Seq<u8>>) -> bool {
    exists|r: Seq<Seq<u8>>| #[trigger]
        roots.contains_key(r) && roots[r].mode.is_recursive() && path::starts_with(p, r)
}

/// Whether the first `n` components of the handle at `h` are a NoTrack root at or below `p` that
/// reports through the handle.
pub open spec fn is_kept_at(
    roots: Map<Seq<Seq<u8>>, RootWatch>,
    p: Seq<Seq<u8>>,
    h: Seq<Seq<u8>>,
    n: int,
) -> bool {
    let r = h.take(n);
    &&& roots.contains_key(r)
    &&& !roots[r].mode.tracks_path()
    &&& n + 1 >= h.len() || roots[r].mode.is_recursive()
    &&& path::starts_with(r, p)
}

/// Whether a NoTrack root at or below the gone `p` reports through the handle at `h`. Such a root
/// follows the entity its handle is bound to wherever it went, so the handle stays with it. A
/// NoTrack root above `p` does not keep it: the entity left it.
pub open spec fn kept_by_no_track_root(
    roots: Map<Seq<Seq<u8>>, RootWatch>,
    p: Seq<Seq<u8>>,
    h: Seq<Seq<u8>>,
) -> bool {
    exists|n: int|
        (path::floor(h) <= n <= h.len() || n == h.len()) && #[trigger] is_kept_at(roots, p, h, n)
}

/// Whether a handle goes when `p` is gone: all but the one of a root that is there at `p`, and the
/// ones of the NoTrack roots at or below `p`.
pub open spec fn is_dropped(
    roots: Map<Seq<Seq<u8>>, RootWatch>,
    p: Seq<Seq<u8>>,
) -> spec_fn(Seq<Seq<u8>>) -> bool {
    let present_root = roots.contains_key(p) && roots[p].state != RootState::Missing;
    |h: Seq<Seq<u8>>| !((present_root && h == p) || kept_by_no_track_root(roots, p, h))
}

/// Whether a path is an entry of `dir`.
pub open spec fn is_entry_of(dir: Seq<Seq<u8>>) -> spec_fn(Seq<Seq<u8>>) -> bool {
    |p: Seq<Seq<u8>>| path::parent(p) == Some(dir)
}

/// Whether an arm opened the handle of a path.
pub open spec fn is_new(before: Map<Seq<Seq<u8>>, bool>) -> spec_fn(Seq<Seq<u8>>) -> bool {
    |p: Seq<Seq<u8>>| !before.contains_key(p)
}

/// Whether an entry of a directory is new: it has no handle, or its handle is stale, as the entity
/// was replaced within the batch.
pub open spec fn is_unknown(
    handles: Map<Seq<Seq<u8>>, bool>,
    stale: Set<Seq<Seq<u8>>>,
) -> spec_fn(Seq<Seq<u8>>) -> bool {
    |p: Seq<Seq<u8>>| !handles.contains_key(p) || stale.contains(p)
}

/// The handles that the arm of `root` may change, besides those it opens: the ones at and below the
/// root, and that of the parent.
pub open spec fn noted(handles: Map<Seq<Seq<u8>>, bool>, root: Seq<Seq<u8>>) -> Map<
    Seq<Seq<u8>>,
    bool,
> {
    handles.restrict(
        Set::new(|p: Seq<Seq<u8>>| path::starts_with(p, root) || path::parent(root) == Some(p)),
    )
}

/// The handles of `before` that are still there are what they were.
pub open spec fn restored(
    handles: Map<Seq<Seq<u8>>, bool>,
    before: Map<Seq<Seq<u8>>, bool>,
) -> Map<Seq<Seq<u8>>, bool> {
    Map::new(
        |p: Seq<Seq<u8>>| handles.contains_key(p),
        |p: Seq<Seq<u8>>|
            if before.contains_key(p) {
                before[p]
            } else {
                handles[p]
            },
    )
}

/// Whether a tracked root other than `root` lies below `ancestor`.
pub open spec fn leads_to_other(
    roots: Map<Seq<Seq<u8>>, RootWatch>,
    ancestor: Seq<Seq<u8>>,
    root: Seq<Seq<u8>>,
) -> bool {
    root::leads_to_root(roots.remove(root), ancestor)
}

/// The ancestors of `p` with at least `n` components that lead to no tracked root, nearest first.
pub open spec fn untracked(
    roots: Map<Seq<Seq<u8>>, RootWatch>,
    p: Seq<Seq<u8>>,
    n: int,
) -> Seq<Seq<Seq<u8>>>
    decreases p.len() - n,
{
    if n >= p.len() || n < 0 {
        Seq::empty()
    } else {
        let nearer = untracked(roots, p, n + 1);
        if root::leads_to_root(roots, p.take(n)) {
            nearer
        } else {
            nearer.push(p.take(n))
        }
    }
}

/// The entries of `dir` that lead to tracked roots.
pub open spec fn chain_children(
    roots: Map<Seq<Seq<u8>>, RootWatch>,
    dir: Seq<Seq<u8>>,
) -> Set<Seq<Seq<u8>>> {
    Set::new(
        |c: Seq<Seq<u8>>| path::parent(c) == Some(dir) && root::leads_to_root(roots, c),
    )
}

pub open spec fn state_of(stat: PathStat) -> RootState {
    if stat.is_dir {
        RootState::Directory
    } else {
        RootState::File
    }
}

/// What is reported of an entity that is found new.
pub open spec fn create_kind(stat: Result<PathStat, i32>) -> CreateKind {
    match stat {
        Ok(stat) => if stat.is_dir {
            CreateKind::Folder
        } else if stat.is_file {
            CreateKind::File
        } else {
            CreateKind::Other
        },
        Err(_) => CreateKind::Other,
    }
}

pub open spec fn is_dir_at(stat: Result<PathStat, i32>) -> bool {
    stat matches Ok(stat) && stat.is_dir
}

/// The event for a tracked root that is there.
pub open spec fn created(root: Seq<Seq<u8>>, state: RootState) -> EventView {
    EventView::new(
        EventKind::Create(
            if state == RootState::Directory {
                CreateKind::Folder
            } else {
                CreateKind::File
            },
        ),
    ).with_path(root)
}

/// The event for a tracked root that was there and is out of reach.
pub open spec fn removed(root: Seq<Seq<u8>>, state: RootState) -> EventView {
    EventView::new(
        EventKind::Remove(
            if state == RootState::Directory {
                RemoveKind::Folder
            } else {
                RemoveKind::File
            },
        ),
    ).with_path(root)
}

pub open spec fn walk_error(e: WalkError<Seq<Seq<u8>>>) -> ErrorView {
    match e {
        WalkError::Io { errno, path: Some(p) } => ErrorView::at(ErrorKind::Io(errno), p),
        WalkError::Io { errno, path: None } => ErrorView::new(ErrorKind::Io(errno)),
        WalkError::Loop { message } => ErrorView::new(ErrorKind::Generic(message)),
    }
}

/// Whether the task is about the handles of paths.
pub open spec fn is_handle_task(task: TaskView) -> bool {
    match task {
        Task::Fail { .. } => true,
        Task::AddSingle { .. } => true,
        Task::AddSingleAnswered { .. } => true,
        Task::RemoveSingle { .. } => true,
        Task::RemoveAnswered { .. } => true,
        Task::RemoveEach { .. } => true,
        Task::ReleaseHandle { .. } => true,
        Task::ReleaseEach { .. } => true,
        Task::Watch { .. } => true,
        Task::DirAdded { .. } => true,
        Task::DirListed => true,
        Task::AddEach { .. } => true,
        Task::AddEachAdded { .. } => true,
        Task::WalkFound => true,
        Task::WalkAdded => true,
        _ => false,
    }
}

/// Whether the task arms a root.
pub open spec fn is_arm_task(task: TaskView) -> bool {
    match task {
        Task::Chain { .. } => true,
        Task::ChainLooked { .. } => true,
        Task::ChainAdded { .. } => true,
        Task::ArmRoot { .. } => true,
        Task::ArmReached { .. } => true,
        Task::ArmLooked { .. } => true,
        Task::ArmAdded { .. } => true,
        Task::Arm { .. } => true,
        Task::ArmEnded { .. } => true,
        Task::Restore { .. } => true,
        _ => false,
    }
}

/// Whether the task looks at the ancestors of roots.
pub open spec fn is_ancestor_task(task: TaskView) -> bool {
    match task {
        Task::Rearm { .. } => true,
        Task::RearmEnded { .. } => true,
        Task::RearmEach { .. } => true,
        Task::RearmBelow { .. } => true,
        Task::VanishBelow { .. } => true,
        Task::VanishEach { .. } => true,
        Task::DropBelow { .. } => true,
        Task::DropEach { .. } => true,
        Task::CheckAncestor { .. } => true,
        Task::CheckLooked { .. } => true,
        Task::CheckEach { .. } => true,
        Task::CheckChainEach { .. } => true,
        Task::Recheck { .. } => true,
        Task::RecheckLooked { .. } => true,
        Task::RecheckEach { .. } => true,
        _ => false,
    }
}

/// Whether the task registers handles.
pub open spec fn is_register_task(task: TaskView) -> bool {
    match task {
        Task::Register => true,
        Task::RegisterKevents => true,
        Task::RegisterAnswered => true,
        Task::RegisterRearmed => true,
        Task::RegisterRound => true,
        Task::Flush => true,
        _ => false,
    }
}

/// Whether the task watches a path for the user.
pub open spec fn is_root_task(task: TaskView) -> bool {
    match task {
        Task::AddRoot { .. } => true,
        Task::AddRoots { .. } => true,
        Task::AddInnerEach { .. } => true,
        Task::AddInnerEnded { .. } => true,
        Task::AddRegister => true,
        Task::Fallback { .. } => true,
        Task::AddInner { .. } => true,
        Task::AddRootArmed { .. } => true,
        Task::AddRootLooked { .. } => true,
        Task::AddRootAdded { .. } => true,
        _ => false,
    }
}

/// Whether the task changes a root that is watched.
pub open spec fn is_upgrade_task(task: TaskView) -> bool {
    match task {
        Task::UpgradeReached { .. } => true,
        Task::Upgrade { .. } => true,
        Task::UpgradeLooked { .. } => true,
        Task::UpgradeAdded { .. } => true,
        Task::UpgradeArmed { .. } => true,
        Task::UntrackEach { .. } => true,
        Task::RemoveRoot { .. } => true,
        Task::RemoveRootReleased { .. } => true,
        _ => false,
    }
}

impl LoopView {
    pub open spec fn new() -> LoopView {
        LoopView {
            roots: Map::empty(),
            handles: Map::empty(),
            present: Set::empty(),
            unarmed: Seq::empty(),
            reappeared: Seq::empty(),
            unregistered: false,
            pending: Seq::empty(),
            batch: BatchView::new(),
            reports: Seq::empty(),
            tasks: Seq::empty(),
            outcome: Outcome::Done,
        }
    }

    pub open spec fn push(self, task: TaskView) -> LoopView {
        LoopView { tasks: self.tasks.push(task), ..self }
    }

    /// The task ended, without a request.
    pub open spec fn ended(self, outcome: Outcome<ErrorView>) -> (LoopView, RequestView) {
        (LoopView { outcome, ..self }, Request::Again)
    }

    /// The last outcome is dealt with.
    pub open spec fn taken(self) -> LoopView {
        LoopView { outcome: Outcome::Done, ..self }
    }

    pub open spec fn again(self) -> (LoopView, RequestView) {
        (self, Request::Again)
    }

    pub open spec fn asks(self, request: RequestView) -> (LoopView, RequestView) {
        (self, request)
    }

    pub open spec fn reporting(self, event: EventView) -> LoopView {
        LoopView { reports: self.reports.push(ReportView::Event(event)), ..self }
    }

    pub open spec fn reporting_error(self, error: ErrorView) -> LoopView {
        LoopView { reports: self.reports.push(ReportView::Error(error)), ..self }
    }

    /// `event` is reported of `p` if a root reports through the handle there.
    pub open spec fn reporting_at(self, p: Seq<Seq<u8>>, kind: EventKind) -> LoopView {
        if root::is_watched_path(self.roots, p) {
            self.reporting(EventView::new(kind).with_path(p))
        } else {
            self
        }
    }

    // --- the handles of paths

    #[verifier::opaque]
    pub open spec fn add_single(self, p: Seq<Seq<u8>>, chain: bool) -> (LoopView, RequestView) {
        if self.handles.contains_key(p) {
            (LoopView {
                handles: self.handles.insert(p, self.handles[p] && chain),
                ..self
            }).ended(Outcome::Done)
        } else {
            self.push(Task::AddSingleAnswered { path: p, chain }).asks(Request::Add(p))
        }
    }

    #[verifier::opaque]
    pub open spec fn add_single_answered(
        self,
        p: Seq<Seq<u8>>,
        chain: bool,
        answer: AnswerView,
    ) -> (LoopView, RequestView) {
        match answer.did() {
            Ok(_) => (LoopView {
                handles: self.handles.insert(p, chain),
                unregistered: true,
                ..self
            }).ended(Outcome::Done),
            Err(errno) => self.ended(Outcome::Failed(ErrorView::at(ErrorKind::Io(errno), p))),
        }
    }

    #[verifier::opaque]
    pub open spec fn remove_single(self, p: Seq<Seq<u8>>) -> (LoopView, RequestView) {
        if self.handles.contains_key(p) {
            (LoopView { handles: self.handles.remove(p), ..self }).push(
                Task::RemoveAnswered { path: p },
            ).asks(Request::Remove(p))
        } else {
            self.ended(Outcome::Done)
        }
    }

    #[verifier::opaque]
    pub open spec fn remove_answered(self, p: Seq<Seq<u8>>, answer: AnswerView) -> (
        LoopView,
        RequestView,
    ) {
        match answer.did() {
            Ok(_) => self.ended(Outcome::Done),
            Err(errno) => self.ended(Outcome::Failed(ErrorView::at(ErrorKind::Io(errno), p))),
        }
    }

    #[verifier::opaque]
    pub open spec fn remove_each(self, paths: Seq<Seq<Seq<u8>>>) -> (LoopView, RequestView) {
        if paths.len() == 0 {
            self.ended(Outcome::Done)
        } else {
            self.push(Task::RemoveEach { paths: paths.drop_first() }).push(
                Task::RemoveSingle { path: paths[0] },
            ).again()
        }
    }

    /// The handle at `p` stays if a root still reports through it. If tracked roots lie below it,
    /// it becomes a chain handle, unless a root is right below it.
    #[verifier::opaque]
    pub open spec fn release_handle(self, p: Seq<Seq<u8>>) -> (LoopView, RequestView) {
        if root::is_watched_path(self.roots, p) {
            self.ended(Outcome::Done)
        } else if root::leads_to_root(self.roots, p) {
            if !root::is_parent_of_root(self.roots, p) && self.handles.contains_key(p) {
                (LoopView { handles: self.handles.insert(p, true), ..self }).ended(Outcome::Done)
            } else {
                self.ended(Outcome::Done)
            }
        } else {
            self.push(Task::RemoveSingle { path: p }).again()
        }
    }

    #[verifier::opaque]
    pub open spec fn release_each(self, paths: Seq<Seq<Seq<u8>>>) -> (LoopView, RequestView) {
        if paths.len() == 0 {
            self.ended(Outcome::Done)
        } else {
            self.push(Task::ReleaseEach { paths: paths.drop_first() }).push(
                Task::ReleaseHandle { path: paths[0] },
            ).again()
        }
    }

    // --- what is at and below a path

    #[verifier::opaque]
    pub open spec fn watch(self, p: Seq<Seq<u8>>, recursive: bool, is_dir: bool) -> (
        LoopView,
        RequestView,
    ) {
        if recursive {
            self.push(Task::WalkFound).asks(Request::Walk(p))
        } else if is_dir {
            self.push(Task::DirAdded { path: p }).push(
                Task::AddSingle { path: p, chain: false },
            ).again()
        } else {
            self.push(Task::AddSingle { path: p, chain: false }).again()
        }
    }

    #[verifier::opaque]
    pub open spec fn dir_added(self, p: Seq<Seq<u8>>) -> (LoopView, RequestView) {
        if self.outcome is Failed {
            self.again()
        } else {
            self.push(Task::DirListed).asks(Request::List(p))
        }
    }

    #[verifier::opaque]
    pub open spec fn dir_listed(self, answer: AnswerView) -> (LoopView, RequestView) {
        match answer.list() {
            Ok(paths) => self.push(Task::AddEach { paths }).again(),
            Err(_) => self.ended(Outcome::Done),
        }
    }

    #[verifier::opaque]
    pub open spec fn add_each(self, paths: Seq<Seq<Seq<u8>>>) -> (LoopView, RequestView) {
        if paths.len() == 0 {
            self.ended(Outcome::Done)
        } else {
            self.push(Task::AddEachAdded { paths: paths.drop_first() }).push(
                Task::AddSingle { path: paths[0], chain: false },
            ).again()
        }
    }

    #[verifier::opaque]
    pub open spec fn add_each_added(self, paths: Seq<Seq<Seq<u8>>>) -> (LoopView, RequestView) {
        if self.outcome is Failed {
            self.again()
        } else {
            self.push(Task::AddEach { paths }).again()
        }
    }

    #[verifier::opaque]
    pub open spec fn walk_found(self, answer: AnswerView) -> (LoopView, RequestView) {
        match answer.walked() {
            None => self.ended(Outcome::Done),
            Some(Ok(p)) => self.push(Task::WalkAdded).push(
                Task::AddSingle { path: p, chain: false },
            ).again(),
            Some(Err(e)) => self.ended(Outcome::Failed(walk_error(e))),
        }
    }

    #[verifier::opaque]
    pub open spec fn walk_added(self) -> (LoopView, RequestView) {
        if self.outcome is Failed {
            self.again()
        } else {
            self.push(Task::WalkFound).asks(Request::Next)
        }
    }

    // --- the arm of roots

    #[verifier::opaque]
    pub open spec fn chain(self, root: Seq<Seq<u8>>, n: usize) -> (LoopView, RequestView) {
        if n >= root.len() {
            self.ended(Outcome::Reached(true))
        } else {
            self.push(Task::ChainLooked { root, n }).asks(Request::Stat(root.take(n as int)))
        }
    }

    /// A tracked ancestor is present. One that was recorded absent came back unseen: it is looked at
    /// again once the handles are registered, if another root lies below it.
    pub open spec fn noting_present(self, ancestor: Seq<Seq<u8>>, root: Seq<Seq<u8>>) -> LoopView {
        if self.present.contains(ancestor) {
            self
        } else {
            LoopView {
                present: self.present.insert(ancestor),
                reappeared: if leads_to_other(self.roots, ancestor, root) {
                    self.reappeared.push(ancestor)
                } else {
                    self.reappeared
                },
                ..self
            }
        }
    }

    #[verifier::opaque]
    pub open spec fn chain_looked(self, root: Seq<Seq<u8>>, n: usize, answer: AnswerView) -> (
        LoopView,
        RequestView,
    ) {
        let ancestor = root.take(n as int);
        match answer.stat() {
            _ if n >= root.len() => self.ended(Outcome::Reached(true)),
            Ok(stat) => if stat.is_dir {
                self.noting_present(ancestor, root).push(Task::ChainAdded { root, n }).push(
                    Task::AddSingle { path: ancestor, chain: n + 1 < root.len() },
                ).again()
            } else {
                self.ended(Outcome::Reached(false))
            },
            Err(errno) => if error::absent(errno) {
                self.ended(Outcome::Reached(false))
            } else {
                self.ended(Outcome::Failed(ErrorView::at(ErrorKind::Io(errno), ancestor)))
            },
        }
    }

    /// An ancestor that cannot be opened is passed over, but not the parent.
    #[verifier::opaque]
    pub open spec fn chain_added(self, root: Seq<Seq<u8>>, n: usize) -> (LoopView, RequestView) {
        if n >= root.len() {
            self.ended(Outcome::Reached(true))
        } else if self.outcome is Failed && n + 1 >= root.len() {
            self.again()
        } else {
            self.push(Task::Chain { root, n: (n + 1) as usize }).again()
        }
    }

    #[verifier::opaque]
    pub open spec fn arm_root(self, root: Seq<Seq<u8>>, recursive: bool) -> (
        LoopView,
        RequestView,
    ) {
        self.push(Task::ArmReached { root, recursive }).push(
            Task::Chain { root, n: path::floor(root) as usize },
        ).again()
    }

    /// The root is missing: it is looked at again once the handles are registered.
    pub open spec fn found_missing(self, root: Seq<Seq<u8>>) -> (LoopView, RequestView) {
        (LoopView { unarmed: self.unarmed.push(root), ..self }).ended(
            Outcome::Armed(RootState::Missing),
        )
    }

    #[verifier::opaque]
    pub open spec fn arm_reached(self, root: Seq<Seq<u8>>, recursive: bool) -> (
        LoopView,
        RequestView,
    ) {
        match self.outcome {
            Outcome::Failed(_) => self.again(),
            Outcome::Reached(true) => self.push(Task::ArmLooked { root, recursive }).asks(
                Request::Stat(root),
            ),
            _ => self.found_missing(root),
        }
    }

    #[verifier::opaque]
    pub open spec fn arm_looked(
        self,
        root: Seq<Seq<u8>>,
        recursive: bool,
        answer: AnswerView,
    ) -> (LoopView, RequestView) {
        match answer.stat() {
            Ok(stat) => self.push(Task::ArmAdded { state: state_of(stat) }).push(
                Task::Watch {
                    path: root,
                    recursive: recursive && stat.is_dir,
                    is_dir: stat.is_dir,
                },
            ).again(),
            Err(errno) => if errno == ENOENT {
                self.found_missing(root)
            } else {
                self.ended(Outcome::Failed(ErrorView::new(ErrorKind::Io(errno))))
            },
        }
    }

    #[verifier::opaque]
    pub open spec fn arm_added(self, state: RootState) -> (LoopView, RequestView) {
        if self.outcome is Failed {
            self.again()
        } else {
            self.ended(Outcome::Armed(state))
        }
    }

    #[verifier::opaque]
    pub open spec fn arm(self, root: Seq<Seq<u8>>, recursive: bool) -> (LoopView, RequestView) {
        self.push(Task::ArmEnded { root, before: noted(self.handles, root) }).push(
            Task::ArmRoot { root, recursive },
        ).again()
    }

    /// When the arm failed, the handles it opened at and below the root go, and the ones it turned
    /// from chain handles into full ones are chain handles again.
    #[verifier::opaque]
    pub open spec fn arm_ended(self, root: Seq<Seq<u8>>, before: Map<Seq<Seq<u8>>, bool>) -> (
        LoopView,
        RequestView,
    ) {
        match self.outcome {
            Outcome::Failed(error) => self.taken().push(Task::Fail { error }).push(
                Task::Restore { before },
            ).push(
                Task::RemoveEach {
                    paths: path::chosen(
                        path_map::at_and_below(self.handles.dom(), root),
                        is_new(before),
                    ),
                },
            ).again(),
            _ => self.again(),
        }
    }

    #[verifier::opaque]
    pub open spec fn restore(self, before: Map<Seq<Seq<u8>>, bool>) -> (LoopView, RequestView) {
        (LoopView { handles: restored(self.handles, before), ..self }).ended(Outcome::Done)
    }

    #[verifier::opaque]
    pub open spec fn rearm(self, root: Seq<Seq<u8>>) -> (LoopView, RequestView) {
        if self.roots.contains_key(root) && self.roots[root].mode.tracks_path()
            && self.roots[root].state == RootState::Missing {
            self.push(Task::RearmEnded { root }).push(
                Task::Arm { root, recursive: self.roots[root].mode.is_recursive() },
            ).again()
        } else {
            self.ended(Outcome::Done)
        }
    }

    /// A missing root is there now: the report waits for the registration of its handles.
    pub open spec fn found_present(self, root: Seq<Seq<u8>>, state: RootState) -> LoopView {
        LoopView {
            roots: root::in_state(self.roots, root, state),
            pending: self.pending.push(created(root, state)),
            ..self
        }
    }

    #[verifier::opaque]
    pub open spec fn rearm_ended(self, root: Seq<Seq<u8>>) -> (LoopView, RequestView) {
        match self.outcome {
            Outcome::Failed(error) => self.reporting_error(error).ended(Outcome::Done),
            _ => if self.outcome.state() == RootState::Missing {
                self.ended(Outcome::Done)
            } else {
                self.found_present(root, self.outcome.state()).ended(Outcome::Done)
            },
        }
    }

    #[verifier::opaque]
    pub open spec fn rearm_each(self, roots: Seq<Seq<Seq<u8>>>) -> (LoopView, RequestView) {
        if roots.len() == 0 {
            self.ended(Outcome::Done)
        } else {
            self.push(Task::RearmEach { roots: roots.drop_first() }).push(
                Task::Rearm { root: roots[0] },
            ).again()
        }
    }

    #[verifier::opaque]
    pub open spec fn rearm_below(self, p: Seq<Seq<u8>>) -> (LoopView, RequestView) {
        (LoopView { present: self.present.insert(p), ..self }).push(
            Task::RearmEach { roots: root::tracked_roots_below(self.roots, p, true) },
        ).again()
    }

    // --- the ancestors of roots

    /// A root that was there is out of reach.
    pub open spec fn vanished(self, root: Seq<Seq<u8>>) -> LoopView {
        (LoopView { roots: root::in_state(self.roots, root, RootState::Missing), ..self }).reporting(
            removed(
                root,
                if self.roots.contains_key(root) {
                    self.roots[root].state
                } else {
                    RootState::Missing
                },
            ),
        )
    }

    pub open spec fn all_vanished(self, roots: Seq<Seq<Seq<u8>>>) -> LoopView
        decreases roots.len(),
    {
        if roots.len() == 0 {
            self
        } else {
            self.all_vanished(roots.drop_last()).vanished(roots.last())
        }
    }

    #[verifier::opaque]
    pub open spec fn vanish_below(self, p: Seq<Seq<u8>>) -> (LoopView, RequestView) {
        (LoopView {
            present: self.present.filter(|a: Seq<Seq<u8>>| !path::starts_with(a, p)),
            ..self
        }).all_vanished(root::tracked_roots_below(self.roots, p, false)).push(
            Task::DropBelow { path: p },
        ).again()
    }

    #[verifier::opaque]
    pub open spec fn vanish_each(self, paths: Seq<Seq<Seq<u8>>>) -> (LoopView, RequestView) {
        if paths.len() == 0 {
            self.ended(Outcome::Done)
        } else {
            self.push(Task::VanishEach { paths: paths.drop_first() }).push(
                Task::VanishBelow { path: paths[0] },
            ).again()
        }
    }

    #[verifier::opaque]
    pub open spec fn drop_below(self, p: Seq<Seq<u8>>) -> (LoopView, RequestView) {
        self.push(
            Task::RemoveEach {
                paths: path::chosen(
                    path_map::at_and_below(self.handles.dom(), p),
                    is_dropped(self.roots, p),
                ),
            },
        ).again()
    }

    #[verifier::opaque]
    pub open spec fn drop_each(self, paths: Seq<Seq<Seq<u8>>>) -> (LoopView, RequestView) {
        if paths.len() == 0 {
            self.ended(Outcome::Done)
        } else {
            self.push(Task::DropEach { paths: paths.drop_first() }).push(
                Task::DropBelow { path: paths[0] },
            ).again()
        }
    }

    /// The roots below an ancestor that is gone are cut off, the ones below an ancestor that is back
    /// can be reached. A stat that says nothing about presence changes nothing.
    #[verifier::opaque]
    pub open spec fn check_looked(self, p: Seq<Seq<u8>>, answer: AnswerView) -> (
        LoopView,
        RequestView,
    ) {
        let present = self.present.contains(p);
        match answer.stat() {
            Ok(stat) => if stat.is_dir && !present {
                self.push(Task::RearmBelow { path: p }).again()
            } else if !stat.is_dir && present {
                self.push(Task::VanishBelow { path: p }).again()
            } else {
                self.ended(Outcome::Done)
            },
            Err(errno) => if error::absent(errno) && present {
                self.push(Task::VanishBelow { path: p }).again()
            } else {
                self.ended(Outcome::Done)
            },
        }
    }

    #[verifier::opaque]
    pub open spec fn check_ancestor(self, p: Seq<Seq<u8>>) -> (LoopView, RequestView) {
        self.push(Task::CheckLooked { path: p }).asks(Request::Stat(p))
    }

    #[verifier::opaque]
    pub open spec fn check_each(self, paths: Seq<Seq<Seq<u8>>>) -> (LoopView, RequestView) {
        if paths.len() == 0 {
            self.ended(Outcome::Done)
        } else {
            self.push(Task::CheckEach { paths: paths.drop_first() }).push(
                Task::CheckAncestor { path: paths[0] },
            ).again()
        }
    }

    #[verifier::opaque]
    pub open spec fn check_chain_each(self, paths: Seq<Seq<Seq<u8>>>) -> (LoopView, RequestView) {
        if paths.len() == 0 {
            self.ended(Outcome::Done)
        } else {
            self.push(Task::CheckChainEach { paths: paths.drop_first() }).push(
                Task::CheckEach { paths: listed(chain_children(self.roots, paths[0])) },
            ).again()
        }
    }

    #[verifier::opaque]
    pub open spec fn recheck(self, p: Seq<Seq<u8>>) -> (LoopView, RequestView) {
        if root::leads_to_root(self.roots, p) {
            self.push(Task::RecheckLooked { path: p }).asks(Request::Stat(p))
        } else {
            self.ended(Outcome::Done)
        }
    }

    #[verifier::opaque]
    pub open spec fn recheck_looked(self, p: Seq<Seq<u8>>, answer: AnswerView) -> (
        LoopView,
        RequestView,
    ) {
        match answer.stat() {
            Ok(stat) => if stat.is_dir {
                self.push(Task::RearmBelow { path: p }).again()
            } else {
                self.push(Task::VanishBelow { path: p }).again()
            },
            Err(errno) => if error::absent(errno) {
                self.push(Task::VanishBelow { path: p }).again()
            } else {
                self.ended(Outcome::Done)
            },
        }
    }

    #[verifier::opaque]
    pub open spec fn recheck_each(self, paths: Seq<Seq<Seq<u8>>>) -> (LoopView, RequestView) {
        if paths.len() == 0 {
            self.ended(Outcome::Done)
        } else {
            self.push(Task::RecheckEach { paths: paths.drop_first() }).push(
                Task::Recheck { path: paths[0] },
            ).again()
        }
    }

    // --- the registration

    #[verifier::opaque]
    pub open spec fn register(self) -> (LoopView, RequestView) {
        self.push(Task::Flush).push(Task::RegisterKevents).again()
    }

    #[verifier::opaque]
    pub open spec fn register_kevents(self) -> (LoopView, RequestView) {
        self.push(Task::RegisterAnswered).asks(Request::Register)
    }

    /// The roots found missing since the last registration are looked at again: one created after
    /// its stat but before the handle on its parent was registered produced no event.
    #[verifier::opaque]
    pub open spec fn register_answered(self, answer: AnswerView) -> (LoopView, RequestView) {
        match answer.did() {
            Ok(_) => (LoopView { unregistered: false, unarmed: Seq::empty(), ..self }).push(
                Task::RegisterRearmed,
            ).push(Task::RearmEach { roots: self.unarmed }).again(),
            Err(errno) => self.ended(Outcome::Failed(ErrorView::new(ErrorKind::Io(errno)))),
        }
    }

    #[verifier::opaque]
    pub open spec fn register_rearmed(self) -> (LoopView, RequestView) {
        (LoopView { reappeared: Seq::empty(), ..self }).push(Task::RegisterRound).push(
            Task::RecheckEach { paths: self.reappeared },
        ).again()
    }

    /// Registers in rounds, until one opens no handle.
    #[verifier::opaque]
    pub open spec fn register_round(self) -> (LoopView, RequestView) {
        if self.unregistered || self.reappeared.len() > 0 {
            self.push(Task::RegisterKevents).again()
        } else {
            (LoopView { unarmed: Seq::empty(), ..self }).ended(Outcome::Done)
        }
    }

    /// The roots found present are reported, so that whatever the user does to one on hearing of it
    /// is seen by its handle.
    #[verifier::opaque]
    pub open spec fn flush(self) -> (LoopView, RequestView) {
        (LoopView {
            reports: self.reports + self.pending.map_values(|e: EventView| ReportView::Event(e)),
            pending: Seq::empty(),
            ..self
        }).again()
    }

    // --- what the user asks for

    #[verifier::opaque]
    pub open spec fn add_root(self, p: Seq<Seq<u8>>, mode: WatchMode) -> (LoopView, RequestView) {
        self.push(Task::AddRegister).push(Task::AddInner { path: p, mode }).again()
    }

    #[verifier::opaque]
    pub open spec fn add_roots(self, wanted: Seq<WantedView>) -> (LoopView, RequestView) {
        self.push(Task::AddRegister).push(Task::AddInnerEach { wanted }).again()
    }

    #[verifier::opaque]
    pub open spec fn add_inner_each(self, wanted: Seq<WantedView>) -> (LoopView, RequestView) {
        if wanted.len() == 0 {
            self.ended(Outcome::Done)
        } else {
            self.push(Task::AddInnerEnded { wanted: wanted.drop_first() }).push(
                Task::AddInner { path: wanted[0].path, mode: wanted[0].mode },
            ).again()
        }
    }

    #[verifier::opaque]
    pub open spec fn add_inner_ended(self, wanted: Seq<WantedView>) -> (LoopView, RequestView) {
        if self.outcome is Failed {
            self.again()
        } else {
            self.push(Task::AddInnerEach { wanted }).again()
        }
    }

    /// All handles are registered at once. An error of the registration comes first.
    #[verifier::opaque]
    pub open spec fn add_register(self) -> (LoopView, RequestView) {
        match self.outcome {
            Outcome::Failed(error) => self.taken().push(Task::Fallback { error }).push(
                Task::Register,
            ).again(),
            _ => self.push(Task::Register).again(),
        }
    }

    #[verifier::opaque]
    pub open spec fn fallback(self, error: ErrorView) -> (LoopView, RequestView) {
        if self.outcome is Failed {
            self.again()
        } else {
            self.ended(Outcome::Failed(error))
        }
    }

    #[verifier::opaque]
    pub open spec fn add_inner(self, p: Seq<Seq<u8>>, mode: WatchMode) -> (LoopView, RequestView) {
        if self.roots.contains_key(p) {
            let existing = self.roots[p];
            let recurse = mode.is_recursive() && !existing.mode.is_recursive();
            if mode.tracks_path() && !existing.mode.tracks_path() {
                self.push(Task::UpgradeReached { path: p, mode, recurse }).push(
                    Task::Chain { root: p, n: path::floor(p) as usize },
                ).again()
            } else {
                self.push(Task::Upgrade { path: p, mode, recurse }).again()
            }
        } else if mode.tracks_path() {
            self.push(Task::AddRootArmed { path: p, mode }).push(
                Task::Arm { root: p, recursive: mode.is_recursive() },
            ).again()
        } else {
            self.push(Task::AddRootLooked { path: p, mode }).asks(Request::Stat(p))
        }
    }

    /// The ancestors of `p` that lead to no tracked root any more are forgotten, and `error` is
    /// handed on.
    pub open spec fn refused(self, p: Seq<Seq<u8>>, error: ErrorView) -> (LoopView, RequestView) {
        self.taken().push(Task::Fail { error }).push(
            Task::UntrackEach { paths: untracked(self.roots, p, path::floor(p)) },
        ).again()
    }

    #[verifier::opaque]
    pub open spec fn add_root_armed(self, p: Seq<Seq<u8>>, mode: WatchMode) -> (
        LoopView,
        RequestView,
    ) {
        match self.outcome {
            Outcome::Failed(error) => self.refused(p, error),
            _ => (LoopView {
                roots: self.roots.insert(p, RootWatch { mode, state: self.outcome.state() }),
                ..self
            }).ended(Outcome::Done),
        }
    }

    #[verifier::opaque]
    pub open spec fn add_root_looked(
        self,
        p: Seq<Seq<u8>>,
        mode: WatchMode,
        answer: AnswerView,
    ) -> (LoopView, RequestView) {
        match answer.stat() {
            Ok(stat) => self.push(
                Task::AddRootAdded { path: p, mode, state: state_of(stat) },
            ).push(
                Task::Watch {
                    path: p,
                    recursive: mode.is_recursive() && stat.is_dir,
                    is_dir: stat.is_dir,
                },
            ).again(),
            Err(errno) => self.ended(Outcome::Failed(ErrorView::new(error::watch_kind(errno)))),
        }
    }

    #[verifier::opaque]
    pub open spec fn add_root_added(
        self,
        p: Seq<Seq<u8>>,
        mode: WatchMode,
        state: RootState,
    ) -> (LoopView, RequestView) {
        if self.outcome is Failed {
            self.again()
        } else {
            (LoopView { roots: self.roots.insert(p, RootWatch { mode, state }), ..self }).ended(
                Outcome::Done,
            )
        }
    }

    /// The root is tracked from now on. That is recorded now, so that unwatching the root forgets
    /// the ancestors whatever follows.
    #[verifier::opaque]
    pub open spec fn upgrade_reached(self, p: Seq<Seq<u8>>, mode: WatchMode, recurse: bool) -> (
        LoopView,
        RequestView,
    ) {
        match self.outcome {
            Outcome::Failed(error) => self.refused(p, error),
            _ => if self.roots.contains_key(p) {
                let existing = self.roots[p];
                let tracking = RootWatch {
                    mode: WatchMode { target_mode: TargetMode::TrackPath, ..existing.mode },
                    ..existing
                };
                (LoopView { roots: self.roots.insert(p, tracking), ..self }).push(
                    Task::Upgrade { path: p, mode, recurse },
                ).again()
            } else {
                self.ended(Outcome::Done)
            },
        }
    }

    /// The root at `p` is watched in its mode and in `mode`.
    pub open spec fn upgraded(self, p: Seq<Seq<u8>>, mode: WatchMode) -> LoopView {
        if self.roots.contains_key(p) {
            let existing = self.roots[p];
            LoopView {
                roots: self.roots.insert(
                    p,
                    RootWatch { mode: WatchMode::both(existing.mode, mode), ..existing },
                ),
                ..self
            }
        } else {
            self
        }
    }

    #[verifier::opaque]
    pub open spec fn upgrade(self, p: Seq<Seq<u8>>, mode: WatchMode, recurse: bool) -> (
        LoopView,
        RequestView,
    ) {
        if !self.roots.contains_key(p) {
            self.ended(Outcome::Done)
        } else if self.roots[p].state == RootState::Missing {
            self.upgraded(p, mode).push(Task::UpgradeArmed { path: p }).push(
                Task::Arm {
                    root: p,
                    recursive: WatchMode::both(self.roots[p].mode, mode).is_recursive(),
                },
            ).again()
        } else if recurse {
            self.push(Task::UpgradeLooked { path: p, mode }).asks(Request::Stat(p))
        } else {
            self.upgraded(p, mode).ended(Outcome::Done)
        }
    }

    #[verifier::opaque]
    pub open spec fn upgrade_looked(
        self,
        p: Seq<Seq<u8>>,
        mode: WatchMode,
        answer: AnswerView,
    ) -> (LoopView, RequestView) {
        match answer.stat() {
            Ok(stat) => if stat.is_dir {
                self.push(Task::UpgradeAdded { path: p, mode }).push(
                    Task::Watch { path: p, recursive: true, is_dir: true },
                ).again()
            } else {
                self.upgraded(p, mode).ended(Outcome::Done)
            },
            Err(errno) => self.ended(Outcome::Failed(ErrorView::new(ErrorKind::Io(errno)))),
        }
    }

    #[verifier::opaque]
    pub open spec fn upgrade_added(self, p: Seq<Seq<u8>>, mode: WatchMode) -> (
        LoopView,
        RequestView,
    ) {
        if self.outcome is Failed {
            self.again()
        } else {
            self.upgraded(p, mode).ended(Outcome::Done)
        }
    }

    #[verifier::opaque]
    pub open spec fn upgrade_armed(self, p: Seq<Seq<u8>>) -> (LoopView, RequestView) {
        if self.outcome is Failed {
            self.again()
        } else if self.outcome.state() == RootState::Missing {
            self.ended(Outcome::Done)
        } else {
            self.found_present(p, self.outcome.state()).ended(Outcome::Done)
        }
    }

    #[verifier::opaque]
    pub open spec fn untrack_each(self, paths: Seq<Seq<Seq<u8>>>) -> (LoopView, RequestView) {
        if paths.len() == 0 {
            self.ended(Outcome::Done)
        } else {
            let next = (LoopView { present: self.present.remove(paths[0]), ..self }).push(
                Task::UntrackEach { paths: paths.drop_first() },
            );
            if root::is_watched_path(self.roots, paths[0]) {
                next.again()
            } else {
                next.push(Task::RemoveSingle { path: paths[0] }).again()
            }
        }
    }

    /// Every handle another root still reports through or needs as an ancestor stays.
    #[verifier::opaque]
    pub open spec fn remove_root(self, p: Seq<Seq<u8>>) -> (LoopView, RequestView) {
        if !self.roots.contains_key(p) {
            self.ended(Outcome::Failed(ErrorView::new(ErrorKind::WatchNotFound)))
        } else {
            let root = self.roots[p];
            let below = path_map::at_and_below(self.handles.dom(), p);
            let released = (LoopView { roots: self.roots.remove(p), ..self }).push(
                Task::RemoveRootReleased { path: p, tracks: root.mode.tracks_path() },
            );
            if root.mode.is_recursive() {
                released.push(Task::ReleaseEach { paths: below }).again()
            } else {
                released.push(Task::ReleaseHandle { path: p }).push(
                    Task::ReleaseEach { paths: path::chosen(below, is_entry_of(p)) },
                ).again()
            }
        }
    }

    #[verifier::opaque]
    pub open spec fn remove_root_released(self, p: Seq<Seq<u8>>, tracks: bool) -> (
        LoopView,
        RequestView,
    ) {
        let next = match self.outcome {
            Outcome::Failed(error) => self.taken().push(Task::Fallback { error }),
            _ => self,
        };
        if tracks {
            next.push(Task::Register).push(
                Task::UntrackEach { paths: untracked(self.roots, p, path::floor(p)) },
            ).again()
        } else {
            next.push(Task::Register).again()
        }
    }

    // --- what happened

    /// `p` is gone: a root there is missing, and the roots below it are cut off.
    pub open spec fn gone(self, p: Seq<Seq<u8>>) -> LoopView {
        LoopView {
            roots: root::in_state(self.roots, p, RootState::Missing),
            batch: BatchView {
                stale: self.batch.stale.insert(p),
                vanished: if root::leads_to_root(self.roots, p) {
                    self.batch.vanished.insert(p)
                } else {
                    self.batch.vanished
                },
                ..self.batch
            },
            ..self
        }
    }

    /// A NoTrack root ends with the entity it was bound to. The paths at or below it that an earlier
    /// event of the batch found new go too, unless another root reports through them.
    pub open spec fn forgetting(self, p: Seq<Seq<u8>>) -> LoopView {
        if self.roots.contains_key(p) && !self.roots[p].mode.tracks_path() {
            let roots = self.roots.remove(p);
            LoopView {
                roots,
                batch: BatchView {
                    add: self.batch.add.restrict(
                        Set::new(
                            |q: Seq<Seq<u8>>|
                                !path::starts_with(q, p) || root::is_watched_path(roots, q),
                        ),
                    ),
                    ..self.batch
                },
                ..self
            }
        } else {
            self
        }
    }

    /// `p` was found new: it is watched, and reported created.
    pub open spec fn found_new(self, p: Seq<Seq<u8>>, stat: Result<PathStat, i32>) -> LoopView {
        let is_dir = is_dir_at(stat);
        let roots = root::in_state(
            self.roots,
            p,
            if is_dir {
                RootState::Directory
            } else {
                RootState::File
            },
        );
        (LoopView {
            roots,
            batch: BatchView {
                add: self.batch.add.insert(
                    p,
                    Found { is_recursive: is_recursive_at(roots, p), is_dir },
                ),
                ..self.batch
            },
            ..self
        }).reporting(EventView::new(EventKind::Create(create_kind(stat))).with_path(p))
    }

    #[verifier::opaque]
    pub open spec fn happened(self, vnode: Vnode, p: Seq<Seq<u8>>) -> (LoopView, RequestView) {
        match vnode {
            Vnode::Delete => {
                let forgotten = self.gone(p).reporting_at(
                    p,
                    EventKind::Remove(RemoveKind::Any),
                ).forgetting(p);
                if root::is_watched_path(forgotten.roots, p) {
                    forgotten.push(Task::DeleteLooked { path: p }).asks(Request::Stat(p))
                } else {
                    forgotten.ended(Outcome::Done)
                }
            },
            Vnode::Write => self.push(Task::WriteLooked { path: p }).asks(Request::Stat(p)),
            Vnode::Extend | Vnode::Truncate => self.reporting_at(
                p,
                EventKind::Modify(ModifyKind::Data(DataChange::Size)),
            ).ended(Outcome::Done),
            Vnode::Attrib => self.reporting_at(
                p,
                EventKind::Modify(ModifyKind::Metadata(MetadataKind::Any)),
            ).ended(Outcome::Done),
            Vnode::Link => {
                let walked_again = if is_recursive_at(self.roots, p) {
                    LoopView {
                        batch: BatchView {
                            rewalk: self.batch.rewalk.push(p),
                            add: self.batch.add.insert(
                                p,
                                Found { is_recursive: true, is_dir: true },
                            ),
                            ..self.batch
                        },
                        ..self
                    }
                } else {
                    self
                };
                walked_again.reporting_at(p, EventKind::Modify(ModifyKind::Any)).ended(
                    Outcome::Done,
                )
            },
            Vnode::Rename => self.gone(p).reporting_at(
                p,
                EventKind::Modify(ModifyKind::Name(RenameMode::Any)),
            ).forgetting(p).ended(Outcome::Done),
            Vnode::Revoke => self.gone(p).reporting_at(
                p,
                EventKind::Remove(RemoveKind::Any),
            ).forgetting(p).ended(Outcome::Done),
            Vnode::Other => self.reporting(EventView::new(EventKind::Other)).ended(Outcome::Done),
        }
    }

    /// A delete also happens when the entity is overwritten by a rename: the new one is reported
    /// created.
    #[verifier::opaque]
    pub open spec fn delete_looked(self, p: Seq<Seq<u8>>, answer: AnswerView) -> (
        LoopView,
        RequestView,
    ) {
        if answer.stat() is Ok {
            self.found_new(p, answer.stat()).ended(Outcome::Done)
        } else {
            self.ended(Outcome::Done)
        }
    }

    /// A write to a directory means that an entry was created in it. A chain handle watches for the
    /// ancestor below it only: no root reports through its entries.
    #[verifier::opaque]
    pub open spec fn write_looked(self, p: Seq<Seq<u8>>, answer: AnswerView) -> (
        LoopView,
        RequestView,
    ) {
        if is_dir_at(answer.stat()) {
            let changed = if root::leads_to_root(self.roots, p) {
                LoopView {
                    batch: BatchView { changed: self.batch.changed.insert(p), ..self.batch },
                    ..self
                }
            } else {
                self
            };
            if self.handles.contains_key(p) && self.handles[p] {
                changed.ended(Outcome::Done)
            } else {
                changed.push(Task::Listed { path: p }).asks(Request::List(p))
            }
        } else {
            self.reporting_at(p, EventKind::Modify(ModifyKind::Data(DataChange::Any))).ended(
                Outcome::Done,
            )
        }
    }

    #[verifier::opaque]
    pub open spec fn listed(self, p: Seq<Seq<u8>>, answer: AnswerView) -> (LoopView, RequestView) {
        match answer.list() {
            Ok(entries) => self.push(
                Task::Scan {
                    path: p,
                    files: path::chosen(entries, is_unknown(self.handles, self.batch.stale)),
                    found: false,
                },
            ).again(),
            Err(errno) => self.reporting_error(ErrorView::new(ErrorKind::Io(errno))).ended(
                Outcome::Done,
            ),
        }
    }

    /// The entry that is new and watched is reported created and watched, or the write is reported
    /// for the directory when there is none.
    #[verifier::opaque]
    pub open spec fn scan(self, p: Seq<Seq<u8>>, files: Seq<Seq<Seq<u8>>>, found: bool) -> (
        LoopView,
        RequestView,
    ) {
        if files.len() == 0 {
            if found {
                self.ended(Outcome::Done)
            } else {
                self.reporting_at(p, EventKind::Modify(ModifyKind::Data(DataChange::Any))).ended(
                    Outcome::Done,
                )
            }
        } else if self.batch.add.contains_key(files[0]) {
            self.push(Task::Scan { path: p, files: files.drop_first(), found: true }).again()
        } else {
            self.push(
                Task::ScanLooked { path: p, file: files[0], files: files.drop_first() },
            ).asks(Request::Stat(files[0]))
        }
    }

    #[verifier::opaque]
    pub open spec fn scan_looked(
        self,
        p: Seq<Seq<u8>>,
        file: Seq<Seq<u8>>,
        files: Seq<Seq<Seq<u8>>>,
        answer: AnswerView,
    ) -> (LoopView, RequestView) {
        if root::is_watched_path(self.roots, file) {
            self.found_new(file, answer.stat()).ended(Outcome::Done)
        } else {
            self.push(Task::Scan { path: p, files, found: true }).again()
        }
    }

    // --- the end of a batch

    /// The stale handle goes even when a new entity was found at the path already.
    #[verifier::opaque]
    pub open spec fn stale_each(self, paths: Seq<Seq<Seq<u8>>>) -> (LoopView, RequestView) {
        if paths.len() == 0 {
            self.ended(Outcome::Done)
        } else {
            self.push(Task::StaleEach { paths: paths.drop_first() }).push(
                Task::DropBelow { path: paths[0] },
            ).push(Task::RemoveSingle { path: paths[0] }).again()
        }
    }

    #[verifier::opaque]
    pub open spec fn add_all(self, paths: Seq<Seq<Seq<u8>>>) -> (LoopView, RequestView) {
        if paths.len() == 0 {
            self.ended(Outcome::Done)
        } else if self.batch.add.contains_key(paths[0]) {
            let found = self.batch.add[paths[0]];
            self.push(Task::AddAllEnded { path: paths[0], paths: paths.drop_first() }).push(
                Task::Watch {
                    path: paths[0],
                    recursive: found.is_recursive,
                    is_dir: found.is_dir,
                },
            ).again()
        } else {
            self.push(Task::AddAll { paths: paths.drop_first() }).again()
        }
    }

    /// A path that was deleted before it could be watched is reported removed.
    #[verifier::opaque]
    pub open spec fn add_all_ended(self, p: Seq<Seq<u8>>, paths: Seq<Seq<Seq<u8>>>) -> (
        LoopView,
        RequestView,
    ) {
        let next = self.push(Task::AddAll { paths });
        match self.outcome {
            Outcome::Failed(error) => if error.kind == ErrorKind::Io(ENOENT)
                && error.paths.contains(p) {
                next.reporting(
                    EventView::new(EventKind::Remove(RemoveKind::Any)).with_path(p),
                ).again()
            } else {
                next.again()
            },
            _ => next.again(),
        }
    }

    #[verifier::opaque]
    pub open spec fn batch_ended(self) -> (LoopView, RequestView) {
        let over = LoopView { batch: BatchView::new(), ..self };
        match self.outcome {
            Outcome::Failed(error) => over.reporting_error(error).ended(Outcome::Done),
            _ => over.ended(Outcome::Done),
        }
    }

    /// The batch is read: what it asks for is to be done. The ancestors are looked at before the new
    /// entries are watched: an ancestor that went takes the handles below it along, which must not
    /// include fresh ones. A tracked root or an ancestor replaced within the batch is there again.
    pub open spec fn process(self) -> LoopView {
        let stale = listed(self.batch.stale);
        let vanished = listed(self.batch.vanished);
        self.push(Task::BatchEnded).push(Task::Register).push(
            Task::AddAll { paths: listed(self.batch.add.dom()) },
        ).push(Task::CheckChainEach { paths: listed(self.batch.changed) }).push(
            Task::CheckEach { paths: vanished },
        ).push(Task::RearmEach { roots: stale }).push(Task::VanishEach { paths: vanished }).push(
            Task::DropEach { paths: self.batch.rewalk },
        ).push(Task::StaleEach { paths: stale })
    }

    /// The task that is gone on with, taken off.
    pub open spec fn popped(self) -> LoopView {
        LoopView { tasks: self.tasks.drop_last(), ..self }
    }

    /// The next step: what the answer to the last request leads to, and what is asked next.
    pub open spec fn step(self, answer: AnswerView) -> (LoopView, RequestView) {
        if self.tasks.len() == 0 {
            (self, Request::Idle)
        } else {
            self.popped().go_on(self.tasks.last(), answer)
        }
    }

    /// Goes on with `task`, which is taken off.
    pub open spec fn go_on(self, task: TaskView, answer: AnswerView) -> (LoopView, RequestView) {
        if is_handle_task(task) {
            self.go_on_handle(task, answer)
        } else if is_arm_task(task) {
            self.go_on_arm(task, answer)
        } else if is_ancestor_task(task) {
            self.go_on_ancestor(task, answer)
        } else if is_register_task(task) {
            self.go_on_register(task, answer)
        } else if is_root_task(task) {
            self.go_on_root(task, answer)
        } else if is_upgrade_task(task) {
            self.go_on_upgrade(task, answer)
        } else {
            self.go_on_batch(task, answer)
        }
    }

    /// [`LoopView::go_on`] for a task of one kind.
    pub open spec fn go_on_handle(self, task: TaskView, answer: AnswerView) -> (
        LoopView,
        RequestView,
    ) {
        match task {
            Task::Fail { error } => self.ended(Outcome::Failed(error)),
            Task::AddSingle { path, chain } => self.add_single(path, chain),
            Task::AddSingleAnswered { path, chain } => self.add_single_answered(
                path,
                chain,
                answer,
            ),
            Task::RemoveSingle { path } => self.remove_single(path),
            Task::RemoveAnswered { path } => self.remove_answered(path, answer),
            Task::RemoveEach { paths } => self.remove_each(paths),
            Task::ReleaseHandle { path } => self.release_handle(path),
            Task::ReleaseEach { paths } => self.release_each(paths),
            Task::Watch { path, recursive, is_dir } => self.watch(path, recursive, is_dir),
            Task::DirAdded { path } => self.dir_added(path),
            Task::DirListed => self.dir_listed(answer),
            Task::AddEach { paths } => self.add_each(paths),
            Task::AddEachAdded { paths } => self.add_each_added(paths),
            Task::WalkFound => self.walk_found(answer),
            Task::WalkAdded => self.walk_added(),
            _ => self.again(),
        }
    }

    /// [`LoopView::go_on`] for a task of one kind.
    pub open spec fn go_on_arm(self, task: TaskView, answer: AnswerView) -> (
        LoopView,
        RequestView,
    ) {
        match task {
            Task::Chain { root, n } => self.chain(root, n),
            Task::ChainLooked { root, n } => self.chain_looked(root, n, answer),
            Task::ChainAdded { root, n } => self.chain_added(root, n),
            Task::ArmRoot { root, recursive } => self.arm_root(root, recursive),
            Task::ArmReached { root, recursive } => self.arm_reached(root, recursive),
            Task::ArmLooked { root, recursive } => self.arm_looked(root, recursive, answer),
            Task::ArmAdded { state } => self.arm_added(state),
            Task::Arm { root, recursive } => self.arm(root, recursive),
            Task::ArmEnded { root, before } => self.arm_ended(root, before),
            Task::Restore { before } => self.restore(before),
            _ => self.again(),
        }
    }

    /// [`LoopView::go_on`] for a task of one kind.
    pub open spec fn go_on_ancestor(self, task: TaskView, answer: AnswerView) -> (
        LoopView,
        RequestView,
    ) {
        match task {
            Task::Rearm { root } => self.rearm(root),
            Task::RearmEnded { root } => self.rearm_ended(root),
            Task::RearmEach { roots } => self.rearm_each(roots),
            Task::RearmBelow { path } => self.rearm_below(path),
            Task::VanishBelow { path } => self.vanish_below(path),
            Task::VanishEach { paths } => self.vanish_each(paths),
            Task::DropBelow { path } => self.drop_below(path),
            Task::DropEach { paths } => self.drop_each(paths),
            Task::CheckAncestor { path } => self.check_ancestor(path),
            Task::CheckLooked { path } => self.check_looked(path, answer),
            Task::CheckEach { paths } => self.check_each(paths),
            Task::CheckChainEach { paths } => self.check_chain_each(paths),
            Task::Recheck { path } => self.recheck(path),
            Task::RecheckLooked { path } => self.recheck_looked(path, answer),
            Task::RecheckEach { paths } => self.recheck_each(paths),
            _ => self.again(),
        }
    }

    /// [`LoopView::go_on`] for a task of one kind.
    pub open spec fn go_on_register(self, task: TaskView, answer: AnswerView) -> (
        LoopView,
        RequestView,
    ) {
        match task {
            Task::Register => self.register(),
            Task::RegisterKevents => self.register_kevents(),
            Task::RegisterAnswered => self.register_answered(answer),
            Task::RegisterRearmed => self.register_rearmed(),
            Task::RegisterRound => self.register_round(),
            Task::Flush => self.flush(),
            _ => self.again(),
        }
    }

    /// [`LoopView::go_on`] for a task of one kind.
    pub open spec fn go_on_root(self, task: TaskView, answer: AnswerView) -> (
        LoopView,
        RequestView,
    ) {
        match task {
            Task::AddRoot { path, mode } => self.add_root(path, mode),
            Task::AddRoots { wanted } => self.add_roots(wanted),
            Task::AddInnerEach { wanted } => self.add_inner_each(wanted),
            Task::AddInnerEnded { wanted } => self.add_inner_ended(wanted),
            Task::AddRegister => self.add_register(),
            Task::Fallback { error } => self.fallback(error),
            Task::AddInner { path, mode } => self.add_inner(path, mode),
            Task::AddRootArmed { path, mode } => self.add_root_armed(path, mode),
            Task::AddRootLooked { path, mode } => self.add_root_looked(path, mode, answer),
            Task::AddRootAdded { path, mode, state } => self.add_root_added(path, mode, state),
            _ => self.again(),
        }
    }

    /// [`LoopView::go_on`] for a task of one kind.
    pub open spec fn go_on_upgrade(self, task: TaskView, answer: AnswerView) -> (
        LoopView,
        RequestView,
    ) {
        match task {
            Task::UpgradeReached { path, mode, recurse } => self.upgrade_reached(
                path,
                mode,
                recurse,
            ),
            Task::Upgrade { path, mode, recurse } => self.upgrade(path, mode, recurse),
            Task::UpgradeLooked { path, mode } => self.upgrade_looked(path, mode, answer),
            Task::UpgradeAdded { path, mode } => self.upgrade_added(path, mode),
            Task::UpgradeArmed { path } => self.upgrade_armed(path),
            Task::UntrackEach { paths } => self.untrack_each(paths),
            Task::RemoveRoot { path } => self.remove_root(path),
            Task::RemoveRootReleased { path, tracks } => self.remove_root_released(path, tracks),
            _ => self.again(),
        }
    }

    /// [`LoopView::go_on`] for a task of one kind.
    pub open spec fn go_on_batch(self, task: TaskView, answer: AnswerView) -> (
        LoopView,
        RequestView,
    ) {
        match task {
            Task::Happened { vnode, path } => self.happened(vnode, path),
            Task::DeleteLooked { path } => self.delete_looked(path, answer),
            Task::WriteLooked { path } => self.write_looked(path, answer),
            Task::Listed { path } => self.listed(path, answer),
            Task::Scan { path, files, found } => self.scan(path, files, found),
            Task::ScanLooked { path, file, files } => self.scan_looked(path, file, files, answer),
            Task::StaleEach { paths } => self.stale_each(paths),
            Task::AddAll { paths } => self.add_all(paths),
            Task::AddAllEnded { path, paths } => self.add_all_ended(path, paths),
            Task::BatchEnded => self.batch_ended(),
            _ => self.again(),
        }
    }
}

} // verus!
