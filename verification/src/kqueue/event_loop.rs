//! The event loop of a watcher, as far as it decides: it asks for the calls of the system one at a
//! time, and goes on with their answers.

use crate::config::{TargetMode, WatchMode};
use crate::error;
use crate::error::{Error, ErrorKind, ENOENT};
use crate::event;
use crate::event::{
    CreateKind, DataChange, Event, EventKind, MetadataKind, ModifyKind, RemoveKind, RenameMode,
};
use crate::kqueue::task;
use crate::kqueue::task::{
    Answer, AnswerView, BatchView, Found, LoopView, PathStat, Request, RequestView, Task, TaskView,
    Vnode, WalkError, WantedView,
};
use crate::outcome;
use crate::outcome::Outcome;
use crate::path;
use crate::path::PathBuf;
use crate::path_list;
use crate::path_map::PathMap;
use crate::queue::Queue;
use crate::report;
use crate::report::Report;
use crate::root;
use crate::root::{RootState, RootWatch};
use vstd::prelude::*;

verus! {

/// A path to watch, and how.
#[derive(Debug)]
pub struct Wanted {
    pub path: PathBuf,
    pub mode: WatchMode,
}

pub open spec fn wanted_views(list: Seq<Wanted>) -> Seq<WantedView> {
    list.map_values(|w: Wanted| WantedView { path: w.path@, mode: w.mode })
}

pub open spec fn wanted_left(list: Queue<Wanted>) -> Seq<WantedView> {
    wanted_views(list.rest())
}

pub type Job = Task<PathBuf, Queue<PathBuf>, PathMap<bool>, Queue<Wanted>, Error>;

pub open spec fn job_wf(task: Job) -> bool {
    match task {
        Task::ArmEnded { before, .. } => before.wf(),
        Task::Restore { before } => before.wf(),
        _ => true,
    }
}

pub open spec fn shown(task: Job) -> TaskView {
    match task {
        Task::Fail { error } => Task::Fail { error: error@ },
        Task::AddSingle { path, chain } => Task::AddSingle { path: path@, chain },
        Task::AddSingleAnswered { path, chain } => Task::AddSingleAnswered { path: path@, chain },
        Task::RemoveSingle { path } => Task::RemoveSingle { path: path@ },
        Task::RemoveAnswered { path } => Task::RemoveAnswered { path: path@ },
        Task::RemoveEach { paths } => Task::RemoveEach { paths: path_list::left(paths) },
        Task::ReleaseHandle { path } => Task::ReleaseHandle { path: path@ },
        Task::ReleaseEach { paths } => Task::ReleaseEach { paths: path_list::left(paths) },
        Task::Watch { path, recursive, is_dir } => Task::Watch { path: path@, recursive, is_dir },
        Task::DirAdded { path } => Task::DirAdded { path: path@ },
        Task::DirListed => Task::DirListed,
        Task::AddEach { paths } => Task::AddEach { paths: path_list::left(paths) },
        Task::AddEachAdded { paths } => Task::AddEachAdded { paths: path_list::left(paths) },
        Task::WalkFound => Task::WalkFound,
        Task::WalkAdded => Task::WalkAdded,
        Task::Chain { root, n } => Task::Chain { root: root@, n },
        Task::ChainLooked { root, n } => Task::ChainLooked { root: root@, n },
        Task::ChainAdded { root, n } => Task::ChainAdded { root: root@, n },
        Task::ArmRoot { root, recursive } => Task::ArmRoot { root: root@, recursive },
        Task::ArmReached { root, recursive } => Task::ArmReached { root: root@, recursive },
        Task::ArmLooked { root, recursive } => Task::ArmLooked { root: root@, recursive },
        Task::ArmAdded { state } => Task::ArmAdded { state },
        Task::Arm { root, recursive } => Task::Arm { root: root@, recursive },
        Task::ArmEnded { root, before } => Task::ArmEnded { root: root@, before: before@ },
        Task::Restore { before } => Task::Restore { before: before@ },
        Task::Rearm { root } => Task::Rearm { root: root@ },
        Task::RearmEnded { root } => Task::RearmEnded { root: root@ },
        Task::RearmEach { roots } => Task::RearmEach { roots: path_list::left(roots) },
        Task::RearmBelow { path } => Task::RearmBelow { path: path@ },
        Task::VanishBelow { path } => Task::VanishBelow { path: path@ },
        Task::VanishEach { paths } => Task::VanishEach { paths: path_list::left(paths) },
        Task::DropBelow { path } => Task::DropBelow { path: path@ },
        Task::DropEach { paths } => Task::DropEach { paths: path_list::left(paths) },
        Task::CheckAncestor { path } => Task::CheckAncestor { path: path@ },
        Task::CheckLooked { path } => Task::CheckLooked { path: path@ },
        Task::CheckEach { paths } => Task::CheckEach { paths: path_list::left(paths) },
        Task::CheckChainEach { paths } => Task::CheckChainEach { paths: path_list::left(paths) },
        Task::Recheck { path } => Task::Recheck { path: path@ },
        Task::RecheckLooked { path } => Task::RecheckLooked { path: path@ },
        Task::RecheckEach { paths } => Task::RecheckEach { paths: path_list::left(paths) },
        Task::Register => Task::Register,
        Task::RegisterKevents => Task::RegisterKevents,
        Task::RegisterAnswered => Task::RegisterAnswered,
        Task::RegisterRearmed => Task::RegisterRearmed,
        Task::RegisterRound => Task::RegisterRound,
        Task::Flush => Task::Flush,
        Task::AddRoot { path, mode } => Task::AddRoot { path: path@, mode },
        Task::AddRoots { wanted } => Task::AddRoots { wanted: wanted_left(wanted) },
        Task::AddInnerEach { wanted } => Task::AddInnerEach { wanted: wanted_left(wanted) },
        Task::AddInnerEnded { wanted } => Task::AddInnerEnded { wanted: wanted_left(wanted) },
        Task::AddRegister => Task::AddRegister,
        Task::Fallback { error } => Task::Fallback { error: error@ },
        Task::AddInner { path, mode } => Task::AddInner { path: path@, mode },
        Task::AddRootArmed { path, mode } => Task::AddRootArmed { path: path@, mode },
        Task::AddRootLooked { path, mode } => Task::AddRootLooked { path: path@, mode },
        Task::AddRootAdded { path, mode, state } => Task::AddRootAdded { path: path@, mode, state },
        Task::UpgradeReached { path, mode, recurse } => Task::UpgradeReached {
            path: path@,
            mode,
            recurse,
        },
        Task::Upgrade { path, mode, recurse } => Task::Upgrade { path: path@, mode, recurse },
        Task::UpgradeLooked { path, mode } => Task::UpgradeLooked { path: path@, mode },
        Task::UpgradeAdded { path, mode } => Task::UpgradeAdded { path: path@, mode },
        Task::UpgradeArmed { path } => Task::UpgradeArmed { path: path@ },
        Task::UntrackEach { paths } => Task::UntrackEach { paths: path_list::left(paths) },
        Task::RemoveRoot { path } => Task::RemoveRoot { path: path@ },
        Task::RemoveRootReleased { path, tracks } => Task::RemoveRootReleased {
            path: path@,
            tracks,
        },
        Task::Happened { vnode, path } => Task::Happened { vnode, path: path@ },
        Task::DeleteLooked { path } => Task::DeleteLooked { path: path@ },
        Task::WriteLooked { path } => Task::WriteLooked { path: path@ },
        Task::Listed { path } => Task::Listed { path: path@ },
        Task::Scan { path, files, found } => Task::Scan {
            path: path@,
            files: path_list::left(files),
            found,
        },
        Task::ScanLooked { path, file, files } => Task::ScanLooked {
            path: path@,
            file: file@,
            files: path_list::left(files),
        },
        Task::StaleEach { paths } => Task::StaleEach { paths: path_list::left(paths) },
        Task::AddAll { paths } => Task::AddAll { paths: path_list::left(paths) },
        Task::AddAllEnded { path, paths } => Task::AddAllEnded {
            path: path@,
            paths: path_list::left(paths),
        },
        Task::BatchEnded => Task::BatchEnded,
    }
}

pub open spec fn shown_all(tasks: Seq<Job>) -> Seq<TaskView> {
    tasks.map_values(|t: Job| shown(t))
}

pub open spec fn asked(request: Request<PathBuf>) -> RequestView {
    match request {
        Request::Idle => Request::Idle,
        Request::Again => Request::Again,
        Request::Stat(path) => Request::Stat(path@),
        Request::List(path) => Request::List(path@),
        Request::Walk(path) => Request::Walk(path@),
        Request::Next => Request::Next,
        Request::Add(path) => Request::Add(path@),
        Request::Remove(path) => Request::Remove(path@),
        Request::Register => Request::Register,
    }
}

pub open spec fn walk_failed(e: WalkError<PathBuf>) -> WalkError<Seq<Seq<u8>>> {
    match e {
        WalkError::Io { errno, path: Some(path) } => WalkError::Io { errno, path: Some(path@) },
        WalkError::Io { errno, path: None } => WalkError::Io { errno, path: None },
        WalkError::Loop { message } => WalkError::Loop { message },
    }
}

pub open spec fn answered(answer: Answer<PathBuf, Vec<PathBuf>>) -> AnswerView {
    match answer {
        Answer::Go => Answer::Go,
        Answer::Stat(stat) => Answer::Stat(stat),
        Answer::List(Ok(paths)) => Answer::List(Ok(path::views(paths@))),
        Answer::List(Err(errno)) => Answer::List(Err(errno)),
        Answer::Walked(None) => Answer::Walked(None),
        Answer::Walked(Some(Ok(path))) => Answer::Walked(Some(Ok(path@))),
        Answer::Walked(Some(Err(e))) => Answer::Walked(Some(Err(walk_failed(e)))),
        Answer::Did(did) => Answer::Did(did),
    }
}

/// What the events of one batch ask for, once they are all read.
#[derive(Debug)]
struct Batch {
    add: PathMap<Found>,
    stale: PathMap<()>,
    rewalk: Vec<PathBuf>,
    vanished: PathMap<()>,
    changed: PathMap<()>,
}

impl Batch {
    spec fn shown(&self) -> BatchView {
        BatchView {
            add: self.add@,
            stale: self.stale@.dom(),
            rewalk: path::views(self.rewalk@),
            vanished: self.vanished@.dom(),
            changed: self.changed@.dom(),
        }
    }

    spec fn wf(&self) -> bool {
        self.add.wf() && self.stale.wf() && self.vanished.wf() && self.changed.wf()
    }

    fn new() -> (batch: Batch)
        ensures
            batch.wf(),
            batch.shown() == BatchView::new(),
    {
        let batch = Batch {
            add: PathMap::new(),
            stale: PathMap::new(),
            rewalk: Vec::new(),
            vanished: PathMap::new(),
            changed: PathMap::new(),
        };
        assert(batch.shown() =~= BatchView::new());
        batch
    }
}

#[derive(Debug)]
pub struct EventLoop {
    roots: PathMap<RootWatch>,
    handles: PathMap<bool>,
    present: PathMap<()>,
    unarmed: Vec<PathBuf>,
    reappeared: Vec<PathBuf>,
    unregistered: bool,
    pending: Vec<Event>,
    batch: Batch,
    reports: Vec<Report>,
    tasks: Vec<Job>,
    outcome: Outcome<Error>,
}

impl View for EventLoop {
    type V = LoopView;

    closed spec fn view(&self) -> LoopView {
        LoopView {
            roots: self.roots@,
            handles: self.handles@,
            present: self.present@.dom(),
            unarmed: path::views(self.unarmed@),
            reappeared: path::views(self.reappeared@),
            unregistered: self.unregistered,
            pending: event::views(self.pending@),
            batch: self.batch.shown(),
            reports: report::views(self.reports@),
            tasks: shown_all(self.tasks@),
            outcome: outcome::ended_with(self.outcome),
        }
    }
}

fn state_of(stat: PathStat) -> (state: RootState)
    ensures
        state == task::state_of(stat),
{
    if stat.is_dir {
        RootState::Directory
    } else {
        RootState::File
    }
}

fn create_kind(stat: Result<PathStat, i32>) -> (kind: CreateKind)
    ensures
        kind == task::create_kind(stat),
{
    match stat {
        Ok(stat) => {
            if stat.is_dir {
                CreateKind::Folder
            } else if stat.is_file {
                CreateKind::File
            } else {
                CreateKind::Other
            }
        },
        Err(_) => CreateKind::Other,
    }
}

fn is_dir_at(stat: Result<PathStat, i32>) -> (r: bool)
    ensures
        r == task::is_dir_at(stat),
{
    match stat {
        Ok(stat) => stat.is_dir,
        Err(_) => false,
    }
}

/// The event for a tracked root that is there.
fn created(root: PathBuf, state: RootState) -> (event: Event)
    ensures
        event@ == task::created(root@, state),
{
    let kind = if state == RootState::Directory {
        CreateKind::Folder
    } else {
        CreateKind::File
    };
    Event::new(EventKind::Create(kind)).add_path(root)
}

/// The event for a tracked root that was there and is out of reach.
fn removed(root: PathBuf, state: RootState) -> (event: Event)
    ensures
        event@ == task::removed(root@, state),
{
    let kind = if state == RootState::Directory {
        RemoveKind::Folder
    } else {
        RemoveKind::File
    };
    Event::new(EventKind::Remove(kind)).add_path(root)
}

fn map_walk_error(e: WalkError<PathBuf>) -> (error: Error)
    ensures
        error@ == task::walk_error(walk_failed(e)),
{
    match e {
        WalkError::Io { errno, path: Some(path) } => Error::at(ErrorKind::Io(errno), path),
        WalkError::Io { errno, path: None } => Error::new(ErrorKind::Io(errno)),
        WalkError::Loop { message } => Error::new(ErrorKind::Generic(message)),
    }
}

fn is_not_found(error: &Error) -> (r: bool)
    ensures
        r == (error@.kind == ErrorKind::Io(ENOENT)),
{
    match error.kind {
        ErrorKind::Io(errno) => errno == ENOENT,
        _ => false,
    }
}

fn stat_of(answer: &Answer<PathBuf, Vec<PathBuf>>) -> (stat: Result<PathStat, i32>)
    ensures
        stat == answered(*answer).stat(),
{
    match answer {
        Answer::Stat(stat) => *stat,
        _ => Err(0),
    }
}

fn did_of(answer: &Answer<PathBuf, Vec<PathBuf>>) -> (did: Result<(), i32>)
    ensures
        did == answered(*answer).did(),
{
    match answer {
        Answer::Did(did) => *did,
        _ => Ok(()),
    }
}

fn list_of(answer: Answer<PathBuf, Vec<PathBuf>>) -> (list: Result<Vec<PathBuf>, i32>)
    ensures
        (match list {
            Ok(paths) => answered(answer).list() == Ok::<Seq<Seq<Seq<u8>>>, i32>(
                path::views(paths@),
            ),
            Err(errno) => answered(answer).list() == Err::<Seq<Seq<Seq<u8>>>, i32>(errno),
        }),
{
    match answer {
        Answer::List(list) => list,
        _ => Err(0),
    }
}

fn walked_of(answer: Answer<PathBuf, Vec<PathBuf>>) -> (walked: Option<
    Result<PathBuf, WalkError<PathBuf>>,
>)
    ensures
        answered(answer).walked() == (match walked {
            None => None,
            Some(Ok(path)) => Some(Ok(path@)),
            Some(Err(e)) => Some(Err(walk_failed(e))),
        }),
{
    match answer {
        Answer::Walked(walked) => walked,
        _ => None,
    }
}

/// Whether `path` is a recursive root or lies below one.
fn is_recursive_at(roots: &PathMap<RootWatch>, path: &PathBuf) -> (r: bool)
    requires
        roots.wf(),
    ensures
        r == task::is_recursive_at(roots@, path@),
{
    let mut n: usize = 0;
    while n <= path.len()
        invariant
            roots.wf(),
            n <= path@.len() + 1,
            forall|k: int|
                0 <= k < n && roots@.contains_key(#[trigger] path@.take(k))
                    ==> !roots@[path@.take(k)].mode.is_recursive(),
        decreases path@.len() + 1 - n,
    {
        if let Some(root) = roots.get_prefix(path, n) {
            if root.mode.recursive() {
                assert(roots@.contains_key(path@.take(n as int)));
                assert(path::starts_with(path@, path@.take(n as int)));
                return true;
            }
        }
        if n == path.len() {
            assert forall|r: Seq<Seq<u8>>| #[trigger] roots@.contains_key(r) && path::starts_with(
                path@,
                r,
            ) implies !roots@[r].mode.is_recursive() by {
                assert(path@.take(r.len() as int) == r);
            }
            return false;
        }
        n = n + 1;
    }
    false
}

/// Whether a NoTrack root at or below the gone `path` reports through the handle at `handle`.
fn is_kept_by_no_track_root(roots: &PathMap<RootWatch>, path: &PathBuf, handle: &PathBuf) -> (r:
    bool)
    requires
        roots.wf(),
    ensures
        r == task::kept_by_no_track_root(roots@, path@, handle@),
{
    if !handle.starts_with(path) {
        assert forall|n: int| 0 <= n <= handle@.len() implies !#[trigger] task::is_kept_at(
            roots@,
            path@,
            handle@,
            n,
        ) by {
            if path::starts_with(handle@.take(n), path@) {
                assert(handle@.take(n).take(path@.len() as int) =~= handle@.take(
                    path@.len() as int,
                ));
            }
        }
        return false;
    }
    let floor: usize = handle.floor();
    let mut n: usize = handle.len();
    loop
        invariant
            roots.wf(),
            floor == path::floor(handle@),
            path::starts_with(handle@, path@),
            n <= handle@.len(),
            n >= floor || n == handle@.len(),
            forall|k: int|
                n < k <= handle@.len() ==> !#[trigger] task::is_kept_at(
                    roots@,
                    path@,
                    handle@,
                    k,
                ),
        decreases n,
    {
        assert(path@.len() <= n ==> handle@.take(n as int).take(path@.len() as int)
            =~= handle@.take(path@.len() as int));
        if let Some(root) = roots.get_prefix(handle, n) {
            if !root.mode.tracks() && (handle.len() - n <= 1 || root.mode.recursive())
                && path.len() <= n {
                assert(task::is_kept_at(roots@, path@, handle@, n as int));
                return true;
            }
        }
        assert(!task::is_kept_at(roots@, path@, handle@, n as int));
        if n <= floor {
            return false;
        }
        n = n - 1;
    }
}

/// Whether a tracked root other than `root` lies below `ancestor`.
fn leads_to_other(roots: &PathMap<RootWatch>, ancestor: &PathBuf, root: &PathBuf) -> (r: bool)
    requires
        roots.wf(),
    ensures
        r == task::leads_to_other(roots@, ancestor@, root@),
{
    let (start, end) = roots.below(ancestor);
    proof {
        roots.lemma_entries();
    }
    let ghost keys = roots.keys();
    let ghost others = roots@.remove(root@);
    let mut i: usize = start;
    while i < end
        invariant
            roots.wf(),
            others == roots@.remove(root@),
            start <= i <= end <= keys.len(),
            keys == roots.keys(),
            forall|k: int|
                0 <= k < keys.len() ==> roots@.contains_key(#[trigger] keys[k])
                    && roots@[keys[k]] == roots.value(k),
            forall|k: int|
                0 <= k < keys.len() ==> (path::starts_with(#[trigger] keys[k], ancestor@)
                    <==> start <= k < end),
            forall|k: int|
                start <= k < i ==> !(#[trigger] keys[k] != root@
                    && roots@[keys[k]].mode.tracks_path() && path::lies_below(
                    keys[k],
                    ancestor@,
                )),
        decreases end - i,
    {
        let other = roots.key_at(i);
        if roots.value_at(i).mode.tracks() && other.len() > ancestor.len() && other.floor()
            <= ancestor.len() && !other.same(root) {
            assert(others.contains_key(keys[i as int]));
            assert(path::starts_with(keys[i as int], ancestor@));
            return true;
        }
        i = i + 1;
    }
    proof {
        if root::leads_to_root(others, ancestor@) {
            let r = choose|r: Seq<Seq<u8>>| #[trigger]
                others.contains_key(r) && others[r].mode.tracks_path() && path::lies_below(
                    r,
                    ancestor@,
                );
            let k = choose|k: int| 0 <= k < keys.len() && #[trigger] keys[k] == r;
            assert(path::starts_with(keys[k], ancestor@));
        }
    }
    false
}

/// The ancestors of `path` that lead to no tracked root, nearest first.
fn untracked(roots: &PathMap<RootWatch>, path: &PathBuf) -> (ancestors: Vec<PathBuf>)
    requires
        roots.wf(),
    ensures
        path::views(ancestors@) == task::untracked(roots@, path@, path::floor(path@)),
{
    let floor: usize = path.floor();
    let mut ancestors: Vec<PathBuf> = Vec::new();
    let mut n: usize = path.len();
    assert(path::views(ancestors@) =~= task::untracked(roots@, path@, n as int));
    while n > floor
        invariant
            roots.wf(),
            floor == path::floor(path@),
            floor <= n || n == path@.len(),
            n <= path@.len(),
            path::views(ancestors@) == task::untracked(roots@, path@, n as int),
        decreases n,
    {
        n = n - 1;
        let ancestor = path.prefix(n);
        if !root::has_tracked_below(roots, &ancestor) {
            proof {
                path::lemma_views_push(ancestors@, ancestor);
            }
            ancestors.push(ancestor);
        }
    }
    ancestors
}

/// The paths of a set, in their order.
fn all_of<V>(paths: &PathMap<V>) -> (list: Vec<PathBuf>)
    requires
        paths.wf(),
    ensures
        path::views(list@) == task::listed(paths@.dom()),
{
    paths.keys_below(&PathBuf::new())
}

/// The entries of `dir` that lead to tracked roots, in their order.
fn chain_children(roots: &PathMap<RootWatch>, dir: &PathBuf) -> (children: Vec<PathBuf>)
    requires
        roots.wf(),
    ensures
        path::views(children@) == task::listed(task::chain_children(roots@, dir@)),
{
    let (start, end) = roots.below(dir);
    proof {
        roots.lemma_entries();
    }
    let ghost keys = roots.keys();
    let ghost wanted = task::chain_children(roots@, dir@);
    let mut children: PathMap<()> = PathMap::new();
    let mut i: usize = start;
    while i < end
        invariant
            roots.wf(),
            children.wf(),
            wanted == task::chain_children(roots@, dir@),
            start <= i <= end <= keys.len(),
            keys == roots.keys(),
            forall|k: int|
                0 <= k < keys.len() ==> roots@.contains_key(#[trigger] keys[k])
                    && roots@[keys[k]] == roots.value(k),
            forall|k: int|
                0 <= k < keys.len() ==> (path::starts_with(#[trigger] keys[k], dir@) <==> start <= k
                    < end),
            forall|c: Seq<Seq<u8>>| #[trigger] children@.contains_key(c) ==> wanted.contains(c),
            forall|k: int|
                start <= k < i && roots@[#[trigger] keys[k]].mode.tracks_path() && keys[k].len()
                    >= dir@.len() + 2 && path::floor(keys[k]) <= dir@.len()
                    ==> children@.contains_key(keys[k].take(dir@.len() as int + 1)),
        decreases end - i,
    {
        let root = roots.key_at(i);
        if roots.value_at(i).mode.tracks() && root.len() > dir.len() && root.len() - dir.len() >= 2
            && root.floor() <= dir.len() {
            let child = root.prefix(dir.len() + 1);
            proof {
                let r = keys[i as int];
                let c = r.take(dir@.len() as int + 1);
                assert(path::starts_with(r, dir@));
                assert(c.drop_last() =~= r.take(dir@.len() as int));
                assert(path::floor(c) == path::floor(r));
                assert(roots@.contains_key(r));
                assert(path::lies_below(r, c)) by {
                    assert(r.take(c.len() as int) =~= c);
                }
                assert(wanted.contains(c));
            }
            children.insert(child, ());
        }
        i = i + 1;
    }
    proof {
        assert forall|c: Seq<Seq<u8>>| wanted.contains(c) implies #[trigger] children@.contains_key(
            c,
        ) by {
            let r = choose|r: Seq<Seq<u8>>| #[trigger]
                roots@.contains_key(r) && roots@[r].mode.tracks_path() && path::lies_below(r, c);
            let k = choose|k: int| 0 <= k < keys.len() && #[trigger] keys[k] == r;
            assert(c.len() == dir@.len() + 1);
            assert(r.take(c.len() as int) == c);
            assert(r.take(dir@.len() as int) =~= c.drop_last());
            assert(path::starts_with(keys[k], dir@));
            assert(path::floor(c) == path::floor(r));
        }
        assert(children@.dom() =~= wanted);
    }
    all_of(&children)
}

fn is_handle_task(task: &Job) -> (r: bool)
    ensures
        r == task::is_handle_task(shown(*task)),
{
    match task {
        Task::Fail { .. } => true,
        Task::AddSingle { .. } => true,
        Task::AddSingleAnswered { .. } => true,
        Task::RemoveSingle { .. } => true,
        Task::RemoveAnswered { .. } => true,
        Task::RemoveEach { .. } => true,
        Task::ReleaseHandle { .. } => true,
        Task::ReleaseEach { .. } => true,
        Task::Watch { .. } => true,
        Task::DirAdded { .. } => true,
        Task::DirListed => true,
        Task::AddEach { .. } => true,
        Task::AddEachAdded { .. } => true,
        Task::WalkFound => true,
        Task::WalkAdded => true,
        _ => false,
    }
}

fn is_arm_task(task: &Job) -> (r: bool)
    ensures
        r == task::is_arm_task(shown(*task)),
{
    match task {
        Task::Chain { .. } => true,
        Task::ChainLooked { .. } => true,
        Task::ChainAdded { .. } => true,
        Task::ArmRoot { .. } => true,
        Task::ArmReached { .. } => true,
        Task::ArmLooked { .. } => true,
        Task::ArmAdded { .. } => true,
        Task::Arm { .. } => true,
        Task::ArmEnded { .. } => true,
        Task::Restore { .. } => true,
        _ => false,
    }
}

fn is_ancestor_task(task: &Job) -> (r: bool)
    ensures
        r == task::is_ancestor_task(shown(*task)),
{
    match task {
        Task::Rearm { .. } => true,
        Task::RearmEnded { .. } => true,
        Task::RearmEach { .. } => true,
        Task::RearmBelow { .. } => true,
        Task::VanishBelow { .. } => true,
        Task::VanishEach { .. } => true,
        Task::DropBelow { .. } => true,
        Task::DropEach { .. } => true,
        Task::CheckAncestor { .. } => true,
        Task::CheckLooked { .. } => true,
        Task::CheckEach { .. } => true,
        Task::CheckChainEach { .. } => true,
        Task::Recheck { .. } => true,
        Task::RecheckLooked { .. } => true,
        Task::RecheckEach { .. } => true,
        _ => false,
    }
}

fn is_register_task(task: &Job) -> (r: bool)
    ensures
        r == task::is_register_task(shown(*task)),
{
    match task {
        Task::Register => true,
        Task::RegisterKevents => true,
        Task::RegisterAnswered => true,
        Task::RegisterRearmed => true,
        Task::RegisterRound => true,
        Task::Flush => true,
        _ => false,
    }
}

fn is_root_task(task: &Job) -> (r: bool)
    ensures
        r == task::is_root_task(shown(*task)),
{
    match task {
        Task::AddRoot { .. } => true,
        Task::AddRoots { .. } => true,
        Task::AddInnerEach { .. } => true,
        Task::AddInnerEnded { .. } => true,
        Task::AddRegister => true,
        Task::Fallback { .. } => true,
        Task::AddInner { .. } => true,
        Task::AddRootArmed { .. } => true,
        Task::AddRootLooked { .. } => true,
        Task::AddRootAdded { .. } => true,
        _ => false,
    }
}

fn is_upgrade_task(task: &Job) -> (r: bool)
    ensures
        r == task::is_upgrade_task(shown(*task)),
{
    match task {
        Task::UpgradeReached { .. } => true,
        Task::Upgrade { .. } => true,
        Task::UpgradeLooked { .. } => true,
        Task::UpgradeAdded { .. } => true,
        Task::UpgradeArmed { .. } => true,
        Task::UntrackEach { .. } => true,
        Task::RemoveRoot { .. } => true,
        Task::RemoveRootReleased { .. } => true,
        _ => false,
    }
}

impl EventLoop {
    pub closed spec fn wf(&self) -> bool {
        &&& self.roots.wf()
        &&& self.handles.wf()
        &&& self.present.wf()
        &&& self.batch.wf()
        &&& forall|i: int| 0 <= i < self.tasks@.len() ==> job_wf(#[trigger] self.tasks@[i])
    }

    pub fn new() -> (this: EventLoop)
        ensures
            this.wf(),
            this@ == LoopView::new(),
    {
        let this = EventLoop {
            roots: PathMap::new(),
            handles: PathMap::new(),
            present: PathMap::new(),
            unarmed: Vec::new(),
            reappeared: Vec::new(),
            unregistered: false,
            pending: Vec::new(),
            batch: Batch::new(),
            reports: Vec::new(),
            tasks: Vec::new(),
            outcome: Outcome::Done,
        };
        assert(this@ =~= LoopView::new());
        this
    }

    fn push(&mut self, task: Job)
        requires
            old(self).wf(),
            job_wf(task),
        ensures
            final(self).wf(),
            final(self)@ == old(self)@.push(shown(task)),
            final(self).roots == old(self).roots,
            final(self).handles == old(self).handles,
            final(self).batch == old(self).batch,
            final(self).outcome == old(self).outcome,
    {
        self.tasks.push(task);
        assert(self@.tasks =~= old(self)@.tasks.push(shown(task)));
    }

    fn end(&mut self, outcome: Outcome<Error>) -> (request: Request<PathBuf>)
        requires
            old(self).wf(),
        ensures
            final(self).wf(),
            (final(self)@, asked(request)) == old(self)@.ended(outcome::ended_with(outcome)),
    {
        self.outcome = outcome;
        Request::Again
    }

    fn take_outcome(&mut self) -> (outcome: Outcome<Error>)
        requires
            old(self).wf(),
        ensures
            final(self).wf(),
            final(self)@ == old(self)@.taken(),
            outcome::ended_with(outcome) == old(self)@.outcome,
    {
        let mut outcome: Outcome<Error> = Outcome::Done;
        std::mem::swap(&mut outcome, &mut self.outcome);
        outcome
    }

    fn has_failed(&self) -> (r: bool)
        ensures
            r == (self@.outcome is Failed),
    {
        match &self.outcome {
            Outcome::Failed(_) => true,
            _ => false,
        }
    }

    /// What the last arm found its root to be.
    fn found_state(&self) -> (state: RootState)
        ensures
            state == self@.outcome.state(),
    {
        match &self.outcome {
            Outcome::Armed(state) => *state,
            _ => RootState::Missing,
        }
    }

    // --- the handles of paths

    /// Opens a handle at `path`, or makes the one there a full one unless only the chain needs it.
    fn add_single(&mut self, path: PathBuf, chain: bool) -> (request: Request<PathBuf>)
        requires
            old(self).wf(),
        ensures
            final(self).wf(),
            (final(self)@, asked(request)) == old(self)@.add_single(path@, chain),
    {
        proof {
            reveal(LoopView::add_single);
        }
        if let Some(existing) = self.handles.get(&path) {
            let existing = *existing;
            self.handles.insert(path, existing && chain);
            return self.end(Outcome::Done);
        }
        self.push(Task::AddSingleAnswered { path: path.clone(), chain });
        Request::Add(path)
    }

    fn add_single_answered(
        &mut self,
        path: PathBuf,
        chain: bool,
        answer: Answer<PathBuf, Vec<PathBuf>>,
    ) -> (request: Request<PathBuf>)
        requires
            old(self).wf(),
        ensures
            final(self).wf(),
            (final(self)@, asked(request)) == old(self)@.add_single_answered(
                path@,
                chain,
                answered(answer),
            ),
    {
        proof {
            reveal(LoopView::add_single_answered);
        }
        match did_of(&answer) {
            Ok(_) => {
                self.handles.insert(path, chain);
                self.unregistered = true;
                self.end(Outcome::Done)
            },
            Err(errno) => self.end(Outcome::Failed(Error::at(ErrorKind::Io(errno), path))),
        }
    }

    /// Closes the handle at `path`. A path without a handle has nothing to close.
    fn remove_single(&mut self, path: PathBuf) -> (request: Request<PathBuf>)
        requires
            old(self).wf(),
        ensures
            final(self).wf(),
            (final(self)@, asked(request)) == old(self)@.remove_single(path@),
    {
        proof {
            reveal(LoopView::remove_single);
        }
        if self.handles.contains(&path) {
            self.handles.remove(&path);
            self.push(Task::RemoveAnswered { path: path.clone() });
            Request::Remove(path)
        } else {
            self.end(Outcome::Done)
        }
    }

    fn remove_answered(
        &mut self,
        path: PathBuf,
        answer: Answer<PathBuf, Vec<PathBuf>>,
    ) -> (request: Request<PathBuf>)
        requires
            old(self).wf(),
        ensures
            final(self).wf(),
            (final(self)@, asked(request)) == old(self)@.remove_answered(path@, answered(answer)),
    {
        proof {
            reveal(LoopView::remove_answered);
        }
        match did_of(&answer) {
            Ok(_) => self.end(Outcome::Done),
            Err(errno) => self.end(Outcome::Failed(Error::at(ErrorKind::Io(errno), path))),
        }
    }

    fn remove_each(&mut self, paths: Queue<PathBuf>) -> (request: Request<PathBuf>)
        requires
            old(self).wf(),
        ensures
            final(self).wf(),
            (final(self)@, asked(request)) == old(self)@.remove_each(path_list::left(paths)),
    {
        proof {
            reveal(LoopView::remove_each);
        }
        match path_list::take_first(paths) {
            None => self.end(Outcome::Done),
            Some((first, rest)) => {
                self.push(Task::RemoveEach { paths: rest });
                self.push(Task::RemoveSingle { path: first });
                Request::Again
            },
        }
    }

    /// Closes the handle at `path` unless a root still reports through it, or tracked roots lie below it.
    fn release_handle(&mut self, path: PathBuf) -> (request: Request<PathBuf>)
        requires
            old(self).wf(),
        ensures
            final(self).wf(),
            (final(self)@, asked(request)) == old(self)@.release_handle(path@),
    {
        proof {
            reveal(LoopView::release_handle);
        }
        if root::reports(&self.roots, &path) {
            return self.end(Outcome::Done);
        }
        if root::has_tracked_below(&self.roots, &path) {
            if !root::has_root_in(&self.roots, &path) && self.handles.contains(&path) {
                self.handles.insert(path, true);
            }
            return self.end(Outcome::Done);
        }
        self.push(Task::RemoveSingle { path });
        Request::Again
    }

    fn release_each(&mut self, paths: Queue<PathBuf>) -> (request: Request<PathBuf>)
        requires
            old(self).wf(),
        ensures
            final(self).wf(),
            (final(self)@, asked(request)) == old(self)@.release_each(path_list::left(paths)),
    {
        proof {
            reveal(LoopView::release_each);
        }
        match path_list::take_first(paths) {
            None => self.end(Outcome::Done),
            Some((first, rest)) => {
                self.push(Task::ReleaseEach { paths: rest });
                self.push(Task::ReleaseHandle { path: first });
                Request::Again
            },
        }
    }

    // --- what is at and below a path

    /// Watches `path`: the tree below it when `recursive`, else a directory and its entries, else the
    /// path alone.
    fn watch(
        &mut self,
        path: PathBuf,
        recursive: bool,
        is_dir: bool,
    ) -> (request: Request<PathBuf>)
        requires
            old(self).wf(),
        ensures
            final(self).wf(),
            (final(self)@, asked(request)) == old(self)@.watch(path@, recursive, is_dir),
    {
        proof {
            reveal(LoopView::watch);
        }
        if recursive {
            self.push(Task::WalkFound);
            return Request::Walk(path);
        }
        if is_dir {
            self.push(Task::DirAdded { path: path.clone() });
        }
        self.push(Task::AddSingle { path, chain: false });
        Request::Again
    }

    fn dir_added(&mut self, path: PathBuf) -> (request: Request<PathBuf>)
        requires
            old(self).wf(),
        ensures
            final(self).wf(),
            (final(self)@, asked(request)) == old(self)@.dir_added(path@),
    {
        proof {
            reveal(LoopView::dir_added);
        }
        if self.has_failed() {
            return Request::Again;
        }
        self.push(Task::DirListed);
        Request::List(path)
    }

    fn dir_listed(&mut self, answer: Answer<PathBuf, Vec<PathBuf>>) -> (request: Request<PathBuf>)
        requires
            old(self).wf(),
        ensures
            final(self).wf(),
            (final(self)@, asked(request)) == old(self)@.dir_listed(answered(answer)),
    {
        proof {
            reveal(LoopView::dir_listed);
        }
        match list_of(answer) {
            Ok(paths) => {
                self.push(Task::AddEach { paths: Queue::new(paths) });
                Request::Again
            },
            Err(_) => self.end(Outcome::Done),
        }
    }

    fn add_each(&mut self, paths: Queue<PathBuf>) -> (request: Request<PathBuf>)
        requires
            old(self).wf(),
        ensures
            final(self).wf(),
            (final(self)@, asked(request)) == old(self)@.add_each(path_list::left(paths)),
    {
        proof {
            reveal(LoopView::add_each);
        }
        match path_list::take_first(paths) {
            None => self.end(Outcome::Done),
            Some((path, rest)) => {
                self.push(Task::AddEachAdded { paths: rest });
                self.push(Task::AddSingle { path, chain: false });
                Request::Again
            },
        }
    }

    fn add_each_added(&mut self, paths: Queue<PathBuf>) -> (request: Request<PathBuf>)
        requires
            old(self).wf(),
        ensures
            final(self).wf(),
            (final(self)@, asked(request)) == old(self)@.add_each_added(path_list::left(paths)),
    {
        proof {
            reveal(LoopView::add_each_added);
        }
        if !self.has_failed() {
            self.push(Task::AddEach { paths });
        }
        Request::Again
    }

    fn walk_found(&mut self, answer: Answer<PathBuf, Vec<PathBuf>>) -> (request: Request<PathBuf>)
        requires
            old(self).wf(),
        ensures
            final(self).wf(),
            (final(self)@, asked(request)) == old(self)@.walk_found(answered(answer)),
    {
        proof {
            reveal(LoopView::walk_found);
        }
        match walked_of(answer) {
            None => self.end(Outcome::Done),
            Some(Ok(path)) => {
                self.push(Task::WalkAdded);
                self.push(Task::AddSingle { path, chain: false });
                Request::Again
            },
            Some(Err(e)) => self.end(Outcome::Failed(map_walk_error(e))),
        }
    }

    fn walk_added(&mut self) -> (request: Request<PathBuf>)
        requires
            old(self).wf(),
        ensures
            final(self).wf(),
            (final(self)@, asked(request)) == old(self)@.walk_added(),
    {
        proof {
            reveal(LoopView::walk_added);
        }
        if self.has_failed() {
            return Request::Again;
        }
        self.push(Task::WalkFound);
        Request::Next
    }

    // --- the arm of roots

    /// Watches the ancestors of `root` that exist, from the top down, and records them present.
    fn chain(&mut self, root: PathBuf, n: usize) -> (request: Request<PathBuf>)
        requires
            old(self).wf(),
        ensures
            final(self).wf(),
            (final(self)@, asked(request)) == old(self)@.chain(root@, n),
    {
        proof {
            reveal(LoopView::chain);
        }
        if n >= root.len() {
            return self.end(Outcome::Reached(true));
        }
        let ancestor = root.prefix(n);
        self.push(Task::ChainLooked { root, n });
        Request::Stat(ancestor)
    }

    /// Records a tracked ancestor present. One that was recorded absent came back unseen: it is
    /// looked at again once the handles are registered.
    fn note_ancestor_present(&mut self, ancestor: &PathBuf, root: &PathBuf)
        requires
            old(self).wf(),
        ensures
            final(self).wf(),
            final(self)@ == old(self)@.noting_present(ancestor@, root@),
    {
        if self.present.contains(ancestor) {
            return;
        }
        let other = leads_to_other(&self.roots, ancestor, root);
        self.present.insert(ancestor.clone(), ());
        assert(self.present@.dom() =~= old(self).present@.dom().insert(ancestor@));
        if other {
            let copy = ancestor.clone();
            proof {
                path::lemma_views_push(self.reappeared@, copy);
            }
            self.reappeared.push(copy);
        }
    }

    fn chain_looked(
        &mut self,
        root: PathBuf,
        n: usize,
        answer: Answer<PathBuf, Vec<PathBuf>>,
    ) -> (request: Request<PathBuf>)
        requires
            old(self).wf(),
        ensures
            final(self).wf(),
            (final(self)@, asked(request)) == old(self)@.chain_looked(root@, n, answered(answer)),
    {
        proof {
            reveal(LoopView::chain_looked);
        }
        if n >= root.len() {
            return self.end(Outcome::Reached(true));
        }
        let ancestor = root.prefix(n);
        match stat_of(&answer) {
            Ok(stat) => {
                if !stat.is_dir {
                    return self.end(Outcome::Reached(false));
                }
                self.note_ancestor_present(&ancestor, &root);
                let chain = n + 1 < root.len();
                self.push(Task::ChainAdded { root, n });
                self.push(Task::AddSingle { path: ancestor, chain });
                Request::Again
            },
            Err(errno) => {
                if error::is_absent(errno) {
                    self.end(Outcome::Reached(false))
                } else {
                    self.end(Outcome::Failed(Error::at(ErrorKind::Io(errno), ancestor)))
                }
            },
        }
    }

    fn chain_added(&mut self, root: PathBuf, n: usize) -> (request: Request<PathBuf>)
        requires
            old(self).wf(),
        ensures
            final(self).wf(),
            (final(self)@, asked(request)) == old(self)@.chain_added(root@, n),
    {
        proof {
            reveal(LoopView::chain_added);
        }
        if n >= root.len() {
            return self.end(Outcome::Reached(true));
        }
        if self.has_failed() && n + 1 >= root.len() {
            return Request::Again;
        }
        self.push(Task::Chain { root, n: n + 1 });
        Request::Again
    }

    /// Watches a tracked root: its ancestors, and the root itself if it exists.
    fn arm_root(&mut self, root: PathBuf, recursive: bool) -> (request: Request<PathBuf>)
        requires
            old(self).wf(),
        ensures
            final(self).wf(),
            (final(self)@, asked(request)) == old(self)@.arm_root(root@, recursive),
    {
        proof {
            reveal(LoopView::arm_root);
        }
        let n = root.floor();
        self.push(Task::ArmReached { root: root.clone(), recursive });
        self.push(Task::Chain { root, n });
        Request::Again
    }

    /// A root found missing is looked at again once the handles are registered.
    fn find_missing(&mut self, root: PathBuf) -> (request: Request<PathBuf>)
        requires
            old(self).wf(),
        ensures
            final(self).wf(),
            (final(self)@, asked(request)) == old(self)@.found_missing(root@),
    {
        proof {
            path::lemma_views_push(self.unarmed@, root);
        }
        self.unarmed.push(root);
        self.end(Outcome::Armed(RootState::Missing))
    }

    fn arm_reached(&mut self, root: PathBuf, recursive: bool) -> (request: Request<PathBuf>)
        requires
            old(self).wf(),
        ensures
            final(self).wf(),
            (final(self)@, asked(request)) == old(self)@.arm_reached(root@, recursive),
    {
        proof {
            reveal(LoopView::arm_reached);
        }
        match &self.outcome {
            Outcome::Failed(_) => Request::Again,
            Outcome::Reached(true) => {
                self.push(Task::ArmLooked { root: root.clone(), recursive });
                Request::Stat(root)
            },
            _ => self.find_missing(root),
        }
    }

    fn arm_looked(
        &mut self,
        root: PathBuf,
        recursive: bool,
        answer: Answer<PathBuf, Vec<PathBuf>>,
    ) -> (request: Request<PathBuf>)
        requires
            old(self).wf(),
        ensures
            final(self).wf(),
            (final(self)@, asked(request)) == old(self)@.arm_looked(
                root@,
                recursive,
                answered(answer),
            ),
    {
        proof {
            reveal(LoopView::arm_looked);
        }
        match stat_of(&answer) {
            Ok(stat) => {
                self.push(Task::ArmAdded { state: state_of(stat) });
                self.push(
                    Task::Watch {
                        path: root,
                        recursive: recursive && stat.is_dir,
                        is_dir: stat.is_dir,
                    },
                );
                Request::Again
            },
            Err(errno) => {
                if errno == ENOENT {
                    self.find_missing(root)
                } else {
                    self.end(Outcome::Failed(Error::new(ErrorKind::Io(errno))))
                }
            },
        }
    }

    fn arm_added(&mut self, state: RootState) -> (request: Request<PathBuf>)
        requires
            old(self).wf(),
        ensures
            final(self).wf(),
            (final(self)@, asked(request)) == old(self)@.arm_added(state),
    {
        proof {
            reveal(LoopView::arm_added);
        }
        if self.has_failed() {
            Request::Again
        } else {
            self.end(Outcome::Armed(state))
        }
    }

    /// The handles that the arm of `root` may change, besides those it opens.
    fn note_handles(&self, root: &PathBuf) -> (before: PathMap<bool>)
        requires
            self.wf(),
        ensures
            before.wf(),
            before@ == task::noted(self@.handles, root@),
    {
        let mut before = self.handles.copy_below(root);
        if let Some(parent) = root.parent() {
            if let Some(chain) = self.handles.get(&parent) {
                before.insert(parent, *chain);
            }
        }
        assert(before@ =~= task::noted(self@.handles, root@));
        before
    }

    /// Arms a tracked root. A root armed halfway would report events without having been reported
    /// created, so when arming fails, what it did to the handles is undone.
    fn arm(&mut self, root: PathBuf, recursive: bool) -> (request: Request<PathBuf>)
        requires
            old(self).wf(),
        ensures
            final(self).wf(),
            (final(self)@, asked(request)) == old(self)@.arm(root@, recursive),
    {
        proof {
            reveal(LoopView::arm);
        }
        let before = self.note_handles(&root);
        self.push(Task::ArmEnded { root: root.clone(), before });
        self.push(Task::ArmRoot { root, recursive });
        Request::Again
    }

    fn arm_ended(&mut self, root: PathBuf, before: PathMap<bool>) -> (request: Request<PathBuf>)
        requires
            old(self).wf(),
            before.wf(),
        ensures
            final(self).wf(),
            (final(self)@, asked(request)) == old(self)@.arm_ended(root@, before@),
    {
        proof {
            reveal(LoopView::arm_ended);
        }
        if !self.has_failed() {
            return Request::Again;
        }
        if let Outcome::Failed(error) = self.take_outcome() {
            let below = self.handles.keys_below(&root);
            let known = &before;
            let keep = |path: &PathBuf| -> (r: bool)
                requires
                    known.wf(),
                ensures
                    r == task::is_new(known@)(path@),
                {
                    !known.contains(path)
                };
            let added = path_list::chosen_paths(&below, keep, Ghost(task::is_new(known@)));
            self.push(Task::Fail { error });
            self.push(Task::Restore { before });
            self.push(Task::RemoveEach { paths: Queue::new(added) });
        }
        Request::Again
    }

    fn restore(&mut self, before: PathMap<bool>) -> (request: Request<PathBuf>)
        requires
            old(self).wf(),
            before.wf(),
        ensures
            final(self).wf(),
            (final(self)@, asked(request)) == old(self)@.restore(before@),
    {
        proof {
            reveal(LoopView::restore);
        }
        let ghost start = self.handles@;
        let ghost keys = before.keys();
        proof {
            before.lemma_entries();
        }
        let mut i: usize = 0;
        while i < before.len()
            invariant
                i <= keys.len(),
                keys == before.keys(),
                before.wf(),
                self.wf(),
                forall|k: int|
                    0 <= k < keys.len() ==> before@.contains_key(#[trigger] keys[k])
                        && before@[keys[k]] == before.value(k),
                self@ == (LoopView { handles: self.handles@, ..old(self)@ }),
                self.handles@.dom() == start.dom(),
                forall|k: int|
                    0 <= k < i && start.contains_key(#[trigger] keys[k]) ==> self.handles@[keys[k]]
                        == before@[keys[k]],
                forall|p: Seq<Seq<u8>>| #[trigger]
                    start.contains_key(p) && !before@.contains_key(p) ==> self.handles@[p] == start[p],
            decreases keys.len() - i,
        {
            let path = before.key_at(i);
            if self.handles.contains(path) {
                self.handles.insert(path.clone(), *before.value_at(i));
                assert(self.handles@.dom() =~= start.dom());
            }
            i = i + 1;
        }
        proof {
            before.lemma_entries();
            assert forall|p: Seq<Seq<u8>>| start.contains_key(p) implies #[trigger] self.handles@[p]
                == task::restored(start, before@)[p] by {
                if before@.contains_key(p) {
                    let k = choose|k: int| 0 <= k < keys.len() && keys[k] == p;
                    assert(start.contains_key(keys[k]));
                }
            }
            assert(self.handles@ =~= task::restored(start, before@));
        }
        self.end(Outcome::Done)
    }

    /// Arms a missing tracked root again, and reports it created when it is there now.
    fn rearm(&mut self, root: PathBuf) -> (request: Request<PathBuf>)
        requires
            old(self).wf(),
        ensures
            final(self).wf(),
            (final(self)@, asked(request)) == old(self)@.rearm(root@),
    {
        proof {
            reveal(LoopView::rearm);
        }
        let watch = match self.roots.get(&root) {
            Some(watch) => *watch,
            None => {
                return self.end(Outcome::Done);
            },
        };
        if !watch.mode.tracks() || watch.state != RootState::Missing {
            return self.end(Outcome::Done);
        }
        self.push(Task::RearmEnded { root: root.clone() });
        self.push(Task::Arm { root, recursive: watch.mode.recursive() });
        Request::Again
    }

    fn find_present(&mut self, root: PathBuf, state: RootState)
        requires
            old(self).wf(),
        ensures
            final(self).wf(),
            final(self)@ == old(self)@.found_present(root@, state),
    {
        root::set_state(&mut self.roots, &root, state);
        event::push_event(&mut self.pending, created(root, state));
    }

    fn rearm_ended(&mut self, root: PathBuf) -> (request: Request<PathBuf>)
        requires
            old(self).wf(),
        ensures
            final(self).wf(),
            (final(self)@, asked(request)) == old(self)@.rearm_ended(root@),
    {
        proof {
            reveal(LoopView::rearm_ended);
        }
        if self.has_failed() {
            if let Outcome::Failed(error) = self.take_outcome() {
                report::push_error(&mut self.reports, error);
            }
            return self.end(Outcome::Done);
        }
        let state = self.found_state();
        if state != RootState::Missing {
            self.find_present(root, state);
        }
        self.end(Outcome::Done)
    }

    fn rearm_each(&mut self, roots: Queue<PathBuf>) -> (request: Request<PathBuf>)
        requires
            old(self).wf(),
        ensures
            final(self).wf(),
            (final(self)@, asked(request)) == old(self)@.rearm_each(path_list::left(roots)),
    {
        proof {
            reveal(LoopView::rearm_each);
        }
        match path_list::take_first(roots) {
            None => self.end(Outcome::Done),
            Some((first, rest)) => {
                self.push(Task::RearmEach { roots: rest });
                self.push(Task::Rearm { root: first });
                Request::Again
            },
        }
    }

    /// `path` was just found a directory again: watches the roots below it that can be reached now.
    fn rearm_below(&mut self, path: PathBuf) -> (request: Request<PathBuf>)
        requires
            old(self).wf(),
        ensures
            final(self).wf(),
            (final(self)@, asked(request)) == old(self)@.rearm_below(path@),
    {
        proof {
            reveal(LoopView::rearm_below);
        }
        let roots = root::tracked_below(&self.roots, &path, true);
        self.present.insert(path, ());
        assert(self.present@.dom() =~= old(self).present@.dom().insert(path@));
        self.push(Task::RearmEach { roots: Queue::new(roots) });
        Request::Again
    }

    // --- the ancestors of roots

    /// The roots that were there below `path` are reported out of reach.
    fn report_vanished(&mut self, path: &PathBuf)
        requires
            old(self).wf(),
        ensures
            final(self).wf(),
            final(self)@ == old(self)@.all_vanished(
                root::tracked_roots_below(old(self)@.roots, path@, false),
            ),
    {
        let roots = root::tracked_below(&self.roots, path, false);
        let ghost all = path::views(roots@);
        let ghost start = self@;
        let mut i: usize = 0;
        assert(all.take(0) =~= Seq::empty());
        while i < roots.len()
            invariant
                i <= roots@.len(),
                all == path::views(roots@),
                self.wf(),
                self@ == start.all_vanished(all.take(i as int)),
            decreases roots.len() - i,
        {
            proof {
                assert(all.take(i + 1).drop_last() =~= all.take(i as int));
                assert(all.take(i + 1).last() == roots@[i as int]@);
            }
            let state = match self.roots.get(&roots[i]) {
                Some(watch) => watch.state,
                None => RootState::Missing,
            };
            root::set_state(&mut self.roots, &roots[i], RootState::Missing);
            report::push_event(&mut self.reports, removed(roots[i].clone(), state));
            i = i + 1;
        }
        assert(all.take(i as int) =~= all);
    }

    /// The roots below `path` are out of reach: the ones that were present are reported, and the
    /// handles below, which sit on moved or deleted files, are closed.
    fn vanish_below(&mut self, path: PathBuf) -> (request: Request<PathBuf>)
        requires
            old(self).wf(),
        ensures
            final(self).wf(),
            (final(self)@, asked(request)) == old(self)@.vanish_below(path@),
    {
        proof {
            reveal(LoopView::vanish_below);
        }
        self.present.remove_below(&path);
        assert(self.present@.dom() =~= old(self)@.present.filter(
            |a: Seq<Seq<u8>>| !path::starts_with(a, path@),
        ));
        self.report_vanished(&path);
        self.push(Task::DropBelow { path });
        Request::Again
    }

    fn vanish_each(&mut self, paths: Queue<PathBuf>) -> (request: Request<PathBuf>)
        requires
            old(self).wf(),
        ensures
            final(self).wf(),
            (final(self)@, asked(request)) == old(self)@.vanish_each(path_list::left(paths)),
    {
        proof {
            reveal(LoopView::vanish_each);
        }
        match path_list::take_first(paths) {
            None => self.end(Outcome::Done),
            Some((first, rest)) => {
                self.push(Task::VanishEach { paths: rest });
                self.push(Task::VanishBelow { path: first });
                Request::Again
            },
        }
    }

    /// Closes the handles at or below `path`, which is gone, except the ones still in use.
    fn drop_below(&mut self, path: PathBuf) -> (request: Request<PathBuf>)
        requires
            old(self).wf(),
        ensures
            final(self).wf(),
            (final(self)@, asked(request)) == old(self)@.drop_below(path@),
    {
        proof {
            reveal(LoopView::drop_below);
        }
        let below = self.handles.keys_below(&path);
        let roots = &self.roots;
        let present_root = match roots.get(&path) {
            Some(root) => root.state != RootState::Missing,
            None => false,
        };
        let keep = |handle: &PathBuf| -> (r: bool)
            requires
                roots.wf(),
                present_root == (roots@.contains_key(path@) && roots@[path@].state
                    != RootState::Missing),
            ensures
                r == task::is_dropped(roots@, path@)(handle@),
            {
                !((present_root && handle.same(&path)) || is_kept_by_no_track_root(
                    roots,
                    &path,
                    handle,
                ))
            };
        let handles = path_list::chosen_paths(&below, keep, Ghost(task::is_dropped(roots@, path@)));
        self.push(Task::RemoveEach { paths: Queue::new(handles) });
        Request::Again
    }

    fn drop_each(&mut self, paths: Queue<PathBuf>) -> (request: Request<PathBuf>)
        requires
            old(self).wf(),
        ensures
            final(self).wf(),
            (final(self)@, asked(request)) == old(self)@.drop_each(path_list::left(paths)),
    {
        proof {
            reveal(LoopView::drop_each);
        }
        match path_list::take_first(paths) {
            None => self.end(Outcome::Done),
            Some((first, rest)) => {
                self.push(Task::DropEach { paths: rest });
                self.push(Task::DropBelow { path: first });
                Request::Again
            },
        }
    }

    /// Looks at an ancestor of tracked roots. Whether it was there is recorded apart from its handle:
    /// a scan may have watched it again in the batch that shows the change, and an ancestor that
    /// cannot be opened has none.
    fn check_ancestor(&mut self, path: PathBuf) -> (request: Request<PathBuf>)
        requires
            old(self).wf(),
        ensures
            final(self).wf(),
            (final(self)@, asked(request)) == old(self)@.check_ancestor(path@),
    {
        proof {
            reveal(LoopView::check_ancestor);
        }
        self.push(Task::CheckLooked { path: path.clone() });
        Request::Stat(path)
    }

    fn check_looked(
        &mut self,
        path: PathBuf,
        answer: Answer<PathBuf, Vec<PathBuf>>,
    ) -> (request: Request<PathBuf>)
        requires
            old(self).wf(),
        ensures
            final(self).wf(),
            (final(self)@, asked(request)) == old(self)@.check_looked(path@, answered(answer)),
    {
        proof {
            reveal(LoopView::check_looked);
        }
        let present = self.present.contains(&path);
        match stat_of(&answer) {
            Ok(stat) => {
                if stat.is_dir && !present {
                    self.push(Task::RearmBelow { path });
                    return Request::Again;
                }
                if !stat.is_dir && present {
                    self.push(Task::VanishBelow { path });
                    return Request::Again;
                }
            },
            Err(errno) => {
                if error::is_absent(errno) && present {
                    self.push(Task::VanishBelow { path });
                    return Request::Again;
                }
            },
        }
        self.end(Outcome::Done)
    }

    fn check_each(&mut self, paths: Queue<PathBuf>) -> (request: Request<PathBuf>)
        requires
            old(self).wf(),
        ensures
            final(self).wf(),
            (final(self)@, asked(request)) == old(self)@.check_each(path_list::left(paths)),
    {
        proof {
            reveal(LoopView::check_each);
        }
        match path_list::take_first(paths) {
            None => self.end(Outcome::Done),
            Some((first, rest)) => {
                self.push(Task::CheckEach { paths: rest });
                self.push(Task::CheckAncestor { path: first });
                Request::Again
            },
        }
    }

    /// An ancestor of tracked roots changed: its children that are ancestors too are looked at.
    fn check_chain_each(&mut self, paths: Queue<PathBuf>) -> (request: Request<PathBuf>)
        requires
            old(self).wf(),
        ensures
            final(self).wf(),
            (final(self)@, asked(request)) == old(self)@.check_chain_each(path_list::left(paths)),
    {
        proof {
            reveal(LoopView::check_chain_each);
        }
        match path_list::take_first(paths) {
            None => self.end(Outcome::Done),
            Some((dir, rest)) => {
                let children = chain_children(&self.roots, &dir);
                self.push(Task::CheckChainEach { paths: rest });
                self.push(Task::CheckEach { paths: Queue::new(children) });
                Request::Again
            },
        }
    }

    /// An ancestor that an arm found present again is looked at once more, now that the handle on its
    /// parent is registered: it may have gone again, unseen by a handle opened in the same batch.
    fn recheck(&mut self, path: PathBuf) -> (request: Request<PathBuf>)
        requires
            old(self).wf(),
        ensures
            final(self).wf(),
            (final(self)@, asked(request)) == old(self)@.recheck(path@),
    {
        proof {
            reveal(LoopView::recheck);
        }
        if root::has_tracked_below(&self.roots, &path) {
            self.push(Task::RecheckLooked { path: path.clone() });
            Request::Stat(path)
        } else {
            self.end(Outcome::Done)
        }
    }

    fn recheck_looked(
        &mut self,
        path: PathBuf,
        answer: Answer<PathBuf, Vec<PathBuf>>,
    ) -> (request: Request<PathBuf>)
        requires
            old(self).wf(),
        ensures
            final(self).wf(),
            (final(self)@, asked(request)) == old(self)@.recheck_looked(path@, answered(answer)),
    {
        proof {
            reveal(LoopView::recheck_looked);
        }
        match stat_of(&answer) {
            Ok(stat) => {
                if stat.is_dir {
                    self.push(Task::RearmBelow { path });
                } else {
                    self.push(Task::VanishBelow { path });
                }
                Request::Again
            },
            Err(errno) => {
                if error::is_absent(errno) {
                    self.push(Task::VanishBelow { path });
                    Request::Again
                } else {
                    self.end(Outcome::Done)
                }
            },
        }
    }

    fn recheck_each(&mut self, paths: Queue<PathBuf>) -> (request: Request<PathBuf>)
        requires
            old(self).wf(),
        ensures
            final(self).wf(),
            (final(self)@, asked(request)) == old(self)@.recheck_each(path_list::left(paths)),
    {
        proof {
            reveal(LoopView::recheck_each);
        }
        match path_list::take_first(paths) {
            None => self.end(Outcome::Done),
            Some((first, rest)) => {
                self.push(Task::RecheckEach { paths: rest });
                self.push(Task::Recheck { path: first });
                Request::Again
            },
        }
    }

    // --- the registration

    fn register(&mut self) -> (request: Request<PathBuf>)
        requires
            old(self).wf(),
        ensures
            final(self).wf(),
            (final(self)@, asked(request)) == old(self)@.register(),
    {
        proof {
            reveal(LoopView::register);
        }
        self.push(Task::Flush);
        self.push(Task::RegisterKevents);
        Request::Again
    }

    fn register_kevents(&mut self) -> (request: Request<PathBuf>)
        requires
            old(self).wf(),
        ensures
            final(self).wf(),
            (final(self)@, asked(request)) == old(self)@.register_kevents(),
    {
        proof {
            reveal(LoopView::register_kevents);
        }
        self.push(Task::RegisterAnswered);
        Request::Register
    }

    fn register_answered(
        &mut self,
        answer: Answer<PathBuf, Vec<PathBuf>>,
    ) -> (request: Request<PathBuf>)
        requires
            old(self).wf(),
        ensures
            final(self).wf(),
            (final(self)@, asked(request)) == old(self)@.register_answered(answered(answer)),
    {
        proof {
            reveal(LoopView::register_answered);
        }
        match did_of(&answer) {
            Ok(_) => {
                self.unregistered = false;
                let mut unarmed: Vec<PathBuf> = Vec::new();
                assert(path::views(unarmed@) =~= Seq::empty());
                std::mem::swap(&mut unarmed, &mut self.unarmed);
                self.push(Task::RegisterRearmed);
                self.push(Task::RearmEach { roots: Queue::new(unarmed) });
                Request::Again
            },
            Err(errno) => self.end(Outcome::Failed(Error::new(ErrorKind::Io(errno)))),
        }
    }

    fn register_rearmed(&mut self) -> (request: Request<PathBuf>)
        requires
            old(self).wf(),
        ensures
            final(self).wf(),
            (final(self)@, asked(request)) == old(self)@.register_rearmed(),
    {
        proof {
            reveal(LoopView::register_rearmed);
        }
        let mut reappeared: Vec<PathBuf> = Vec::new();
        assert(path::views(reappeared@) =~= Seq::empty());
        std::mem::swap(&mut reappeared, &mut self.reappeared);
        self.push(Task::RegisterRound);
        self.push(Task::RecheckEach { paths: Queue::new(reappeared) });
        Request::Again
    }

    fn register_round(&mut self) -> (request: Request<PathBuf>)
        requires
            old(self).wf(),
        ensures
            final(self).wf(),
            (final(self)@, asked(request)) == old(self)@.register_round(),
    {
        proof {
            reveal(LoopView::register_round);
        }
        if self.unregistered || self.reappeared.len() > 0 {
            self.push(Task::RegisterKevents);
            return Request::Again;
        }
        self.unarmed = Vec::new();
        assert(path::views(self.unarmed@) =~= Seq::empty());
        self.end(Outcome::Done)
    }

    fn flush(&mut self) -> (request: Request<PathBuf>)
        requires
            old(self).wf(),
        ensures
            final(self).wf(),
            (final(self)@, asked(request)) == old(self)@.flush(),
    {
        proof {
            reveal(LoopView::flush);
        }
        let mut pending: Vec<Event> = Vec::new();
        assert(event::views(pending@) =~= Seq::empty());
        std::mem::swap(&mut pending, &mut self.pending);
        report::push_events(&mut self.reports, pending);
        Request::Again
    }

    // --- what the user asks for

    fn add_root(&mut self, path: PathBuf, mode: WatchMode) -> (request: Request<PathBuf>)
        requires
            old(self).wf(),
        ensures
            final(self).wf(),
            (final(self)@, asked(request)) == old(self)@.add_root(path@, mode),
    {
        proof {
            reveal(LoopView::add_root);
        }
        self.push(Task::AddRegister);
        self.push(Task::AddInner { path, mode });
        Request::Again
    }

    fn add_roots(&mut self, wanted: Queue<Wanted>) -> (request: Request<PathBuf>)
        requires
            old(self).wf(),
        ensures
            final(self).wf(),
            (final(self)@, asked(request)) == old(self)@.add_roots(wanted_left(wanted)),
    {
        proof {
            reveal(LoopView::add_roots);
        }
        self.push(Task::AddRegister);
        self.push(Task::AddInnerEach { wanted });
        Request::Again
    }

    fn add_inner_each(&mut self, wanted: Queue<Wanted>) -> (request: Request<PathBuf>)
        requires
            old(self).wf(),
        ensures
            final(self).wf(),
            (final(self)@, asked(request)) == old(self)@.add_inner_each(wanted_left(wanted)),
    {
        proof {
            reveal(LoopView::add_inner_each);
        }
        let (path, mode) = match wanted.first() {
            Some(first) => (first.path.clone(), first.mode),
            None => {
                return self.end(Outcome::Done);
            },
        };
        let mut rest = wanted;
        rest.advance();
        assert(wanted_left(rest) =~= wanted_left(wanted).drop_first());
        self.push(Task::AddInnerEnded { wanted: rest });
        self.push(Task::AddInner { path, mode });
        Request::Again
    }

    fn add_inner_ended(&mut self, wanted: Queue<Wanted>) -> (request: Request<PathBuf>)
        requires
            old(self).wf(),
        ensures
            final(self).wf(),
            (final(self)@, asked(request)) == old(self)@.add_inner_ended(wanted_left(wanted)),
    {
        proof {
            reveal(LoopView::add_inner_ended);
        }
        if !self.has_failed() {
            self.push(Task::AddInnerEach { wanted });
        }
        Request::Again
    }

    fn add_register(&mut self) -> (request: Request<PathBuf>)
        requires
            old(self).wf(),
        ensures
            final(self).wf(),
            (final(self)@, asked(request)) == old(self)@.add_register(),
    {
        proof {
            reveal(LoopView::add_register);
        }
        if self.has_failed() {
            if let Outcome::Failed(error) = self.take_outcome() {
                self.push(Task::Fallback { error });
            }
        }
        self.push(Task::Register);
        Request::Again
    }

    fn fallback(&mut self, error: Error) -> (request: Request<PathBuf>)
        requires
            old(self).wf(),
        ensures
            final(self).wf(),
            (final(self)@, asked(request)) == old(self)@.fallback(error@),
    {
        proof {
            reveal(LoopView::fallback);
        }
        if self.has_failed() {
            Request::Again
        } else {
            self.end(Outcome::Failed(error))
        }
    }

    fn add_inner(&mut self, path: PathBuf, mode: WatchMode) -> (request: Request<PathBuf>)
        requires
            old(self).wf(),
        ensures
            final(self).wf(),
            (final(self)@, asked(request)) == old(self)@.add_inner(path@, mode),
    {
        proof {
            reveal(LoopView::add_inner);
        }
        if let Some(existing) = self.roots.get(&path) {
            let existing = *existing;
            let recurse = mode.recursive() && !existing.mode.recursive();
            if mode.tracks() && !existing.mode.tracks() {
                let n = path.floor();
                self.push(Task::UpgradeReached { path: path.clone(), mode, recurse });
                self.push(Task::Chain { root: path, n });
            } else {
                self.push(Task::Upgrade { path, mode, recurse });
            }
            return Request::Again;
        }
        if mode.tracks() {
            self.push(Task::AddRootArmed { path: path.clone(), mode });
            self.push(Task::Arm { root: path, recursive: mode.recursive() });
            return Request::Again;
        }
        self.push(Task::AddRootLooked { path: path.clone(), mode });
        Request::Stat(path)
    }

    /// Forgets the ancestors of `path` that lead to no tracked root any more, and hands `error` on.
    fn refuse(&mut self, path: &PathBuf, error: Error) -> (request: Request<PathBuf>)
        requires
            old(self).wf(),
            old(self)@.outcome is Done,
        ensures
            final(self).wf(),
            (final(self)@, asked(request)) == old(self)@.refused(path@, error@),
    {
        let ancestors = untracked(&self.roots, path);
        assert(self@.taken() == self@);
        self.push(Task::Fail { error });
        self.push(Task::UntrackEach { paths: Queue::new(ancestors) });
        Request::Again
    }

    fn add_root_armed(&mut self, path: PathBuf, mode: WatchMode) -> (request: Request<PathBuf>)
        requires
            old(self).wf(),
        ensures
            final(self).wf(),
            (final(self)@, asked(request)) == old(self)@.add_root_armed(path@, mode),
    {
        proof {
            reveal(LoopView::add_root_armed);
        }
        if self.has_failed() {
            return match self.take_outcome() {
                Outcome::Failed(error) => self.refuse(&path, error),
                _ => Request::Again,
            };
        }
        let state = self.found_state();
        self.roots.insert(path, RootWatch { mode, state });
        self.end(Outcome::Done)
    }

    fn add_root_looked(
        &mut self,
        path: PathBuf,
        mode: WatchMode,
        answer: Answer<PathBuf, Vec<PathBuf>>,
    ) -> (request: Request<PathBuf>)
        requires
            old(self).wf(),
        ensures
            final(self).wf(),
            (final(self)@, asked(request)) == old(self)@.add_root_looked(
                path@,
                mode,
                answered(answer),
            ),
    {
        proof {
            reveal(LoopView::add_root_looked);
        }
        match stat_of(&answer) {
            Ok(stat) => {
                self.push(Task::AddRootAdded { path: path.clone(), mode, state: state_of(stat) });
                self.push(
                    Task::Watch {
                        path,
                        recursive: mode.recursive() && stat.is_dir,
                        is_dir: stat.is_dir,
                    },
                );
                Request::Again
            },
            Err(errno) => self.end(Outcome::Failed(Error::new(error::watch_error(errno)))),
        }
    }

    fn add_root_added(
        &mut self,
        path: PathBuf,
        mode: WatchMode,
        state: RootState,
    ) -> (request: Request<PathBuf>)
        requires
            old(self).wf(),
        ensures
            final(self).wf(),
            (final(self)@, asked(request)) == old(self)@.add_root_added(path@, mode, state),
    {
        proof {
            reveal(LoopView::add_root_added);
        }
        if self.has_failed() {
            return Request::Again;
        }
        self.roots.insert(path, RootWatch { mode, state });
        self.end(Outcome::Done)
    }

    fn upgrade_reached(
        &mut self,
        path: PathBuf,
        mode: WatchMode,
        recurse: bool,
    ) -> (request: Request<PathBuf>)
        requires
            old(self).wf(),
        ensures
            final(self).wf(),
            (final(self)@, asked(request)) == old(self)@.upgrade_reached(path@, mode, recurse),
    {
        proof {
            reveal(LoopView::upgrade_reached);
        }
        if self.has_failed() {
            return match self.take_outcome() {
                Outcome::Failed(error) => self.refuse(&path, error),
                _ => Request::Again,
            };
        }
        let existing = match self.roots.get(&path) {
            Some(existing) => *existing,
            None => {
                return self.end(Outcome::Done);
            },
        };
        let mode_of_tracking = WatchMode {
            target_mode: TargetMode::TrackPath,
            recursive_mode: existing.mode.recursive_mode,
        };
        self.roots.insert(path.clone(), RootWatch { mode: mode_of_tracking, state: existing.state });
        self.push(Task::Upgrade { path, mode, recurse });
        Request::Again
    }

    /// The root at `path` is watched in its mode and in `mode`.
    fn upgrade_mode(&mut self, path: &PathBuf, mode: WatchMode)
        requires
            old(self).wf(),
        ensures
            final(self).wf(),
            final(self)@ == old(self)@.upgraded(path@, mode),
    {
        if let Some(existing) = self.roots.get(path) {
            let existing = *existing;
            let mut both = existing.mode;
            both.upgrade_with(mode);
            self.roots.insert(path.clone(), RootWatch { mode: both, state: existing.state });
        }
    }

    /// A root watched again: its mode is upgraded, and a tracked root that is missing is armed again,
    /// so that a root left missing by a failed arm is recovered by watching it again.
    fn upgrade(
        &mut self,
        path: PathBuf,
        mode: WatchMode,
        recurse: bool,
    ) -> (request: Request<PathBuf>)
        requires
            old(self).wf(),
        ensures
            final(self).wf(),
            (final(self)@, asked(request)) == old(self)@.upgrade(path@, mode, recurse),
    {
        proof {
            reveal(LoopView::upgrade);
        }
        let existing = match self.roots.get(&path) {
            Some(existing) => *existing,
            None => {
                return self.end(Outcome::Done);
            },
        };
        if existing.state == RootState::Missing {
            let mut both = existing.mode;
            both.upgrade_with(mode);
            self.upgrade_mode(&path, mode);
            self.push(Task::UpgradeArmed { path: path.clone() });
            self.push(Task::Arm { root: path, recursive: both.recursive() });
            return Request::Again;
        }
        if recurse {
            self.push(Task::UpgradeLooked { path: path.clone(), mode });
            return Request::Stat(path);
        }
        self.upgrade_mode(&path, mode);
        self.end(Outcome::Done)
    }

    fn upgrade_looked(
        &mut self,
        path: PathBuf,
        mode: WatchMode,
        answer: Answer<PathBuf, Vec<PathBuf>>,
    ) -> (request: Request<PathBuf>)
        requires
            old(self).wf(),
        ensures
            final(self).wf(),
            (final(self)@, asked(request)) == old(self)@.upgrade_looked(
                path@,
                mode,
                answered(answer),
            ),
    {
        proof {
            reveal(LoopView::upgrade_looked);
        }
        match stat_of(&answer) {
            Ok(stat) => {
                if stat.is_dir {
                    self.push(Task::UpgradeAdded { path: path.clone(), mode });
                    self.push(Task::Watch { path, recursive: true, is_dir: true });
                    Request::Again
                } else {
                    self.upgrade_mode(&path, mode);
                    self.end(Outcome::Done)
                }
            },
            Err(errno) => self.end(Outcome::Failed(Error::new(ErrorKind::Io(errno)))),
        }
    }

    fn upgrade_added(&mut self, path: PathBuf, mode: WatchMode) -> (request: Request<PathBuf>)
        requires
            old(self).wf(),
        ensures
            final(self).wf(),
            (final(self)@, asked(request)) == old(self)@.upgrade_added(path@, mode),
    {
        proof {
            reveal(LoopView::upgrade_added);
        }
        if self.has_failed() {
            return Request::Again;
        }
        self.upgrade_mode(&path, mode);
        self.end(Outcome::Done)
    }

    fn upgrade_armed(&mut self, path: PathBuf) -> (request: Request<PathBuf>)
        requires
            old(self).wf(),
        ensures
            final(self).wf(),
            (final(self)@, asked(request)) == old(self)@.upgrade_armed(path@),
    {
        proof {
            reveal(LoopView::upgrade_armed);
        }
        if self.has_failed() {
            return Request::Again;
        }
        let state = self.found_state();
        if state != RootState::Missing {
            self.find_present(path, state);
        }
        self.end(Outcome::Done)
    }

    /// Forgets the ancestors of a root that is no longer tracked, closing the handles nobody needs any
    /// more.
    fn untrack_each(&mut self, paths: Queue<PathBuf>) -> (request: Request<PathBuf>)
        requires
            old(self).wf(),
        ensures
            final(self).wf(),
            (final(self)@, asked(request)) == old(self)@.untrack_each(path_list::left(paths)),
    {
        proof {
            reveal(LoopView::untrack_each);
        }
        match path_list::take_first(paths) {
            None => self.end(Outcome::Done),
            Some((path, rest)) => {
                self.present.remove(&path);
                assert(self.present@.dom() =~= old(self).present@.dom().remove(path@));
                self.push(Task::UntrackEach { paths: rest });
                if !root::reports(&self.roots, &path) {
                    self.push(Task::RemoveSingle { path });
                }
                Request::Again
            },
        }
    }

    /// Unwatches a root, keeping every handle another root still reports through or needs as an
    /// ancestor. A missing root holds no handle of its own, so unwatching it only forgets it.
    fn remove_root(&mut self, path: PathBuf) -> (request: Request<PathBuf>)
        requires
            old(self).wf(),
        ensures
            final(self).wf(),
            (final(self)@, asked(request)) == old(self)@.remove_root(path@),
    {
        proof {
            reveal(LoopView::remove_root);
        }
        let root = match self.roots.get(&path) {
            Some(root) => *root,
            None => {
                return self.end(Outcome::Failed(Error::new(ErrorKind::WatchNotFound)));
            },
        };
        self.roots.remove(&path);
        let below = self.handles.keys_below(&path);
        self.push(Task::RemoveRootReleased { path: path.clone(), tracks: root.mode.tracks() });
        if root.mode.recursive() {
            self.push(Task::ReleaseEach { paths: Queue::new(below) });
            return Request::Again;
        }
        let dir = &path;
        let keep = |handle: &PathBuf| -> (r: bool)
            ensures
                r == task::is_entry_of(dir@)(handle@),
            {
                handle.parent_is(dir)
            };
        let entries = path_list::chosen_paths(&below, keep, Ghost(task::is_entry_of(dir@)));
        self.push(Task::ReleaseHandle { path: path.clone() });
        self.push(Task::ReleaseEach { paths: Queue::new(entries) });
        Request::Again
    }

    fn remove_root_released(&mut self, path: PathBuf, tracks: bool) -> (request: Request<PathBuf>)
        requires
            old(self).wf(),
        ensures
            final(self).wf(),
            (final(self)@, asked(request)) == old(self)@.remove_root_released(path@, tracks),
    {
        proof {
            reveal(LoopView::remove_root_released);
        }
        if self.has_failed() {
            if let Outcome::Failed(error) = self.take_outcome() {
                self.push(Task::Fallback { error });
            }
        }
        self.push(Task::Register);
        if tracks {
            let ancestors = untracked(&self.roots, &path);
            self.push(Task::UntrackEach { paths: Queue::new(ancestors) });
        }
        Request::Again
    }

    // --- what happened

    /// `path` is gone: a root there is missing, and the roots below it are cut off.
    fn note_gone(&mut self, path: &PathBuf)
        requires
            old(self).wf(),
        ensures
            final(self).wf(),
            final(self)@ == old(self)@.gone(path@),
    {
        if root::has_tracked_below(&self.roots, path) {
            self.batch.vanished.insert(path.clone(), ());
            assert(self.batch.vanished@.dom() =~= old(self).batch.vanished@.dom().insert(path@));
        }
        self.batch.stale.insert(path.clone(), ());
        assert(self.batch.stale@.dom() =~= old(self).batch.stale@.dom().insert(path@));
        root::set_state(&mut self.roots, path, RootState::Missing);
    }

    /// Reports `kind` of `path` if a root reports through the handle there.
    fn report_at(&mut self, path: &PathBuf, kind: EventKind)
        requires
            old(self).wf(),
        ensures
            final(self).wf(),
            final(self)@ == old(self)@.reporting_at(path@, kind),
    {
        if root::reports(&self.roots, path) {
            report::push_event(&mut self.reports, Event::new(kind).add_path(path.clone()));
        }
    }

    /// A NoTrack root ends with the entity it was bound to. It goes at once, so that the rest of the
    /// batch does not take a new entity at its path for it.
    fn forget_no_track_root(&mut self, path: &PathBuf)
        requires
            old(self).wf(),
        ensures
            final(self).wf(),
            final(self)@ == old(self)@.forgetting(path@),
    {
        let no_track = match self.roots.get(path) {
            Some(root) => !root.mode.tracks(),
            None => false,
        };
        if !no_track {
            return;
        }
        self.roots.remove(path);
        let below = self.batch.add.keys_below(path);
        let ghost add = self.batch.add@;
        let ghost roots = self.roots@;
        let ghost gone = |q: Seq<Seq<u8>>| !root::is_watched_path(roots, q);
        let mut i: usize = 0;
        while i < below.len()
            invariant
                i <= below@.len(),
                self.wf(),
                roots == self.roots@,
                gone == (|q: Seq<Seq<u8>>| !root::is_watched_path(roots, q)),
                self@ == (LoopView {
                    roots,
                    batch: BatchView { add: self.batch.add@, ..old(self)@.batch },
                    ..old(self)@
                }),
                forall|q: Seq<Seq<u8>>| #[trigger]
                    self.batch.add@.contains_key(q) ==> add.contains_key(q) && self.batch.add@[q]
                        == add[q],
                forall|q: Seq<Seq<u8>>| #[trigger]
                    add.contains_key(q) && !self.batch.add@.contains_key(q) ==> gone(q)
                        && path::starts_with(q, path@),
                forall|j: int|
                    0 <= j < i && gone((#[trigger] below@[j])@) ==> !self.batch.add@.contains_key(
                        below@[j]@,
                    ),
                forall|j: int|
                    0 <= j < below@.len() ==> path::starts_with((#[trigger] below@[j])@, path@),
            decreases below.len() - i,
        {
            if !root::reports(&self.roots, &below[i]) {
                self.batch.add.remove(&below[i]);
            }
            i = i + 1;
        }
        proof {
            let kept = add.restrict(
                Set::new(
                    |q: Seq<Seq<u8>>|
                        !path::starts_with(q, path@) || root::is_watched_path(roots, q),
                ),
            );
            assert forall|q: Seq<Seq<u8>>| #[trigger] kept.contains_key(q)
                == self.batch.add@.contains_key(q) by {
                if add.contains_key(q) && path::starts_with(q, path@) && gone(q) {
                    let j = choose|j: int| 0 <= j < below@.len() && (#[trigger] below@[j])@ == q;
                    assert(gone(below@[j]@));
                }
            }
            assert(self.batch.add@ =~= kept);
        }
    }

    /// `path` was found new: it is watched, and reported created.
    fn find_new(&mut self, path: PathBuf, stat: Result<PathStat, i32>)
        requires
            old(self).wf(),
        ensures
            final(self).wf(),
            final(self)@ == old(self)@.found_new(path@, stat),
    {
        let is_dir = is_dir_at(stat);
        let state = if is_dir {
            RootState::Directory
        } else {
            RootState::File
        };
        root::set_state(&mut self.roots, &path, state);
        let is_recursive = is_recursive_at(&self.roots, &path);
        self.batch.add.insert(path.clone(), Found { is_recursive, is_dir });
        let event = Event::new(EventKind::Create(create_kind(stat))).add_path(path);
        report::push_event(&mut self.reports, event);
    }

    fn happened(&mut self, vnode: Vnode, path: PathBuf) -> (request: Request<PathBuf>)
        requires
            old(self).wf(),
        ensures
            final(self).wf(),
            (final(self)@, asked(request)) == old(self)@.happened(vnode, path@),
    {
        proof {
            reveal(LoopView::happened);
        }
        match vnode {
            Vnode::Delete => {
                self.note_gone(&path);
                self.report_at(&path, EventKind::Remove(RemoveKind::Any));
                self.forget_no_track_root(&path);
                if root::reports(&self.roots, &path) {
                    self.push(Task::DeleteLooked { path: path.clone() });
                    return Request::Stat(path);
                }
            },
            Vnode::Write => {
                self.push(Task::WriteLooked { path: path.clone() });
                return Request::Stat(path);
            },
            Vnode::Extend | Vnode::Truncate => {
                self.report_at(&path, EventKind::Modify(ModifyKind::Data(DataChange::Size)));
            },
            Vnode::Attrib => {
                self.report_at(&path, EventKind::Modify(ModifyKind::Metadata(MetadataKind::Any)));
            },
            Vnode::Link => {
                if is_recursive_at(&self.roots, &path) {
                    let copy = path.clone();
                    proof {
                        path::lemma_views_push(self.batch.rewalk@, copy);
                    }
                    self.batch.rewalk.push(copy);
                    self.batch.add.insert(path.clone(), Found { is_recursive: true, is_dir: true });
                }
                self.report_at(&path, EventKind::Modify(ModifyKind::Any));
            },
            Vnode::Rename => {
                self.note_gone(&path);
                self.report_at(&path, EventKind::Modify(ModifyKind::Name(RenameMode::Any)));
                self.forget_no_track_root(&path);
            },
            Vnode::Revoke => {
                self.note_gone(&path);
                self.report_at(&path, EventKind::Remove(RemoveKind::Any));
                self.forget_no_track_root(&path);
            },
            Vnode::Other => {
                report::push_event(&mut self.reports, Event::new(EventKind::Other));
            },
        }
        self.end(Outcome::Done)
    }

    fn delete_looked(
        &mut self,
        path: PathBuf,
        answer: Answer<PathBuf, Vec<PathBuf>>,
    ) -> (request: Request<PathBuf>)
        requires
            old(self).wf(),
        ensures
            final(self).wf(),
            (final(self)@, asked(request)) == old(self)@.delete_looked(path@, answered(answer)),
    {
        proof {
            reveal(LoopView::delete_looked);
        }
        let stat = stat_of(&answer);
        if stat.is_ok() {
            self.find_new(path, stat);
        }
        self.end(Outcome::Done)
    }

    fn write_looked(
        &mut self,
        path: PathBuf,
        answer: Answer<PathBuf, Vec<PathBuf>>,
    ) -> (request: Request<PathBuf>)
        requires
            old(self).wf(),
        ensures
            final(self).wf(),
            (final(self)@, asked(request)) == old(self)@.write_looked(path@, answered(answer)),
    {
        proof {
            reveal(LoopView::write_looked);
        }
        if !is_dir_at(stat_of(&answer)) {
            self.report_at(&path, EventKind::Modify(ModifyKind::Data(DataChange::Any)));
            return self.end(Outcome::Done);
        }
        if root::has_tracked_below(&self.roots, &path) {
            self.batch.changed.insert(path.clone(), ());
            assert(self.batch.changed@.dom() =~= old(self).batch.changed@.dom().insert(path@));
        }
        let chain = match self.handles.get(&path) {
            Some(chain) => *chain,
            None => false,
        };
        if chain {
            return self.end(Outcome::Done);
        }
        self.push(Task::Listed { path: path.clone() });
        Request::List(path)
    }

    fn listed(
        &mut self,
        path: PathBuf,
        answer: Answer<PathBuf, Vec<PathBuf>>,
    ) -> (request: Request<PathBuf>)
        requires
            old(self).wf(),
        ensures
            final(self).wf(),
            (final(self)@, asked(request)) == old(self)@.listed(path@, answered(answer)),
    {
        proof {
            reveal(LoopView::listed);
        }
        match list_of(answer) {
            Ok(entries) => {
                let handles = &self.handles;
                let stale = &self.batch.stale;
                let keep = |entry: &PathBuf| -> (r: bool)
                    requires
                        handles.wf(),
                        stale.wf(),
                    ensures
                        r == task::is_unknown(handles@, stale@.dom())(entry@),
                    {
                        !handles.contains(entry) || stale.contains(entry)
                    };
                let files = path_list::chosen_paths(
                    &entries,
                    keep,
                    Ghost(task::is_unknown(handles@, stale@.dom())),
                );
                self.push(Task::Scan { path, files: Queue::new(files), found: false });
                Request::Again
            },
            Err(errno) => {
                report::push_error(&mut self.reports, Error::new(ErrorKind::Io(errno)));
                self.end(Outcome::Done)
            },
        }
    }

    fn scan(
        &mut self,
        path: PathBuf,
        files: Queue<PathBuf>,
        found: bool,
    ) -> (request: Request<PathBuf>)
        requires
            old(self).wf(),
        ensures
            final(self).wf(),
            (final(self)@, asked(request)) == old(self)@.scan(path@, path_list::left(files), found),
    {
        proof {
            reveal(LoopView::scan);
        }
        let (file, rest) = match path_list::take_first(files) {
            Some((file, rest)) => (file, rest),
            None => {
                if !found {
                    self.report_at(&path, EventKind::Modify(ModifyKind::Data(DataChange::Any)));
                }
                return self.end(Outcome::Done);
            },
        };
        if self.batch.add.contains(&file) {
            self.push(Task::Scan { path, files: rest, found: true });
            return Request::Again;
        }
        self.push(Task::ScanLooked { path, file: file.clone(), files: rest });
        Request::Stat(file)
    }

    fn scan_looked(
        &mut self,
        path: PathBuf,
        file: PathBuf,
        files: Queue<PathBuf>,
        answer: Answer<PathBuf, Vec<PathBuf>>,
    ) -> (request: Request<PathBuf>)
        requires
            old(self).wf(),
        ensures
            final(self).wf(),
            (final(self)@, asked(request)) == old(self)@.scan_looked(
                path@,
                file@,
                path_list::left(files),
                answered(answer),
            ),
    {
        proof {
            reveal(LoopView::scan_looked);
        }
        if root::reports(&self.roots, &file) {
            self.find_new(file, stat_of(&answer));
            return self.end(Outcome::Done);
        }
        self.push(Task::Scan { path, files, found: true });
        Request::Again
    }

    // --- the end of a batch

    fn stale_each(&mut self, paths: Queue<PathBuf>) -> (request: Request<PathBuf>)
        requires
            old(self).wf(),
        ensures
            final(self).wf(),
            (final(self)@, asked(request)) == old(self)@.stale_each(path_list::left(paths)),
    {
        proof {
            reveal(LoopView::stale_each);
        }
        match path_list::take_first(paths) {
            None => self.end(Outcome::Done),
            Some((path, rest)) => {
                self.push(Task::StaleEach { paths: rest });
                self.push(Task::DropBelow { path: path.clone() });
                self.push(Task::RemoveSingle { path });
                Request::Again
            },
        }
    }

    fn add_all(&mut self, paths: Queue<PathBuf>) -> (request: Request<PathBuf>)
        requires
            old(self).wf(),
        ensures
            final(self).wf(),
            (final(self)@, asked(request)) == old(self)@.add_all(path_list::left(paths)),
    {
        proof {
            reveal(LoopView::add_all);
        }
        match path_list::take_first(paths) {
            None => self.end(Outcome::Done),
            Some((path, rest)) => {
                match self.batch.add.get(&path) {
                    Some(found) => {
                        let found = *found;
                        self.push(Task::AddAllEnded { path: path.clone(), paths: rest });
                        self.push(
                            Task::Watch {
                                path,
                                recursive: found.is_recursive,
                                is_dir: found.is_dir,
                            },
                        );
                    },
                    None => {
                        self.push(Task::AddAll { paths: rest });
                    },
                }
                Request::Again
            },
        }
    }

    fn add_all_ended(
        &mut self,
        path: PathBuf,
        paths: Queue<PathBuf>,
    ) -> (request: Request<PathBuf>)
        requires
            old(self).wf(),
        ensures
            final(self).wf(),
            (final(self)@, asked(request)) == old(self)@.add_all_ended(
                path@,
                path_list::left(paths),
            ),
    {
        proof {
            reveal(LoopView::add_all_ended);
        }
        self.push(Task::AddAll { paths });
        let deleted = match &self.outcome {
            Outcome::Failed(error) => is_not_found(error) && path::contains_path(&error.paths, &path),
            _ => false,
        };
        if deleted {
            let event = Event::new(EventKind::Remove(RemoveKind::Any)).add_path(path);
            report::push_event(&mut self.reports, event);
        }
        Request::Again
    }

    fn batch_ended(&mut self) -> (request: Request<PathBuf>)
        requires
            old(self).wf(),
        ensures
            final(self).wf(),
            (final(self)@, asked(request)) == old(self)@.batch_ended(),
    {
        proof {
            reveal(LoopView::batch_ended);
        }
        self.batch = Batch::new();
        if self.has_failed() {
            if let Outcome::Failed(error) = self.take_outcome() {
                report::push_error(&mut self.reports, error);
            }
        }
        self.end(Outcome::Done)
    }
    /// Takes the next step: goes on with the answer to the last request, and says what is asked
    /// next.
    pub fn step(&mut self, answer: Answer<PathBuf, Vec<PathBuf>>) -> (request: Request<PathBuf>)
        requires
            old(self).wf(),
        ensures
            final(self).wf(),
            (final(self)@, asked(request)) == old(self)@.step(answered(answer)),
    {
        let ghost tasks = self.tasks@;
        match self.tasks.pop() {
            None => Request::Idle,
            Some(task) => {
                assert(self@ =~= old(self)@.popped());
                assert(old(self)@.tasks.last() == shown(task));
                assert(task == tasks[tasks.len() - 1]);
                self.go_on(task, answer)
            },
        }
    }

    /// Goes on with a task.
    fn go_on(&mut self, task: Job, answer: Answer<PathBuf, Vec<PathBuf>>) -> (request: Request<
        PathBuf,
    >)
        requires
            old(self).wf(),
            job_wf(task),
        ensures
            final(self).wf(),
            (final(self)@, asked(request)) == old(self)@.go_on(shown(task), answered(answer)),
    {
        if is_handle_task(&task) {
            self.go_on_handle(task, answer)
        } else if is_arm_task(&task) {
            self.go_on_arm(task, answer)
        } else if is_ancestor_task(&task) {
            self.go_on_ancestor(task, answer)
        } else if is_register_task(&task) {
            self.go_on_register(task, answer)
        } else if is_root_task(&task) {
            self.go_on_root(task, answer)
        } else if is_upgrade_task(&task) {
            self.go_on_upgrade(task, answer)
        } else {
            self.go_on_batch(task, answer)
        }
    }

    fn go_on_handle(&mut self, task: Job, answer: Answer<PathBuf, Vec<PathBuf>>) -> (request: Request<
        PathBuf,
    >)
        requires
            old(self).wf(),
            job_wf(task),
        ensures
            final(self).wf(),
            (final(self)@, asked(request)) == old(self)@.go_on_handle(
                shown(task),
                answered(answer),
            ),
    {
        match task {
            Task::Fail { error } => self.end(Outcome::Failed(error)),
            Task::AddSingle { path, chain } => self.add_single(path, chain),
            Task::AddSingleAnswered { path, chain } => self.add_single_answered(
                path,
                chain,
                answer,
            ),
            Task::RemoveSingle { path } => self.remove_single(path),
            Task::RemoveAnswered { path } => self.remove_answered(path, answer),
            Task::RemoveEach { paths } => self.remove_each(paths),
            Task::ReleaseHandle { path } => self.release_handle(path),
            Task::ReleaseEach { paths } => self.release_each(paths),
            Task::Watch { path, recursive, is_dir } => self.watch(path, recursive, is_dir),
            Task::DirAdded { path } => self.dir_added(path),
            Task::DirListed => self.dir_listed(answer),
            Task::AddEach { paths } => self.add_each(paths),
            Task::AddEachAdded { paths } => self.add_each_added(paths),
            Task::WalkFound => self.walk_found(answer),
            Task::WalkAdded => self.walk_added(),
            _ => Request::Again,
        }
    }

    fn go_on_arm(&mut self, task: Job, answer: Answer<PathBuf, Vec<PathBuf>>) -> (request: Request<
        PathBuf,
    >)
        requires
            old(self).wf(),
            job_wf(task),
        ensures
            final(self).wf(),
            (final(self)@, asked(request)) == old(self)@.go_on_arm(shown(task), answered(answer)),
    {
        match task {
            Task::Chain { root, n } => self.chain(root, n),
            Task::ChainLooked { root, n } => self.chain_looked(root, n, answer),
            Task::ChainAdded { root, n } => self.chain_added(root, n),
            Task::ArmRoot { root, recursive } => self.arm_root(root, recursive),
            Task::ArmReached { root, recursive } => self.arm_reached(root, recursive),
            Task::ArmLooked { root, recursive } => self.arm_looked(root, recursive, answer),
            Task::ArmAdded { state } => self.arm_added(state),
            Task::Arm { root, recursive } => self.arm(root, recursive),
            Task::ArmEnded { root, before } => self.arm_ended(root, before),
            Task::Restore { before } => self.restore(before),
            _ => Request::Again,
        }
    }

    fn go_on_ancestor(&mut self, task: Job, answer: Answer<PathBuf, Vec<PathBuf>>) -> (request: Request<
        PathBuf,
    >)
        requires
            old(self).wf(),
            job_wf(task),
        ensures
            final(self).wf(),
            (final(self)@, asked(request)) == old(self)@.go_on_ancestor(
                shown(task),
                answered(answer),
            ),
    {
        match task {
            Task::Rearm { root } => self.rearm(root),
            Task::RearmEnded { root } => self.rearm_ended(root),
            Task::RearmEach { roots } => self.rearm_each(roots),
            Task::RearmBelow { path } => self.rearm_below(path),
            Task::VanishBelow { path } => self.vanish_below(path),
            Task::VanishEach { paths } => self.vanish_each(paths),
            Task::DropBelow { path } => self.drop_below(path),
            Task::DropEach { paths } => self.drop_each(paths),
            Task::CheckAncestor { path } => self.check_ancestor(path),
            Task::CheckLooked { path } => self.check_looked(path, answer),
            Task::CheckEach { paths } => self.check_each(paths),
            Task::CheckChainEach { paths } => self.check_chain_each(paths),
            Task::Recheck { path } => self.recheck(path),
            Task::RecheckLooked { path } => self.recheck_looked(path, answer),
            Task::RecheckEach { paths } => self.recheck_each(paths),
            _ => Request::Again,
        }
    }

    fn go_on_register(&mut self, task: Job, answer: Answer<PathBuf, Vec<PathBuf>>) -> (request: Request<
        PathBuf,
    >)
        requires
            old(self).wf(),
            job_wf(task),
        ensures
            final(self).wf(),
            (final(self)@, asked(request)) == old(self)@.go_on_register(
                shown(task),
                answered(answer),
            ),
    {
        match task {
            Task::Register => self.register(),
            Task::RegisterKevents => self.register_kevents(),
            Task::RegisterAnswered => self.register_answered(answer),
            Task::RegisterRearmed => self.register_rearmed(),
            Task::RegisterRound => self.register_round(),
            Task::Flush => self.flush(),
            _ => Request::Again,
        }
    }

    fn go_on_root(&mut self, task: Job, answer: Answer<PathBuf, Vec<PathBuf>>) -> (request: Request<
        PathBuf,
    >)
        requires
            old(self).wf(),
            job_wf(task),
        ensures
            final(self).wf(),
            (final(self)@, asked(request)) == old(self)@.go_on_root(shown(task), answered(answer)),
    {
        match task {
            Task::AddRoot { path, mode } => self.add_root(path, mode),
            Task::AddRoots { wanted } => self.add_roots(wanted),
            Task::AddInnerEach { wanted } => self.add_inner_each(wanted),
            Task::AddInnerEnded { wanted } => self.add_inner_ended(wanted),
            Task::AddRegister => self.add_register(),
            Task::Fallback { error } => self.fallback(error),
            Task::AddInner { path, mode } => self.add_inner(path, mode),
            Task::AddRootArmed { path, mode } => self.add_root_armed(path, mode),
            Task::AddRootLooked { path, mode } => self.add_root_looked(path, mode, answer),
            Task::AddRootAdded { path, mode, state } => self.add_root_added(path, mode, state),
            _ => Request::Again,
        }
    }

    fn go_on_upgrade(&mut self, task: Job, answer: Answer<PathBuf, Vec<PathBuf>>) -> (request: Request<
        PathBuf,
    >)
        requires
            old(self).wf(),
            job_wf(task),
        ensures
            final(self).wf(),
            (final(self)@, asked(request)) == old(self)@.go_on_upgrade(
                shown(task),
                answered(answer),
            ),
    {
        match task {
            Task::UpgradeReached { path, mode, recurse } => self.upgrade_reached(
                path,
                mode,
                recurse,
            ),
            Task::Upgrade { path, mode, recurse } => self.upgrade(path, mode, recurse),
            Task::UpgradeLooked { path, mode } => self.upgrade_looked(path, mode, answer),
            Task::UpgradeAdded { path, mode } => self.upgrade_added(path, mode),
            Task::UpgradeArmed { path } => self.upgrade_armed(path),
            Task::UntrackEach { paths } => self.untrack_each(paths),
            Task::RemoveRoot { path } => self.remove_root(path),
            Task::RemoveRootReleased { path, tracks } => self.remove_root_released(path, tracks),
            _ => Request::Again,
        }
    }

    fn go_on_batch(&mut self, task: Job, answer: Answer<PathBuf, Vec<PathBuf>>) -> (request: Request<
        PathBuf,
    >)
        requires
            old(self).wf(),
            job_wf(task),
        ensures
            final(self).wf(),
            (final(self)@, asked(request)) == old(self)@.go_on_batch(shown(task), answered(answer)),
    {
        match task {
            Task::Happened { vnode, path } => self.happened(vnode, path),
            Task::DeleteLooked { path } => self.delete_looked(path, answer),
            Task::WriteLooked { path } => self.write_looked(path, answer),
            Task::Listed { path } => self.listed(path, answer),
            Task::Scan { path, files, found } => self.scan(path, files, found),
            Task::ScanLooked { path, file, files } => self.scan_looked(path, file, files, answer),
            Task::StaleEach { paths } => self.stale_each(paths),
            Task::AddAll { paths } => self.add_all(paths),
            Task::AddAllEnded { path, paths } => self.add_all_ended(path, paths),
            Task::BatchEnded => self.batch_ended(),
            _ => Request::Again,
        }
    }

    /// The user watches `path`.
    pub fn add_watch(&mut self, path: PathBuf, mode: WatchMode)
        requires
            old(self).wf(),
        ensures
            final(self).wf(),
            final(self)@ == old(self)@.push(Task::AddRoot { path: path@, mode }),
    {
        self.push(Task::AddRoot { path, mode });
    }

    /// The user watches several paths at once.
    pub fn add_watch_multiple(&mut self, paths: Vec<Wanted>)
        requires
            old(self).wf(),
        ensures
            final(self).wf(),
            final(self)@ == old(self)@.push(Task::AddRoots { wanted: wanted_views(paths@) }),
    {
        self.push(Task::AddRoots { wanted: Queue::new(paths) });
    }

    /// The user watches `path` no longer.
    pub fn remove_watch(&mut self, path: PathBuf)
        requires
            old(self).wf(),
        ensures
            final(self).wf(),
            final(self)@ == old(self)@.push(Task::RemoveRoot { path: path@ }),
    {
        self.push(Task::RemoveRoot { path });
    }

    /// Something happened to the entity behind the handle at `path`.
    pub fn handle_vnode(&mut self, vnode: Vnode, path: PathBuf)
        requires
            old(self).wf(),
        ensures
            final(self).wf(),
            final(self)@ == old(self)@.push(Task::Happened { vnode, path: path@ }),
    {
        self.push(Task::Happened { vnode, path });
    }

    /// The batch is read: what it asks for is to be done.
    #[verifier::rlimit(60)]
    pub fn process_batch(&mut self)
        requires
            old(self).wf(),
        ensures
            final(self).wf(),
            final(self)@ == old(self)@.process(),
    {
        let stale = all_of(&self.batch.stale);
        let vanished = all_of(&self.batch.vanished);
        let add = all_of(&self.batch.add);
        let changed = all_of(&self.batch.changed);
        let rewalk = path::copy_paths(&self.batch.rewalk);
        let stale_again = path::copy_paths(&stale);
        let vanished_again = path::copy_paths(&vanished);
        self.push(Task::BatchEnded);
        self.push(Task::Register);
        self.push(Task::AddAll { paths: Queue::new(add) });
        self.push(Task::CheckChainEach { paths: Queue::new(changed) });
        self.push(Task::CheckEach { paths: Queue::new(vanished_again) });
        self.push(Task::RearmEach { roots: Queue::new(stale_again) });
        self.push(Task::VanishEach { paths: Queue::new(vanished) });
        self.push(Task::DropEach { paths: Queue::new(rewalk) });
        self.push(Task::StaleEach { paths: Queue::new(stale) });
    }

    /// What is to be reported, taken.
    pub fn take_reports(&mut self) -> (reports: Vec<Report>)
        requires
            old(self).wf(),
        ensures
            final(self).wf(),
            report::views(reports@) == old(self)@.reports,
            final(self)@ == (LoopView { reports: Seq::empty(), ..old(self)@ }),
    {
        let mut reports: Vec<Report> = Vec::new();
        assert(report::views(reports@) =~= Seq::empty());
        std::mem::swap(&mut reports, &mut self.reports);
        reports
    }

    /// How the last task ended.
    pub fn take_result(&mut self) -> (result: Result<(), Error>)
        requires
            old(self).wf(),
        ensures
            final(self).wf(),
            final(self)@ == old(self)@.taken(),
            (match result {
                Ok(_) => !(old(self)@.outcome is Failed),
                Err(error) => old(self)@.outcome == Outcome::Failed(error@),
            }),
    {
        match self.take_outcome() {
            Outcome::Failed(error) => Err(error),
            _ => Ok(()),
        }
    }

    /// The watched paths, and whether each is only an ancestor of tracked roots.
    pub fn handles(&self) -> (handles: &PathMap<bool>)
        requires
            self.wf(),
        ensures
            handles.wf(),
            handles@ == self@.handles,
    {
        &self.handles
    }
}

} // verus!
