//! The event loop of a watcher, as far as it decides: it asks for the calls of the system one at a
//! time, and goes on with their answers.

use crate::config::WatchMode;
use crate::error;
use crate::error::{Error, ErrorKind, ErrorView};
use crate::event::{CreateKind, Event, EventKind, RemoveKind};
use crate::inotify::mask;
use crate::inotify::mask::{ENTRY_MASK, FULL_MASK, MASK_ADD, SELF_MASK};
use crate::inotify::reading;
use crate::inotify::reading::{AddView, AddWatch, FileStat, InotifyEvent, Reading, WatchChanges};
use crate::inotify::table::{Inode, Table, TableView};
use crate::inotify::task;
use crate::inotify::task::{
    Answer, AnswerView, Deed, LoopView, Request, RequestView, Task, TaskView, ENOSPC,
};
use crate::outcome;
use crate::outcome::Outcome;
use crate::path;
use crate::path::PathBuf;
use crate::path_list;
use crate::queue::Queue;
use crate::report;
use crate::report::Report;
use crate::root;
use crate::root::{RootState, RootWatch};
use vstd::prelude::*;

verus! {

pub type Job = Task<
    PathBuf,
    Queue<PathBuf>,
    Vec<PathBuf>,
    Queue<AddWatch>,
    Queue<Vec<AddWatch>>,
    Error,
>;

pub open spec fn adds_left(adds: Queue<AddWatch>) -> Seq<AddView> {
    reading::add_views(adds.rest())
}

pub open spec fn entries_left(entries: Queue<Vec<AddWatch>>) -> Seq<Seq<AddView>> {
    reading::entry_views(entries.rest())
}

pub open spec fn shown(task: Job) -> TaskView {
    match task {
        Task::Heedless => Task::Heedless,
        Task::Fail { error } => Task::Fail { error: error@ },
        Task::Succeed => Task::Succeed,
        Task::Sync { w, before } => Task::Sync { w, before },
        Task::SyncThrough { w, mask, rest } => Task::SyncThrough {
            w,
            mask,
            rest: path_list::left(rest),
        },
        Task::SyncLooked { w, mask, rest } => Task::SyncLooked {
            w,
            mask,
            rest: path_list::left(rest),
        },
        Task::SyncAdded { w, mask, rest } => Task::SyncAdded {
            w,
            mask,
            rest: path_list::left(rest),
        },
        Task::Add { path, mask, is_file_without_hardlinks } => Task::Add {
            path: path@,
            mask,
            is_file_without_hardlinks,
        },
        Task::Added { path, mask } => Task::Added { path: path@, mask },
        Task::Record { w, path, mask } => Task::Record { w, path: path@, mask },
        Task::RecordLooked { w, path, mask } => Task::RecordLooked { w, path: path@, mask },
        Task::SetMask { path, mask } => Task::SetMask { path: path@, mask },
        Task::SetMaskAdded { path, mask, w, before, after } => Task::SetMaskAdded {
            path: path@,
            mask,
            w,
            before,
            after,
        },
        Task::RemoveHandle { path } => Task::RemoveHandle { path: path@ },
        Task::Release { path } => Task::Release { path: path@ },
        Task::Each { deed, paths } => Task::Each { deed, paths: path_list::left(paths) },
        Task::Chain { root, n } => Task::Chain { root: root@, n },
        Task::ChainLooked { root, n } => Task::ChainLooked { root: root@, n },
        Task::ChainAdded { root, n } => Task::ChainAdded { root: root@, n },
        Task::ArmRoot { root, recursive } => Task::ArmRoot { root: root@, recursive },
        Task::ArmReached { root, recursive } => Task::ArmReached { root: root@, recursive },
        Task::ArmLooked { root, recursive } => Task::ArmLooked { root: root@, recursive },
        Task::ArmAdded { state } => Task::ArmAdded { state },
        Task::Arm { root, recursive } => Task::Arm { root: root@, recursive },
        Task::ArmEnded { root } => Task::ArmEnded { root: root@ },
        Task::Walk { path, watch_self } => Task::Walk { path: path@, watch_self },
        Task::WalkFound { watch_self, dirs } => Task::WalkFound {
            watch_self,
            dirs: path::views(dirs@),
        },
        Task::WalkAdded { dir, dirs } => Task::WalkAdded {
            dir: dir@,
            dirs: path::views(dirs@),
        },
        Task::Entry { paths, single } => Task::Entry {
            paths: path_list::left(paths),
            single: adds_left(single),
        },
        Task::EntryWalked { walked, paths, single } => Task::EntryWalked {
            walked: walked@,
            paths: path_list::left(paths),
            single: adds_left(single),
        },
        Task::Bind { walked, dirs, paths, i } => Task::Bind {
            walked: walked@,
            dirs: path::views(dirs@),
            paths: path_list::left(paths),
            i,
        },
        Task::Single { single } => Task::Single { single: adds_left(single) },
        Task::SingleAdded { single } => Task::SingleAdded { single: adds_left(single) },
        Task::AddRoot { path, mode } => Task::AddRoot { path: path@, mode },
        Task::AddRootArmed { path, mode } => Task::AddRootArmed { path: path@, mode },
        Task::AddRootLooked { path, mode } => Task::AddRootLooked { path: path@, mode },
        Task::AddRootAdded { path, mode, state } => Task::AddRootAdded { path: path@, mode, state },
        Task::Upgrade { path, track, recurse } => Task::Upgrade { path: path@, track, recurse },
        Task::UpgradeReached { path, recurse } => Task::UpgradeReached { path: path@, recurse },
        Task::UpgradeLooked { path } => Task::UpgradeLooked { path: path@ },
        Task::UpgradeEnded { path, mode, track } => Task::UpgradeEnded { path: path@, mode, track },
        Task::UpgradeArmed { path } => Task::UpgradeArmed { path: path@ },
        Task::RemoveRoot { path } => Task::RemoveRoot { path: path@ },
        Task::ReleaseBelow { path } => Task::ReleaseBelow { path: path@ },
        Task::ArmAgain { roots } => Task::ArmAgain { roots: path_list::left(roots) },
        Task::DropAll { paths, without_os_call } => Task::DropAll {
            paths: path_list::left(paths),
            without_os_call,
        },
        Task::Drop { path, keep_root, without_os_call } => Task::Drop {
            path: path@,
            keep_root,
            without_os_call,
        },
        Task::DropRoots { path, roots } => Task::DropRoots {
            path: path@,
            roots: path_list::left(roots),
        },
        Task::VanishAll { paths } => Task::VanishAll { paths: path_list::left(paths) },
        Task::AddAll { entries } => Task::AddAll { entries: entries_left(entries) },
        Task::AddAllEnded { entries } => Task::AddAllEnded { entries: entries_left(entries) },
        Task::RearmAll { paths } => Task::RearmAll { paths: path_list::left(paths) },
        Task::RearmEach { roots } => Task::RearmEach { roots: path_list::left(roots) },
        Task::RearmEnded { root, roots } => Task::RearmEnded {
            root: root@,
            roots: path_list::left(roots),
        },
        Task::RemoveAll { paths } => Task::RemoveAll { paths: path_list::left(paths) },
        Task::RemoveAllAnswered { paths } => Task::RemoveAllAnswered {
            paths: path_list::left(paths),
        },
    }
}

pub open spec fn shown_all(tasks: Seq<Job>) -> Seq<TaskView> {
    tasks.map_values(|t: Job| shown(t))
}

pub open spec fn asked(request: Request<PathBuf>) -> RequestView {
    match request {
        Request::Idle => Request::Idle,
        Request::Again => Request::Again,
        Request::Stat(path) => Request::Stat(path@),
        Request::Add(path, mask) => Request::Add(path@, mask),
        Request::Remove(w) => Request::Remove(w),
        Request::Walk(path) => Request::Walk(path@),
        Request::Next => Request::Next,
    }
}

pub open spec fn answered(answer: Answer<PathBuf>) -> AnswerView {
    match answer {
        Answer::Go => Answer::Go,
        Answer::Stat(stat) => Answer::Stat(stat),
        Answer::Added(added) => Answer::Added(added),
        Answer::Removed(removed) => Answer::Removed(removed),
        Answer::Entry(Some(path)) => Answer::Entry(Some(path@)),
        Answer::Entry(None) => Answer::Entry(None),
    }
}

#[derive(Debug)]
pub struct EventLoop {
    pub reading: Reading,
    tasks: Vec<Job>,
    outcome: Outcome<Error>,
    walked: Vec<PathBuf>,
}

impl View for EventLoop {
    type V = LoopView;

    closed spec fn view(&self) -> LoopView {
        LoopView {
            reading: self.reading@,
            tasks: shown_all(self.tasks@),
            outcome: outcome::ended_with(self.outcome),
            walked: path::views(self.walked@),
        }
    }
}

/// What is reported when `path` cannot be watched: inotify limits are not reported as "no space".
fn add_watch_error(errno: i32, path: PathBuf) -> (error: Error)
    ensures
        error@ == task::add_error(errno, path@),
{
    if errno == ENOSPC {
        Error::at(ErrorKind::MaxFilesWatch, path)
    } else {
        Error::at(error::watch_error(errno), path)
    }
}

fn state_of(stat: FileStat) -> (state: RootState)
    ensures
        state == task::state_of(stat),
{
    if stat.is_dir {
        RootState::Directory
    } else {
        RootState::File
    }
}

fn everything(watch_self: bool) -> (mask: u32)
    ensures
        mask == task::everything(watch_self),
{
    if watch_self {
        FULL_MASK | SELF_MASK
    } else {
        FULL_MASK
    }
}

fn is_full(error: &Error) -> (r: bool)
    ensures
        r == (error@.kind == ErrorKind::MaxFilesWatch),
{
    match error.kind {
        ErrorKind::MaxFilesWatch => true,
        _ => false,
    }
}

fn stat_of(answer: &Answer<PathBuf>) -> (stat: Result<FileStat, i32>)
    ensures
        stat == answered(*answer).stat(),
{
    match answer {
        Answer::Stat(Ok(stat)) => Ok(*stat),
        Answer::Stat(Err(errno)) => Err(*errno),
        _ => Err(0),
    }
}

fn added_of(answer: &Answer<PathBuf>) -> (added: Option<Result<i32, i32>>)
    ensures
        added == answered(*answer).added(),
{
    match answer {
        Answer::Added(Some(Ok(w))) => Some(Ok(*w)),
        Answer::Added(Some(Err(errno))) => Some(Err(*errno)),
        _ => None,
    }
}

fn removed_of(answer: &Answer<PathBuf>) -> (removed: Result<(), i32>)
    ensures
        removed == answered(*answer).removed(),
{
    match answer {
        Answer::Removed(removed) => *removed,
        _ => Ok(()),
    }
}

fn entry_of(answer: Answer<PathBuf>) -> (entry: Option<PathBuf>)
    ensures
        (match entry {
            Some(path) => answered(answer).entry() == Some(path@),
            None => answered(answer).entry() is None,
        }),
{
    match answer {
        Answer::Entry(entry) => entry,
        _ => None,
    }
}

/// Whether one of the NoTrack roots at or below a gone path still needs the handle at `handle`.
fn is_kept_by_no_track_root(table: &Table, roots: &Vec<PathBuf>, handle: &PathBuf) -> (r: bool)
    requires
        table.wf(),
    ensures
        r == task::kept_by_no_track_root(table@, path::views(roots@), handle@),
{
    let ghost all = path::views(roots@);
    let mut i: usize = 0;
    while i < roots.len()
        invariant
            i <= roots@.len(),
            table.wf(),
            all == path::views(roots@),
            forall|j: int|
                0 <= j < i ==> !(#[trigger] all[j] == handle@ || (table@.roots.contains_key(all[j])
                    && table@.roots[all[j]].mode.is_recursive() && path::starts_with(
                    handle@,
                    all[j],
                ))),
        decreases roots.len() - i,
    {
        assert(all[i as int] == roots@[i as int]@);
        if handle.same(&roots[i]) {
            return true;
        }
        if handle.starts_with(&roots[i]) {
            if let Some(watch) = table.root(&roots[i]) {
                if watch.mode.recursive() {
                    return true;
                }
            }
        }
        i = i + 1;
    }
    false
}

/// The paths of `adds` that are watched recursively, and the ones that are not.
fn partition(adds: &Vec<AddWatch>) -> (r: (Vec<PathBuf>, Vec<AddWatch>))
    ensures
        path::views(r.0@) == task::recursive_paths(reading::add_views(adds@)),
        reading::add_views(r.1@) == task::single_adds(reading::add_views(adds@)),
{
    let ghost all = reading::add_views(adds@);
    let mut paths: Vec<PathBuf> = Vec::new();
    let mut single: Vec<AddWatch> = Vec::new();
    let mut i: usize = 0;
    assert(all.take(0) =~= Seq::empty());
    assert(path::views(paths@) =~= Seq::empty());
    assert(reading::add_views(single@) =~= Seq::empty());
    while i < adds.len()
        invariant
            i <= adds@.len(),
            all == reading::add_views(adds@),
            path::views(paths@) == task::recursive_paths(all.take(i as int)),
            reading::add_views(single@) == task::single_adds(all.take(i as int)),
        decreases adds.len() - i,
    {
        let add = &adds[i];
        assert(all.take(i + 1).drop_last() =~= all.take(i as int));
        assert(all.take(i + 1).last() == adds@[i as int]@);
        let path = add.path.clone();
        if add.is_recursive {
            proof {
                path::lemma_views_push(paths@, path);
            }
            paths.push(path);
        } else {
            let ghost before = single@;
            let copy = AddWatch {
                path,
                is_recursive: false,
                is_file_without_hardlinks: add.is_file_without_hardlinks,
            };
            single.push(copy);
            assert(reading::add_views(single@) =~= reading::add_views(before).push(
                adds@[i as int]@,
            ));
        }
        i = i + 1;
    }
    assert(all.take(i as int) =~= all);
    (paths, single)
}

fn is_handle_task(task: &Job) -> (r: bool)
    ensures
        r == task::is_handle_task(shown(*task)),
{
    match task {
        Task::Heedless => true,
        Task::Fail { .. } => true,
        Task::Succeed => true,
        Task::Sync { .. } => true,
        Task::SyncThrough { .. } => true,
        Task::SyncLooked { .. } => true,
        Task::SyncAdded { .. } => true,
        Task::Add { .. } => true,
        Task::Added { .. } => true,
        Task::Record { .. } => true,
        Task::RecordLooked { .. } => true,
        Task::SetMask { .. } => true,
        Task::SetMaskAdded { .. } => true,
        Task::RemoveHandle { .. } => true,
        Task::Release { .. } => true,
        Task::Each { .. } => true,
        _ => false,
    }
}

fn is_arm_task(task: &Job) -> (r: bool)
    ensures
        r == task::is_arm_task(shown(*task)),
{
    match task {
        Task::Chain { .. } => true,
        Task::ChainLooked { .. } => true,
        Task::ChainAdded { .. } => true,
        Task::ArmRoot { .. } => true,
        Task::ArmReached { .. } => true,
        Task::ArmLooked { .. } => true,
        Task::ArmAdded { .. } => true,
        Task::Arm { .. } => true,
        Task::ArmEnded { .. } => true,
        _ => false,
    }
}

fn is_walk_task(task: &Job) -> (r: bool)
    ensures
        r == task::is_walk_task(shown(*task)),
{
    match task {
        Task::Walk { .. } => true,
        Task::WalkFound { .. } => true,
        Task::WalkAdded { .. } => true,
        Task::Entry { .. } => true,
        Task::EntryWalked { .. } => true,
        Task::Bind { .. } => true,
        Task::Single { .. } => true,
        Task::SingleAdded { .. } => true,
        _ => false,
    }
}

fn is_root_task(task: &Job) -> (r: bool)
    ensures
        r == task::is_root_task(shown(*task)),
{
    match task {
        Task::AddRoot { .. } => true,
        Task::AddRootArmed { .. } => true,
        Task::AddRootLooked { .. } => true,
        Task::AddRootAdded { .. } => true,
        Task::Upgrade { .. } => true,
        Task::UpgradeReached { .. } => true,
        Task::UpgradeLooked { .. } => true,
        Task::UpgradeEnded { .. } => true,
        Task::UpgradeArmed { .. } => true,
        Task::RemoveRoot { .. } => true,
        Task::ReleaseBelow { .. } => true,
        Task::ArmAgain { .. } => true,
        _ => false,
    }
}

impl EventLoop {
    pub closed spec fn wf(&self) -> bool {
        self.reading.table.wf()
    }

    pub fn new() -> (this: EventLoop)
        ensures
            this.wf(),
            this@.tasks.len() == 0,
            this@.reading.table == TableView::new(),
            this@.reading.rename_from is None,
            this@.reading.reports.len() == 0,
            this@.reading.changes == reading::ChangesView::new(),
    {
        let this = EventLoop {
            reading: Reading {
                table: Table::new(),
                rename_from: None,
                changes: WatchChanges::new(),
                reports: Vec::new(),
            },
            tasks: Vec::new(),
            outcome: Outcome::Done,
            walked: Vec::new(),
        };
        this
    }

    fn push(&mut self, task: Job)
        requires
            old(self).wf(),
        ensures
            final(self).wf(),
            final(self)@ == old(self)@.push(shown(task)),
            final(self).reading == old(self).reading,
    {
        self.tasks.push(task);
        assert(self@.tasks =~= old(self)@.tasks.push(shown(task)));
    }

    fn end(&mut self, outcome: Outcome<Error>) -> (request: Request<PathBuf>)
        requires
            old(self).wf(),
        ensures
            final(self).wf(),
            (final(self)@, asked(request)) == old(self)@.ended(outcome::ended_with(outcome)),
    {
        self.outcome = outcome;
        Request::Again
    }

    fn take_outcome(&mut self) -> (outcome: Outcome<Error>)
        requires
            old(self).wf(),
        ensures
            final(self).wf(),
            final(self)@ == old(self)@.taken(),
            outcome::ended_with(outcome) == old(self)@.outcome,
            final(self).reading == old(self).reading,
    {
        let mut outcome: Outcome<Error> = Outcome::Done;
        std::mem::swap(&mut outcome, &mut self.outcome);
        outcome
    }

    // --- the masks of the kernel

    fn sync_kernel_mask(&mut self, w: i32, before: u32) -> (request: Request<PathBuf>)
        requires
            old(self).wf(),
        ensures
            final(self).wf(),
            (final(self)@, asked(request)) == old(self)@.sync(w, before),
    {
        proof {
            reveal(LoopView::sync);
        }
        let spellings = self.reading.table.spellings(w);
        if spellings.len() == 0 {
            self.push(Task::Heedless);
            return Request::Remove(w);
        }
        let mask = self.reading.table.kernel_mask(w);
        if mask == before {
            return self.end(Outcome::Done);
        }
        self.push(Task::SyncThrough { w, mask, rest: Queue::new(spellings) });
        Request::Again
    }

    fn sync_through(&mut self, w: i32, mask: u32, rest: Queue<PathBuf>) -> (request: Request<
        PathBuf,
    >)
        requires
            old(self).wf(),
        ensures
            final(self).wf(),
            (final(self)@, asked(request)) == old(self)@.sync_through(
                w,
                mask,
                path_list::left(rest),
            ),
    {
        proof {
            reveal(LoopView::sync_through);
        }
        let first = match rest.first() {
            Some(first) => first.clone(),
            None => {
                return self.end(Outcome::Done);
            },
        };
        self.push(Task::SyncLooked { w, mask, rest });
        Request::Stat(first)
    }

    /// Whether a path that is found like this still leads to the inode that `w` watches.
    fn leads_to(&self, w: i32, stat: Result<FileStat, i32>) -> (r: bool)
        requires
            self.wf(),
        ensures
            r == self@.leads_to(w, stat),
    {
        match (self.reading.table.inode(w), stat) {
            (None, _) => true,
            (Some(inode), Ok(stat)) => stat.inode == inode,
            (Some(_), Err(_)) => false,
        }
    }

    fn sync_looked(
        &mut self,
        w: i32,
        mask: u32,
        rest: Queue<PathBuf>,
        answer: Answer<PathBuf>,
    ) -> (request: Request<PathBuf>)
        requires
            old(self).wf(),
        ensures
            final(self).wf(),
            (final(self)@, asked(request)) == old(self)@.sync_looked(
                w,
                mask,
                path_list::left(rest),
                answered(answer),
            ),
    {
        proof {
            reveal(LoopView::sync_looked);
        }
        let first = match rest.first() {
            Some(first) => first.clone(),
            None => {
                return self.end(Outcome::Done);
            },
        };
        if self.leads_to(w, stat_of(&answer)) {
            self.push(Task::SyncAdded { w, mask, rest });
            return Request::Add(first, mask);
        }
        let mut rest = rest;
        path_list::advance(&mut rest);
        self.push(Task::SyncThrough { w, mask, rest });
        Request::Again
    }

    /// An add through a path that changed since it was looked at changed the watch of another inode
    /// than meant: it gets back the mask its spellings ask for, or goes when it is new.
    fn sync_added(
        &mut self,
        w: i32,
        mask: u32,
        rest: Queue<PathBuf>,
        answer: Answer<PathBuf>,
    ) -> (request: Request<PathBuf>)
        requires
            old(self).wf(),
        ensures
            final(self).wf(),
            (final(self)@, asked(request)) == old(self)@.sync_added(
                w,
                mask,
                path_list::left(rest),
                answered(answer),
            ),
    {
        proof {
            reveal(LoopView::sync_added);
        }
        let added = match added_of(&answer) {
            None => {
                return self.end(Outcome::Done);
            },
            Some(added) => added,
        };
        let (first, rest) = match path_list::take_first(rest) {
            Some((first, rest)) => (first, rest),
            None => {
                return self.end(Outcome::Done);
            },
        };
        match added {
            Ok(other) => {
                if other == w {
                    return self.end(Outcome::Done);
                }
                let mask_of_other = self.reading.table.kernel_mask(other);
                let known = self.reading.table.is_bound(other);
                self.push(Task::SyncThrough { w, mask, rest });
                self.push(Task::Heedless);
                if known {
                    Request::Add(first, mask_of_other)
                } else {
                    Request::Remove(other)
                }
            },
            Err(_) => {
                self.push(Task::SyncThrough { w, mask, rest });
                Request::Again
            },
        }
    }

    // --- the handles of paths

    /// Watches `path` for `mask`, besides what it is watched for already. A file without hard links
    /// is not watched when its parent reports it.
    fn add_watch_with_mask(
        &mut self,
        path: PathBuf,
        mask: u32,
        is_file_without_hardlinks: bool,
    ) -> (request: Request<PathBuf>)
        requires
            old(self).wf(),
        ensures
            final(self).wf(),
            (final(self)@, asked(request)) == old(self)@.add(
                path@,
                mask,
                is_file_without_hardlinks,
            ),
    {
        proof {
            reveal(LoopView::add);
        }
        let existing = self.reading.table.handle_at(&path);
        if let Some(handle) = existing {
            if mask::contains(handle.mask, mask) {
                return self.end(Outcome::Done);
            }
        }
        if is_file_without_hardlinks {
            if let Some(parent) = path.parent() {
                if let Some(handle) = self.reading.table.handle_at(&parent) {
                    if mask::contains(handle.mask, FULL_MASK) {
                        return self.end(Outcome::Done);
                    }
                }
            }
        }
        let all: u32 = match existing {
            Some(handle) => handle.mask | mask,
            None => mask,
        };
        self.push(Task::Added { path: path.clone(), mask: all });
        Request::Add(path, all | MASK_ADD)
    }

    fn added(&mut self, path: PathBuf, mask: u32, answer: Answer<PathBuf>) -> (request: Request<
        PathBuf,
    >)
        requires
            old(self).wf(),
        ensures
            final(self).wf(),
            (final(self)@, asked(request)) == old(self)@.added(path@, mask, answered(answer)),
    {
        proof {
            reveal(LoopView::added);
        }
        match added_of(&answer) {
            None => self.end(Outcome::Done),
            Some(Ok(w)) => {
                self.push(Task::Record { w, path, mask });
                Request::Again
            },
            Some(Err(errno)) => self.end(Outcome::Failed(add_watch_error(errno, path))),
        }
    }

    /// Binds `path` to `w`, and only then narrows the descriptor that it had before down to what
    /// its other spellings ask for.
    fn bind_to(
        &mut self,
        w: i32,
        path: PathBuf,
        mask: u32,
        is_dir: bool,
        inode: Inode,
    ) -> (request: Request<PathBuf>)
        requires
            old(self).wf(),
        ensures
            final(self).wf(),
            (final(self)@, asked(request)) == old(self)@.bound_to(w, path@, mask, is_dir, inode),
    {
        proof {
            reveal(LoopView::bound_to);
        }
        let ghost table = self@.table();
        match self.reading.table.handle_at(&path) {
            Some(stale) => {
                let before = self.reading.table.kernel_mask(stale.w);
                self.reading.table.unbind_by_right(&path);
                self.reading.table.bind_handle(w, path, mask, is_dir, inode);
                self.push(Task::Sync { w: stale.w, before });
                Request::Again
            },
            None => {
                self.reading.table.bind_handle(w, path, mask, is_dir, inode);
                self.end(Outcome::Done)
            },
        }
    }

    /// Records the handle that inotify returned for `path`, which asked for `mask`.
    fn record_handle(&mut self, w: i32, path: PathBuf, mask: u32) -> (request: Request<PathBuf>)
        requires
            old(self).wf(),
        ensures
            final(self).wf(),
            (final(self)@, asked(request)) == old(self)@.record(w, path@, mask),
    {
        proof {
            reveal(LoopView::record);
        }
        if let Some(handle) = self.reading.table.handle_at(&path) {
            if handle.w == w {
                self.reading.table.set_handle_mask(&path, mask);
                return self.end(Outcome::Done);
            }
        }
        if let Some(inode) = self.reading.table.inode(w) {
            let is_dir = self.is_dir_of(w);
            return self.bind_to(w, path, mask, is_dir, inode);
        }
        self.push(Task::RecordLooked { w, path: path.clone(), mask });
        Request::Stat(path)
    }

    /// Whether the inode that `w` watches is a directory.
    fn is_dir_of(&self, w: i32) -> (is_dir: bool)
        requires
            self.wf(),
            self@.table().bound.contains_key(w),
        ensures
            is_dir == self@.table().handles[self@.table().spellings(w)[0]].is_dir,
    {
        proof {
            self.reading.table.lemma_consistent();
        }
        let spellings = self.reading.table.spellings(w);
        assert(self@.table().bound[w].spellings.len() > 0);
        assert(path::views(spellings@)[0] == spellings@[0]@);
        assert(self@.table().bound[w].spellings.contains(spellings@[0]@));
        match self.reading.table.handle_at(&spellings[0]) {
            Some(handle) => handle.is_dir,
            None => false,
        }
    }

    fn record_looked(
        &mut self,
        w: i32,
        path: PathBuf,
        mask: u32,
        answer: Answer<PathBuf>,
    ) -> (request: Request<PathBuf>)
        requires
            old(self).wf(),
        ensures
            final(self).wf(),
            (final(self)@, asked(request)) == old(self)@.record_looked(
                w,
                path@,
                mask,
                answered(answer),
            ),
    {
        proof {
            reveal(LoopView::record_looked);
        }
        match stat_of(&answer) {
            Ok(stat) => self.bind_to(w, path, mask, stat.is_dir, stat.inode),
            Err(errno) => {
                self.push(Task::Fail { error: Error::at(ErrorKind::Io(errno), path) });
                self.push(Task::Heedless);
                Request::Remove(w)
            },
        }
    }

    /// Changes the mask of the handle at `path`. The kernel watch keeps what the other spellings of
    /// the inode ask for.
    fn set_handle_mask(&mut self, path: PathBuf, mask: u32) -> (request: Request<PathBuf>)
        requires
            old(self).wf(),
        ensures
            final(self).wf(),
            (final(self)@, asked(request)) == old(self)@.set_mask(path@, mask),
    {
        proof {
            reveal(LoopView::set_mask);
        }
        let handle = match self.reading.table.handle_at(&path) {
            Some(handle) => handle,
            None => {
                return self.end(Outcome::Done);
            },
        };
        if handle.mask == mask {
            return self.end(Outcome::Done);
        }
        let before = self.reading.table.kernel_mask(handle.w);
        self.reading.table.set_handle_mask(&path, mask);
        let after = self.reading.table.kernel_mask(handle.w);
        if after == before {
            return self.end(Outcome::Done);
        }
        self.push(
            Task::SetMaskAdded { path: path.clone(), mask, w: handle.w, before: handle.mask, after },
        );
        Request::Add(path, after)
    }

    /// A failure keeps the handle with its wider mask, whose extra events are filtered out, unless
    /// nothing is at the path any more: the handle is stale, and goes.
    fn set_mask_added(
        &mut self,
        path: PathBuf,
        mask: u32,
        w: i32,
        before: u32,
        after: u32,
        answer: Answer<PathBuf>,
    ) -> (request: Request<PathBuf>)
        requires
            old(self).wf(),
        ensures
            final(self).wf(),
            (final(self)@, asked(request)) == old(self)@.set_mask_added(
                path@,
                mask,
                w,
                before,
                after,
                answered(answer),
            ),
    {
        proof {
            reveal(LoopView::set_mask_added);
        }
        match added_of(&answer) {
            None => self.end(Outcome::Done),
            Some(Ok(other)) => {
                if other == w {
                    return self.end(Outcome::Done);
                }
                self.reading.table.set_handle_mask(&path, before);
                self.push(Task::Sync { w: other, before: after });
                self.push(Task::Record { w: other, path, mask });
                Request::Again
            },
            Some(Err(errno)) => {
                self.reading.table.set_handle_mask(&path, before);
                if error::is_absent(errno) {
                    self.push(Task::RemoveHandle { path });
                    Request::Again
                } else {
                    self.end(Outcome::Done)
                }
            },
        }
    }

    /// Removes the handle at `path`, if there is one.
    fn remove_handle(&mut self, path: PathBuf) -> (request: Request<PathBuf>)
        requires
            old(self).wf(),
        ensures
            final(self).wf(),
            (final(self)@, asked(request)) == old(self)@.remove_handle(path@),
    {
        proof {
            reveal(LoopView::remove_handle);
        }
        match self.reading.table.handle_at(&path) {
            None => self.end(Outcome::Done),
            Some(handle) => {
                let before = self.reading.table.kernel_mask(handle.w);
                self.reading.table.unbind_by_right(&path);
                self.push(Task::Sync { w: handle.w, before });
                Request::Again
            },
        }
    }

    /// Drops the handle at `path`, unless a root still needs it; an ancestor of tracked roots keeps
    /// the mask they need.
    fn release_handle(&mut self, path: PathBuf) -> (request: Request<PathBuf>)
        requires
            old(self).wf(),
        ensures
            final(self).wf(),
            (final(self)@, asked(request)) == old(self)@.release(path@),
    {
        proof {
            reveal(LoopView::release);
        }
        if !self.reading.table.has_handle(&path) || self.reading.table.is_handle_needed(&path) {
            return self.end(Outcome::Done);
        }
        if self.reading.table.leads_to_root(&path) {
            let mask = self.reading.table.chain_mask(&path);
            self.push(Task::SetMask { path, mask });
        } else {
            self.push(Task::RemoveHandle { path });
        }
        Request::Again
    }

    fn each(&mut self, deed: Deed, paths: Queue<PathBuf>) -> (request: Request<PathBuf>)
        requires
            old(self).wf(),
        ensures
            final(self).wf(),
            (final(self)@, asked(request)) == old(self)@.each(deed, path_list::left(paths)),
    {
        proof {
            reveal(LoopView::each);
        }
        match path_list::take_first(paths) {
            None => self.end(Outcome::Done),
            Some((path, rest)) => {
                self.push(Task::Each { deed, paths: rest });
                match deed {
                    Deed::Release => self.push(Task::Release { path }),
                    Deed::Remove => self.push(Task::RemoveHandle { path }),
                    Deed::Unbind => self.reading.table.unbind_by_right(&path),
                }
                Request::Again
            },
        }
    }

    // --- the arm of roots

    /// Watches the ancestors of `root` that exist, from the top down, for their entries; the parent
    /// for everything.
    fn arm_chain(&mut self, root: PathBuf, n: usize) -> (request: Request<PathBuf>)
        requires
            old(self).wf(),
        ensures
            final(self).wf(),
            (final(self)@, asked(request)) == old(self)@.chain(root@, n),
    {
        proof {
            reveal(LoopView::chain);
        }
        if n >= root.len() {
            return self.end(Outcome::Reached(true));
        }
        let ancestor = root.prefix(n);
        self.push(Task::ChainLooked { root, n });
        Request::Stat(ancestor)
    }

    fn chain_looked(&mut self, root: PathBuf, n: usize, answer: Answer<PathBuf>) -> (request:
        Request<PathBuf>)
        requires
            old(self).wf(),
        ensures
            final(self).wf(),
            (final(self)@, asked(request)) == old(self)@.chain_looked(
                root@,
                n,
                answered(answer),
            ),
    {
        proof {
            reveal(LoopView::chain_looked);
        }
        if n >= root.len() {
            return self.end(Outcome::Reached(true));
        }
        let ancestor = root.prefix(n);
        match stat_of(&answer) {
            Ok(stat) => {
                if !stat.is_dir {
                    return self.end(Outcome::Reached(false));
                }
                let mask: u32 = if n + 1 == root.len() {
                    FULL_MASK
                } else {
                    ENTRY_MASK
                };
                self.push(Task::ChainAdded { root, n });
                self.push(Task::Add { path: ancestor, mask, is_file_without_hardlinks: false });
                Request::Again
            },
            Err(errno) => {
                if error::is_absent(errno) {
                    self.end(Outcome::Reached(false))
                } else {
                    self.end(Outcome::Failed(Error::at(ErrorKind::Io(errno), ancestor)))
                }
            },
        }
    }

    fn has_failed(&self) -> (r: bool)
        ensures
            r == (self@.outcome is Failed),
    {
        match &self.outcome {
            Outcome::Failed(_) => true,
            _ => false,
        }
    }

    fn chain_added(&mut self, root: PathBuf, n: usize) -> (request: Request<PathBuf>)
        requires
            old(self).wf(),
        ensures
            final(self).wf(),
            (final(self)@, asked(request)) == old(self)@.chain_added(root@, n),
    {
        proof {
            reveal(LoopView::chain_added);
        }
        if n >= root.len() {
            return self.end(Outcome::Reached(true));
        }
        if self.has_failed() && n + 1 >= root.len() {
            return Request::Again;
        }
        self.push(Task::Chain { root, n: n + 1 });
        Request::Again
    }

    /// Watches a tracked root: its ancestors, and the root itself if it exists. The parent reports
    /// the root, so the root only gets a watch of its own when it is a directory or a hardlink.
    fn arm_root(&mut self, root: PathBuf, recursive: bool) -> (request: Request<PathBuf>)
        requires
            old(self).wf(),
        ensures
            final(self).wf(),
            (final(self)@, asked(request)) == old(self)@.arm_root(root@, recursive),
    {
        proof {
            reveal(LoopView::arm_root);
        }
        let n = root.floor();
        self.push(Task::ArmReached { root: root.clone(), recursive });
        self.push(Task::Chain { root, n });
        Request::Again
    }

    fn arm_reached(&mut self, root: PathBuf, recursive: bool) -> (request: Request<PathBuf>)
        requires
            old(self).wf(),
        ensures
            final(self).wf(),
            (final(self)@, asked(request)) == old(self)@.arm_reached(root@, recursive),
    {
        proof {
            reveal(LoopView::arm_reached);
        }
        match &self.outcome {
            Outcome::Failed(_) => Request::Again,
            Outcome::Reached(true) => {
                self.push(Task::ArmLooked { root: root.clone(), recursive });
                Request::Stat(root)
            },
            _ => self.end(Outcome::Armed(RootState::Missing)),
        }
    }

    fn add_maybe_recursive_watch(
        &mut self,
        path: PathBuf,
        recursive: bool,
        is_file_without_hardlinks: bool,
        watch_self: bool,
    )
        requires
            old(self).wf(),
        ensures
            final(self).wf(),
            final(self)@ == old(self)@.add_maybe_recursive(
                path@,
                recursive,
                is_file_without_hardlinks,
                watch_self,
            ),
    {
        if recursive {
            self.push(Task::Walk { path, watch_self });
        } else {
            self.push(
                Task::Add { path, mask: everything(watch_self), is_file_without_hardlinks },
            );
        }
    }

    fn arm_looked(&mut self, root: PathBuf, recursive: bool, answer: Answer<PathBuf>) -> (request:
        Request<PathBuf>)
        requires
            old(self).wf(),
        ensures
            final(self).wf(),
            (final(self)@, asked(request)) == old(self)@.arm_looked(
                root@,
                recursive,
                answered(answer),
            ),
    {
        proof {
            reveal(LoopView::arm_looked);
        }
        match stat_of(&answer) {
            Ok(stat) => {
                self.push(Task::ArmAdded { state: state_of(stat) });
                self.add_maybe_recursive_watch(
                    root,
                    recursive && stat.is_dir,
                    stat.is_file_without_hardlinks(),
                    false,
                );
                Request::Again
            },
            Err(errno) => {
                if error::is_absent(errno) {
                    self.end(Outcome::Armed(RootState::Missing))
                } else {
                    self.end(Outcome::Failed(Error::at(error::watch_error(errno), root)))
                }
            },
        }
    }

    fn arm_added(&mut self, state: RootState) -> (request: Request<PathBuf>)
        requires
            old(self).wf(),
        ensures
            final(self).wf(),
            (final(self)@, asked(request)) == old(self)@.arm_added(state),
    {
        proof {
            reveal(LoopView::arm_added);
        }
        if self.has_failed() {
            Request::Again
        } else {
            self.end(Outcome::Armed(state))
        }
    }

    /// Arms a root, and drops what the arm installed at and below the root when it fails halfway,
    /// so that a missing root never has live handles. The ancestors it armed stay: they are
    /// counted, and released with the root.
    fn arm_root_or_rollback(&mut self, root: PathBuf, recursive: bool) -> (request: Request<
        PathBuf,
    >)
        requires
            old(self).wf(),
        ensures
            final(self).wf(),
            (final(self)@, asked(request)) == old(self)@.arm(root@, recursive),
    {
        proof {
            reveal(LoopView::arm);
        }
        self.reading.table.start_arm();
        self.push(Task::ArmEnded { root: root.clone() });
        self.push(Task::ArmRoot { root, recursive });
        Request::Again
    }

    fn arm_ended(&mut self, root: PathBuf) -> (request: Request<PathBuf>)
        requires
            old(self).wf(),
        ensures
            final(self).wf(),
            (final(self)@, asked(request)) == old(self)@.arm_ended(root@),
    {
        proof {
            reveal(LoopView::arm_ended);
        }
        let armed = self.reading.table.take_armed();
        if !self.has_failed() {
            return Request::Again;
        }
        if let Outcome::Failed(error) = self.take_outcome() {
            let keep = |path: &PathBuf| -> (r: bool)
                ensures
                    r == path::starts_with(path@, root@),
                {
                    path.starts_with(&root)
                };
            let installed = path_list::chosen_paths(&armed, keep, Ghost(task::is_at_or_below(root@)));
            self.push(Task::Fail { error });
            self.push(Task::Each { deed: Deed::Remove, paths: Queue::new(installed) });
        }
        Request::Again
    }

    // --- walks and entries

    fn add_recursive_watch(&mut self, path: PathBuf, watch_self: bool) -> (request: Request<
        PathBuf,
    >)
        requires
            old(self).wf(),
        ensures
            final(self).wf(),
            (final(self)@, asked(request)) == old(self)@.walk(path@, watch_self),
    {
        proof {
            reveal(LoopView::walk);
        }
        let dirs: Vec<PathBuf> = Vec::new();
        assert(path::views(dirs@) =~= Seq::empty());
        self.push(Task::WalkFound { watch_self, dirs });
        Request::Walk(path)
    }

    fn walk_found(&mut self, watch_self: bool, dirs: Vec<PathBuf>, answer: Answer<PathBuf>) -> (
    request: Request<PathBuf>)
        requires
            old(self).wf(),
        ensures
            final(self).wf(),
            (final(self)@, asked(request)) == old(self)@.walk_found(
                watch_self,
                path::views(dirs@),
                answered(answer),
            ),
    {
        proof {
            reveal(LoopView::walk_found);
        }
        match entry_of(answer) {
            Some(dir) => {
                self.push(Task::WalkAdded { dir: dir.clone(), dirs });
                self.push(
                    Task::Add {
                        path: dir,
                        mask: everything(watch_self),
                        is_file_without_hardlinks: false,
                    },
                );
                Request::Again
            },
            None => {
                self.walked = dirs;
                self.end(Outcome::Done)
            },
        }
    }

    fn walk_added(&mut self, dir: PathBuf, dirs: Vec<PathBuf>) -> (request: Request<PathBuf>)
        requires
            old(self).wf(),
        ensures
            final(self).wf(),
            (final(self)@, asked(request)) == old(self)@.walk_added(dir@, path::views(dirs@)),
    {
        proof {
            reveal(LoopView::walk_added);
        }
        if self.has_failed() {
            self.walked = dirs;
            return Request::Again;
        }
        proof {
            path::lemma_views_push(dirs@, dir);
        }
        let mut dirs = dirs;
        dirs.push(dir);
        self.push(Task::WalkFound { watch_self: false, dirs });
        Request::Next
    }

    /// Watches an entry that appeared in a watched directory, under each of its spellings: it is
    /// walked once, through the first spelling that watches it recursively.
    fn add_entry_watches(&mut self, paths: Queue<PathBuf>, single: Queue<AddWatch>) -> (request:
        Request<PathBuf>)
        requires
            old(self).wf(),
        ensures
            final(self).wf(),
            (final(self)@, asked(request)) == old(self)@.entry(
                path_list::left(paths),
                adds_left(single),
            ),
    {
        proof {
            reveal(LoopView::entry);
        }
        match path_list::take_first(paths) {
            None => {
                self.push(Task::Single { single });
            },
            Some((walked, paths)) => {
                self.push(Task::EntryWalked { walked: walked.clone(), paths, single });
                self.push(Task::Walk { path: walked, watch_self: false });
            },
        }
        Request::Again
    }

    fn entry_walked(
        &mut self,
        walked: PathBuf,
        paths: Queue<PathBuf>,
        single: Queue<AddWatch>,
    ) -> (request: Request<PathBuf>)
        requires
            old(self).wf(),
        ensures
            final(self).wf(),
            (final(self)@, asked(request)) == old(self)@.entry_walked(
                walked@,
                path_list::left(paths),
                adds_left(single),
            ),
    {
        proof {
            reveal(LoopView::entry_walked);
        }
        let mut dirs: Vec<PathBuf> = Vec::new();
        assert(path::views(dirs@) =~= Seq::empty());
        std::mem::swap(&mut dirs, &mut self.walked);
        let next = match self.take_outcome() {
            Outcome::Failed(error) => {
                if is_full(&error) {
                    Task::Fail { error }
                } else {
                    Task::Single { single }
                }
            },
            _ => Task::Single { single },
        };
        self.push(next);
        self.push(Task::Bind { walked, dirs, paths, i: 0 });
        Request::Again
    }

    fn bind_walked_dirs(
        &mut self,
        walked: PathBuf,
        dirs: Vec<PathBuf>,
        paths: Queue<PathBuf>,
        i: usize,
    ) -> (request: Request<PathBuf>)
        requires
            old(self).wf(),
        ensures
            final(self).wf(),
            (final(self)@, asked(request)) == old(self)@.bind(
                walked@,
                path::views(dirs@),
                path_list::left(paths),
                i,
            ),
    {
        proof {
            reveal(LoopView::bind);
        }
        let path = match paths.first() {
            Some(path) => path.clone(),
            None => {
                return self.end(Outcome::Done);
            },
        };
        if i >= dirs.len() {
            let mut paths = paths;
            path_list::advance(&mut paths);
            self.push(Task::Bind { walked, dirs, paths, i: 0 });
            return Request::Again;
        }
        assert(path::views(dirs@)[i as int] == dirs@[i as int]@);
        let found = if dirs[i].starts_with(&walked) {
            self.reading.table.handle_at(&dirs[i])
        } else {
            None
        };
        match found {
            Some(handle) => {
                let spelling = path.join_from(&dirs[i], walked.len());
                self.push(Task::Bind { walked, dirs, paths, i: i + 1 });
                self.bind_walked_dir(handle.w, spelling);
            },
            None => {
                self.push(Task::Bind { walked, dirs, paths, i: i + 1 });
            },
        }
        Request::Again
    }

    fn bind_walked_dir(&mut self, w: i32, path: PathBuf)
        requires
            old(self).wf(),
        ensures
            final(self).wf(),
            final(self)@ == old(self)@.bind_walked(w, path@),
    {
        let existing = self.reading.table.handle_at(&path);
        let mask: u32 = match existing {
            Some(handle) => {
                if mask::contains(handle.mask, FULL_MASK) {
                    return;
                }
                handle.mask | FULL_MASK
            },
            None => FULL_MASK,
        };
        if mask::contains(self.reading.table.kernel_mask(w), mask) {
            self.push(Task::Record { w, path, mask });
        } else {
            self.push(Task::Add { path, mask: FULL_MASK, is_file_without_hardlinks: false });
        }
    }

    fn add_single_watches(&mut self, single: Queue<AddWatch>) -> (request: Request<PathBuf>)
        requires
            old(self).wf(),
        ensures
            final(self).wf(),
            (final(self)@, asked(request)) == old(self)@.single(adds_left(single)),
    {
        proof {
            reveal(LoopView::single);
        }
        let (path, is_file_without_hardlinks) = match single.first() {
            Some(add) => (add.path.clone(), add.is_file_without_hardlinks),
            None => {
                return self.end(Outcome::Done);
            },
        };
        let mut rest = single;
        rest.advance();
        assert(adds_left(rest) =~= adds_left(single).drop_first());
        self.push(Task::SingleAdded { single: rest });
        self.push(Task::Add { path, mask: FULL_MASK, is_file_without_hardlinks });
        Request::Again
    }

    /// Whether the last task ended with a full watch table.
    fn table_is_full(&self) -> (r: bool)
        ensures
            r == task::table_full(self@.outcome),
    {
        match &self.outcome {
            Outcome::Failed(error) => is_full(error),
            _ => false,
        }
    }

    fn single_added(&mut self, single: Queue<AddWatch>) -> (request: Request<PathBuf>)
        requires
            old(self).wf(),
        ensures
            final(self).wf(),
            (final(self)@, asked(request)) == old(self)@.single_added(adds_left(single)),
    {
        proof {
            reveal(LoopView::single_added);
        }
        if !self.table_is_full() {
            self.push(Task::Single { single });
        }
        Request::Again
    }

    // --- what the user asks for

    /// The ancestors of `path` whose handles may go once it is no longer tracked, nearest first.
    fn untracked(&self, path: &PathBuf) -> (ancestors: Vec<PathBuf>)
        requires
            self.wf(),
        ensures
            path::views(ancestors@) == task::untracked(self@.table(), path@, path::floor(path@)),
    {
        let floor: usize = path.floor();
        let mut ancestors: Vec<PathBuf> = Vec::new();
        let mut n: usize = path.len();
        assert(path::views(ancestors@) =~= task::untracked(self@.table(), path@, n as int));
        while n > floor
            invariant
                self.wf(),
                floor == path::floor(path@),
                floor <= n || n == path@.len(),
                n <= path@.len(),
                path::views(ancestors@) == task::untracked(self@.table(), path@, n as int),
            decreases n,
        {
            n = n - 1;
            let ancestor = path.prefix(n);
            if n + 1 == path.len() || !self.reading.table.leads_to_root(&ancestor) {
                proof {
                    path::lemma_views_push(ancestors@, ancestor);
                }
                ancestors.push(ancestor);
            }
        }
        ancestors
    }

    fn add_root(&mut self, path: PathBuf, mode: WatchMode) -> (request: Request<PathBuf>)
        requires
            old(self).wf(),
        ensures
            final(self).wf(),
            (final(self)@, asked(request)) == old(self)@.add_root(path@, mode),
    {
        proof {
            reveal(LoopView::add_root);
        }
        match self.reading.table.root(&path) {
            Some(existing) => {
                let track = mode.tracks() && !existing.mode.tracks();
                let recurse = mode.recursive() && !existing.mode.recursive() && existing.state
                    != RootState::Missing;
                self.push(Task::UpgradeEnded { path: path.clone(), mode, track });
                self.push(Task::Upgrade { path, track, recurse });
                Request::Again
            },
            None => {
                if mode.tracks() {
                    self.push(Task::AddRootArmed { path: path.clone(), mode });
                    self.push(Task::Arm { root: path, recursive: mode.recursive() });
                    Request::Again
                } else {
                    self.push(Task::AddRootLooked { path: path.clone(), mode });
                    Request::Stat(path)
                }
            },
        }
    }

    /// What the last arm found its root to be.
    fn found_state(&self) -> (state: RootState)
        ensures
            state == self@.outcome.state(),
    {
        match &self.outcome {
            Outcome::Armed(state) => *state,
            _ => RootState::Missing,
        }
    }

    fn add_root_armed(&mut self, path: PathBuf, mode: WatchMode) -> (request: Request<PathBuf>)
        requires
            old(self).wf(),
        ensures
            final(self).wf(),
            (final(self)@, asked(request)) == old(self)@.add_root_armed(path@, mode),
    {
        proof {
            reveal(LoopView::add_root_armed);
        }
        if !self.has_failed() {
            let state = self.found_state();
            self.reading.table.insert_root(path, RootWatch { mode, state });
            return self.end(Outcome::Done);
        }
        if let Outcome::Failed(error) = self.take_outcome() {
            let ancestors = self.untracked(&path);
            self.push(Task::Fail { error });
            self.push(Task::Each { deed: Deed::Release, paths: Queue::new(ancestors) });
        }
        Request::Again
    }

    fn add_root_looked(&mut self, path: PathBuf, mode: WatchMode, answer: Answer<PathBuf>) -> (
    request: Request<PathBuf>)
        requires
            old(self).wf(),
        ensures
            final(self).wf(),
            (final(self)@, asked(request)) == old(self)@.add_root_looked(
                path@,
                mode,
                answered(answer),
            ),
    {
        proof {
            reveal(LoopView::add_root_looked);
        }
        match stat_of(&answer) {
            Ok(stat) => {
                self.push(
                    Task::AddRootAdded { path: path.clone(), mode, state: state_of(stat) },
                );
                self.add_maybe_recursive_watch(
                    path,
                    mode.recursive() && stat.is_dir,
                    stat.is_file_without_hardlinks(),
                    true,
                );
                Request::Again
            },
            Err(errno) => self.end(Outcome::Failed(Error::new(error::watch_error(errno)))),
        }
    }

    fn add_root_added(&mut self, path: PathBuf, mode: WatchMode, state: RootState) -> (request:
        Request<PathBuf>)
        requires
            old(self).wf(),
        ensures
            final(self).wf(),
            (final(self)@, asked(request)) == old(self)@.add_root_added(path@, mode, state),
    {
        proof {
            reveal(LoopView::add_root_added);
        }
        if self.has_failed() {
            return Request::Again;
        }
        self.reading.table.insert_root(path, RootWatch { mode, state });
        self.end(Outcome::Done)
    }

    /// Arms the chain of a root that is tracked from now on, and watches the entries of a root that
    /// is recursive from now on.
    fn upgrade_root(&mut self, path: PathBuf, track: bool, recurse: bool) -> (request: Request<
        PathBuf,
    >)
        requires
            old(self).wf(),
        ensures
            final(self).wf(),
            (final(self)@, asked(request)) == old(self)@.upgrade(path@, track, recurse),
    {
        proof {
            reveal(LoopView::upgrade);
        }
        self.outcome = Outcome::Done;
        let n = path.floor();
        self.push(Task::UpgradeReached { path: path.clone(), recurse });
        if track {
            self.push(Task::Chain { root: path, n });
        }
        Request::Again
    }

    fn upgrade_reached(&mut self, path: PathBuf, recurse: bool) -> (request: Request<PathBuf>)
        requires
            old(self).wf(),
        ensures
            final(self).wf(),
            (final(self)@, asked(request)) == old(self)@.upgrade_reached(path@, recurse),
    {
        proof {
            reveal(LoopView::upgrade_reached);
        }
        if self.has_failed() {
            return Request::Again;
        }
        if recurse {
            self.push(Task::UpgradeLooked { path: path.clone() });
            Request::Stat(path)
        } else {
            self.end(Outcome::Done)
        }
    }

    fn upgrade_looked(&mut self, path: PathBuf, answer: Answer<PathBuf>) -> (request: Request<
        PathBuf,
    >)
        requires
            old(self).wf(),
        ensures
            final(self).wf(),
            (final(self)@, asked(request)) == old(self)@.upgrade_looked(path@, answered(answer)),
    {
        proof {
            reveal(LoopView::upgrade_looked);
        }
        match stat_of(&answer) {
            Ok(stat) => {
                if stat.is_dir {
                    self.push(Task::Walk { path, watch_self: true });
                    Request::Again
                } else {
                    self.end(Outcome::Done)
                }
            },
            Err(errno) => self.end(Outcome::Failed(Error::new(ErrorKind::Io(errno)))),
        }
    }

    fn upgrade_ended(&mut self, path: PathBuf, mode: WatchMode, track: bool) -> (request: Request<
        PathBuf,
    >)
        requires
            old(self).wf(),
        ensures
            final(self).wf(),
            (final(self)@, asked(request)) == old(self)@.upgrade_ended(path@, mode, track),
    {
        proof {
            reveal(LoopView::upgrade_ended);
        }
        if self.has_failed() {
            if !track {
                return Request::Again;
            }
            if let Outcome::Failed(error) = self.take_outcome() {
                let ancestors = self.untracked(&path);
                self.push(Task::Fail { error });
                self.push(Task::Each { deed: Deed::Release, paths: Queue::new(ancestors) });
            }
            return Request::Again;
        }
        let root = match self.reading.table.root(&path) {
            Some(root) => root,
            None => {
                return self.end(Outcome::Done);
            },
        };
        let mut both = root.mode;
        both.upgrade_with(mode);
        self.reading.table.insert_root(path.clone(), RootWatch { mode: both, state: root.state });
        if both.tracks() && root.state == RootState::Missing {
            self.push(Task::UpgradeArmed { path: path.clone() });
            self.push(Task::Arm { root: path, recursive: both.recursive() });
            Request::Again
        } else {
            self.end(Outcome::Done)
        }
    }

    /// A missing root is present now: it is recorded and reported created.
    fn note_armed(&mut self, root: &PathBuf, state: RootState)
        requires
            old(self).wf(),
        ensures
            final(self).wf(),
            final(self)@ == (LoopView {
                reading: task::note_armed(old(self)@.reading, root@, state),
                ..old(self)@
            }),
    {
        self.reading.table.set_state(root, state);
        let kind = if state == RootState::Directory {
            CreateKind::Folder
        } else {
            CreateKind::File
        };
        let event = Event::new(EventKind::Create(kind)).add_path(root.clone());
        report::push_event(&mut self.reading.reports, event);
    }

    fn upgrade_armed(&mut self, path: PathBuf) -> (request: Request<PathBuf>)
        requires
            old(self).wf(),
        ensures
            final(self).wf(),
            (final(self)@, asked(request)) == old(self)@.upgrade_armed(path@),
    {
        proof {
            reveal(LoopView::upgrade_armed);
        }
        if self.has_failed() {
            return Request::Again;
        }
        let state = self.found_state();
        if state != RootState::Missing {
            self.note_armed(&path, state);
        }
        self.end(Outcome::Done)
    }

    /// Unwatches a root. Once the root is found, the unwatch succeeds and all of its bookkeeping
    /// runs.
    fn remove_root(&mut self, path: PathBuf) -> (request: Request<PathBuf>)
        requires
            old(self).wf(),
        ensures
            final(self).wf(),
            (final(self)@, asked(request)) == old(self)@.remove_root(path@),
    {
        proof {
            reveal(LoopView::remove_root);
        }
        let root = match self.reading.table.root(&path) {
            Some(root) => root,
            None => {
                return self.end(Outcome::Failed(Error::at(ErrorKind::WatchNotFound, path)));
            },
        };
        self.reading.table.remove_root(&path);
        let ancestors = self.untracked(&path);
        self.push(Task::Succeed);
        if !self.reading.table.has_handle(&path) {
            if let Some(parent) = path.parent() {
                self.push(Task::Release { path: parent });
            }
        }
        if root.mode.tracks() {
            self.push(Task::Each { deed: Deed::Release, paths: Queue::new(ancestors) });
        }
        if root.mode.recursive() {
            self.push(Task::ReleaseBelow { path });
        } else {
            self.push(Task::Release { path });
        }
        Request::Again
    }

    fn release_handles_below(&mut self, path: PathBuf) -> (request: Request<PathBuf>)
        requires
            old(self).wf(),
        ensures
            final(self).wf(),
            (final(self)@, asked(request)) == old(self)@.release_below(path@),
    {
        proof {
            reveal(LoopView::release_below);
        }
        let below = self.reading.table.roots_below(&path);
        let handles = self.reading.table.handles_below(&path);
        let table = &self.reading.table;
        let keep = |root: &PathBuf| -> (r: bool)
            requires
                table.wf(),
                table@.roots.contains_key(root@),
            ensures
                r == task::is_armed(table@)(root@),
            {
                match table.root(root) {
                    Some(watch) => watch.mode.tracks() && watch.state != RootState::Missing,
                    None => false,
                }
            };
        let roots = path_list::chosen_paths(&below, keep, Ghost(task::is_armed(table@)));
        self.push(Task::ArmAgain { roots: Queue::new(roots) });
        self.push(Task::Each { deed: Deed::Release, paths: Queue::new(handles) });
        Request::Again
    }

    fn arm_again(&mut self, roots: Queue<PathBuf>) -> (request: Request<PathBuf>)
        requires
            old(self).wf(),
        ensures
            final(self).wf(),
            (final(self)@, asked(request)) == old(self)@.arm_again(path_list::left(roots)),
    {
        proof {
            reveal(LoopView::arm_again);
        }
        match path_list::take_first(roots) {
            None => self.end(Outcome::Done),
            Some((root, rest)) => {
                self.push(Task::ArmAgain { roots: rest });
                if let Some(watch) = self.reading.table.root(&root) {
                    self.push(Task::ArmRoot { root, recursive: watch.mode.recursive() });
                }
                Request::Again
            },
        }
    }

    // --- what the events of a read ask for

    fn drop_all(&mut self, paths: Queue<PathBuf>, without_os_call: bool) -> (request: Request<
        PathBuf,
    >)
        requires
            old(self).wf(),
        ensures
            final(self).wf(),
            (final(self)@, asked(request)) == old(self)@.drop_all(
                path_list::left(paths),
                without_os_call,
            ),
    {
        proof {
            reveal(LoopView::drop_all);
        }
        match path_list::take_first(paths) {
            None => self.end(Outcome::Done),
            Some((path, rest)) => {
                self.forget_no_track_root(&path);
                self.push(Task::DropAll { paths: rest, without_os_call });
                self.push(Task::Drop { path, keep_root: false, without_os_call });
                Request::Again
            },
        }
    }

    /// A NoTrack root at `path` follows its entity, which is gone: the root is forgotten.
    fn forget_no_track_root(&mut self, path: &PathBuf)
        requires
            old(self).wf(),
        ensures
            final(self).wf(),
            final(self)@ == (if old(self)@.table().roots.contains_key(path@)
                && !old(self)@.table().roots[path@].mode.tracks_path() {
                old(self)@.with_table(old(self)@.table().without_root(path@))
            } else {
                old(self)@
            }),
    {
        if let Some(root) = self.reading.table.root(path) {
            if !root.mode.tracks() {
                self.reading.table.remove_root(path);
            }
        }
    }

    /// The NoTrack roots at and below `path`.
    fn no_track_roots(&self, path: &PathBuf) -> (roots: Vec<PathBuf>)
        requires
            self.wf(),
        ensures
            path::views(roots@) == task::no_track_roots(self@.table(), path@),
    {
        let below = self.reading.table.roots_below(path);
        let table = &self.reading.table;
        let keep = |root: &PathBuf| -> (r: bool)
            requires
                table.wf(),
                table@.roots.contains_key(root@),
            ensures
                r == task::is_no_track(table@)(root@),
            {
                match table.root(root) {
                    Some(watch) => !watch.mode.tracks(),
                    None => false,
                }
            };
        path_list::chosen_paths(&below, keep, Ghost(task::is_no_track(table@)))
    }

    /// Drops the handles at and below `path`, which sit on moved or deleted inodes, except the ones
    /// a NoTrack root still needs. With `keep_root`, a present root at `path` keeps the handle it
    /// has just got.
    fn drop_handles_below(&mut self, path: PathBuf, keep_root: bool, without_os_call: bool) -> (
    request: Request<PathBuf>)
        requires
            old(self).wf(),
        ensures
            final(self).wf(),
            (final(self)@, asked(request)) == old(self)@.drop(path@, keep_root, without_os_call),
    {
        proof {
            reveal(LoopView::drop);
        }
        let roots = self.no_track_roots(&path);
        let keeps_root = keep_root && (match self.reading.table.root(&path) {
            Some(root) => root.state != RootState::Missing,
            None => false,
        });
        let below = self.reading.table.handles_below(&path);
        let table = &self.reading.table;
        let keep = |handle: &PathBuf| -> (r: bool)
            requires
                table.wf(),
                path::views(roots@) == task::no_track_roots(table@, path@),
                keeps_root == (keep_root && table@.roots.contains_key(path@)
                    && table@.roots[path@].state != RootState::Missing),
            ensures
                r == task::is_dropped(table@, path@, keep_root)(handle@),
            {
                !(is_kept_by_no_track_root(table, &roots, handle) || (keeps_root && handle.same(
                    &path,
                )))
            };
        let handles = path_list::chosen_paths(
            &below,
            keep,
            Ghost(task::is_dropped(table@, path@, keep_root)),
        );
        let deed = if without_os_call {
            Deed::Unbind
        } else {
            Deed::Remove
        };
        self.push(Task::DropRoots { path, roots: Queue::new(roots) });
        self.push(Task::Each { deed, paths: Queue::new(handles) });
        Request::Again
    }

    fn drop_roots(&mut self, path: PathBuf, roots: Queue<PathBuf>) -> (request: Request<PathBuf>)
        requires
            old(self).wf(),
        ensures
            final(self).wf(),
            (final(self)@, asked(request)) == old(self)@.drop_roots(path@, path_list::left(roots)),
    {
        proof {
            reveal(LoopView::drop_roots);
        }
        let (root, rest) = match path_list::take_first(roots) {
            None => {
                return self.end(Outcome::Done);
            },
            Some((root, rest)) => (root, rest),
        };
        let parent_has_handle = match root.parent() {
            Some(parent) => self.reading.table.has_handle(&parent),
            None => false,
        };
        let stays = root.same(&path) || self.reading.table.has_handle(&root) || parent_has_handle;
        self.push(Task::DropRoots { path, roots: rest });
        if !stays {
            if let Some(watch) = self.reading.table.root(&root) {
                self.reading.table.remove_root(&root);
                if watch.state != RootState::Missing {
                    let event = Event::new(EventKind::Remove(RemoveKind::File)).add_path(root);
                    report::push_event(&mut self.reading.reports, event);
                }
            }
        }
        Request::Again
    }

    /// The roots that were there below `path` are out of reach.
    fn vanish_below(&mut self, path: &PathBuf)
        requires
            old(self).wf(),
        ensures
            final(self).wf(),
            final(self)@ == (LoopView {
                reading: task::all_vanished(
                    old(self)@.reading,
                    root::tracked_roots_below(old(self)@.table().roots, path@, false),
                ),
                ..old(self)@
            }),
    {
        let roots = self.reading.table.tracked_roots_below(path, false);
        let ghost all = path::views(roots@);
        let ghost start = self@;
        let mut i: usize = 0;
        assert(all.take(0) =~= Seq::empty());
        while i < roots.len()
            invariant
                i <= roots@.len(),
                all == path::views(roots@),
                self.wf(),
                self@ == (LoopView {
                    reading: task::all_vanished(start.reading, all.take(i as int)),
                    ..start
                }),
            decreases roots.len() - i,
        {
            let ghost before = self@.reading;
            proof {
                assert(all.take(i + 1).drop_last() =~= all.take(i as int));
                assert(all.take(i + 1).last() == roots@[i as int]@);
            }
            let kind = match self.reading.table.root(&roots[i]) {
                Some(watch) => if watch.state == RootState::Directory {
                    RemoveKind::Folder
                } else {
                    RemoveKind::File
                },
                None => RemoveKind::File,
            };
            self.reading.table.set_state(&roots[i], RootState::Missing);
            let event = Event::new(EventKind::Remove(kind)).add_path(roots[i].clone());
            report::push_event(&mut self.reading.reports, event);
            i = i + 1;
        }
        assert(all.take(i as int) =~= all);
    }

    fn vanish_all(&mut self, paths: Queue<PathBuf>) -> (request: Request<PathBuf>)
        requires
            old(self).wf(),
        ensures
            final(self).wf(),
            (final(self)@, asked(request)) == old(self)@.vanish_all(path_list::left(paths)),
    {
        proof {
            reveal(LoopView::vanish_all);
        }
        match path_list::take_first(paths) {
            None => self.end(Outcome::Done),
            Some((path, rest)) => {
                self.vanish_below(&path);
                self.push(Task::VanishAll { paths: rest });
                self.push(Task::Drop { path, keep_root: true, without_os_call: false });
                Request::Again
            },
        }
    }

    fn add_all(&mut self, entries: Queue<Vec<AddWatch>>) -> (request: Request<PathBuf>)
        requires
            old(self).wf(),
        ensures
            final(self).wf(),
            (final(self)@, asked(request)) == old(self)@.add_all(entries_left(entries)),
    {
        proof {
            reveal(LoopView::add_all);
        }
        let (paths, single) = match entries.first() {
            Some(adds) => partition(adds),
            None => {
                return self.end(Outcome::Done);
            },
        };
        let mut rest = entries;
        rest.advance();
        assert(entries_left(rest) =~= entries_left(entries).drop_first());
        self.push(Task::AddAllEnded { entries: rest });
        self.push(Task::Entry { paths: Queue::new(paths), single: Queue::new(single) });
        Request::Again
    }

    fn add_all_ended(&mut self, entries: Queue<Vec<AddWatch>>) -> (request: Request<PathBuf>)
        requires
            old(self).wf(),
        ensures
            final(self).wf(),
            (final(self)@, asked(request)) == old(self)@.add_all_ended(entries_left(entries)),
    {
        proof {
            reveal(LoopView::add_all_ended);
        }
        if !self.table_is_full() {
            self.push(Task::AddAll { entries });
            return Request::Again;
        }
        if let Outcome::Failed(error) = self.take_outcome() {
            report::push_error(&mut self.reading.reports, error);
        }
        self.end(Outcome::Done)
    }

    fn rearm_all(&mut self, paths: Queue<PathBuf>) -> (request: Request<PathBuf>)
        requires
            old(self).wf(),
        ensures
            final(self).wf(),
            (final(self)@, asked(request)) == old(self)@.rearm_all(path_list::left(paths)),
    {
        proof {
            reveal(LoopView::rearm_all);
        }
        match path_list::take_first(paths) {
            None => self.end(Outcome::Done),
            Some((path, rest)) => {
                let roots = self.reading.table.tracked_roots_below(&path, true);
                self.push(Task::RearmAll { paths: rest });
                self.push(Task::RearmEach { roots: Queue::new(roots) });
                Request::Again
            },
        }
    }

    fn rearm_each(&mut self, roots: Queue<PathBuf>) -> (request: Request<PathBuf>)
        requires
            old(self).wf(),
        ensures
            final(self).wf(),
            (final(self)@, asked(request)) == old(self)@.rearm_each(path_list::left(roots)),
    {
        proof {
            reveal(LoopView::rearm_each);
        }
        match path_list::take_first(roots) {
            None => self.end(Outcome::Done),
            Some((root, rest)) => {
                match self.reading.table.root(&root) {
                    Some(watch) => {
                        self.push(Task::RearmEnded { root: root.clone(), roots: rest });
                        self.push(Task::Arm { root, recursive: watch.mode.recursive() });
                    },
                    None => {
                        self.push(Task::RearmEach { roots: rest });
                    },
                }
                Request::Again
            },
        }
    }

    fn rearm_ended(&mut self, root: PathBuf, roots: Queue<PathBuf>) -> (request: Request<PathBuf>)
        requires
            old(self).wf(),
        ensures
            final(self).wf(),
            (final(self)@, asked(request)) == old(self)@.rearm_ended(root@, path_list::left(roots)),
    {
        proof {
            reveal(LoopView::rearm_ended);
        }
        self.push(Task::RearmEach { roots });
        if let Outcome::Armed(state) = &self.outcome {
            let state = *state;
            if state != RootState::Missing {
                self.note_armed(&root, state);
            }
            return Request::Again;
        }
        if self.has_failed() {
            if let Outcome::Failed(error) = self.take_outcome() {
                let error = if path::contains_path(&error.paths, &root) {
                    error
                } else {
                    error.add_path(root)
                };
                report::push_error(&mut self.reading.reports, error);
            }
        }
        Request::Again
    }

    // --- the end

    fn remove_all(&mut self, paths: Queue<PathBuf>) -> (request: Request<PathBuf>)
        requires
            old(self).wf(),
        ensures
            final(self).wf(),
            (final(self)@, asked(request)) == old(self)@.remove_all(path_list::left(paths)),
    {
        proof {
            reveal(LoopView::remove_all);
        }
        let found = match paths.first() {
            Some(path) => self.reading.table.handle_at(path),
            None => {
                self.reading.table.clear();
                return self.end(Outcome::Done);
            },
        };
        match found {
            Some(handle) => {
                self.push(Task::RemoveAllAnswered { paths });
                Request::Remove(handle.w)
            },
            None => {
                let mut paths = paths;
                path_list::advance(&mut paths);
                self.push(Task::RemoveAll { paths });
                Request::Again
            },
        }
    }

    fn remove_all_answered(&mut self, paths: Queue<PathBuf>, answer: Answer<PathBuf>) -> (request:
        Request<PathBuf>)
        requires
            old(self).wf(),
        ensures
            final(self).wf(),
            (final(self)@, asked(request)) == old(self)@.remove_all_answered(
                path_list::left(paths),
                answered(answer),
            ),
    {
        proof {
            reveal(LoopView::remove_all_answered);
        }
        let (path, rest) = match path_list::take_first(paths) {
            None => {
                return self.end(Outcome::Done);
            },
            Some((path, rest)) => (path, rest),
        };
        match removed_of(&answer) {
            Ok(_) => {
                self.push(Task::RemoveAll { paths: rest });
                Request::Again
            },
            Err(errno) => self.end(Outcome::Failed(Error::at(ErrorKind::Io(errno), path))),
        }
    }

    /// Takes the next step: goes on with the answer to the last request, and says what is asked
    /// next.
    pub fn step(&mut self, answer: Answer<PathBuf>) -> (request: Request<PathBuf>)
        requires
            old(self).wf(),
        ensures
            final(self).wf(),
            (final(self)@, asked(request)) == old(self)@.step(answered(answer)),
    {
        match self.tasks.pop() {
            None => Request::Idle,
            Some(task) => {
                assert(self@ =~= old(self)@.popped());
                assert(old(self)@.tasks.last() == shown(task));
                self.go_on(task, answer)
            },
        }
    }

    /// Goes on with a task.
    fn go_on(&mut self, task: Job, answer: Answer<PathBuf>) -> (request: Request<PathBuf>)
        requires
            old(self).wf(),
        ensures
            final(self).wf(),
            (final(self)@, asked(request)) == old(self)@.go_on(shown(task), answered(answer)),
    {
        if is_handle_task(&task) {
            self.go_on_handle(task, answer)
        } else if is_arm_task(&task) {
            self.go_on_arm(task, answer)
        } else if is_walk_task(&task) {
            self.go_on_walk(task, answer)
        } else if is_root_task(&task) {
            self.go_on_root(task, answer)
        } else {
            self.go_on_change(task, answer)
        }
    }

    fn go_on_handle(&mut self, task: Job, answer: Answer<PathBuf>) -> (request: Request<PathBuf>)
        requires
            old(self).wf(),
        ensures
            final(self).wf(),
            (final(self)@, asked(request)) == old(self)@.go_on_handle(
                shown(task),
                answered(answer),
            ),
    {
        match task {
            Task::Heedless => self.end(Outcome::Done),
            Task::Fail { error } => self.end(Outcome::Failed(error)),
            Task::Succeed => self.end(Outcome::Done),
            Task::Sync { w, before } => self.sync_kernel_mask(w, before),
            Task::SyncThrough { w, mask, rest } => self.sync_through(w, mask, rest),
            Task::SyncLooked { w, mask, rest } => self.sync_looked(w, mask, rest, answer),
            Task::SyncAdded { w, mask, rest } => self.sync_added(w, mask, rest, answer),
            Task::Add { path, mask, is_file_without_hardlinks } => self.add_watch_with_mask(
                path,
                mask,
                is_file_without_hardlinks,
            ),
            Task::Added { path, mask } => self.added(path, mask, answer),
            Task::Record { w, path, mask } => self.record_handle(w, path, mask),
            Task::RecordLooked { w, path, mask } => self.record_looked(w, path, mask, answer),
            Task::SetMask { path, mask } => self.set_handle_mask(path, mask),
            Task::SetMaskAdded { path, mask, w, before, after } => self.set_mask_added(
                path,
                mask,
                w,
                before,
                after,
                answer,
            ),
            Task::RemoveHandle { path } => self.remove_handle(path),
            Task::Release { path } => self.release_handle(path),
            Task::Each { deed, paths } => self.each(deed, paths),
            _ => Request::Again,
        }
    }

    fn go_on_arm(&mut self, task: Job, answer: Answer<PathBuf>) -> (request: Request<PathBuf>)
        requires
            old(self).wf(),
        ensures
            final(self).wf(),
            (final(self)@, asked(request)) == old(self)@.go_on_arm(shown(task), answered(answer)),
    {
        match task {
            Task::Chain { root, n } => self.arm_chain(root, n),
            Task::ChainLooked { root, n } => self.chain_looked(root, n, answer),
            Task::ChainAdded { root, n } => self.chain_added(root, n),
            Task::ArmRoot { root, recursive } => self.arm_root(root, recursive),
            Task::ArmReached { root, recursive } => self.arm_reached(root, recursive),
            Task::ArmLooked { root, recursive } => self.arm_looked(root, recursive, answer),
            Task::ArmAdded { state } => self.arm_added(state),
            Task::Arm { root, recursive } => self.arm_root_or_rollback(root, recursive),
            Task::ArmEnded { root } => self.arm_ended(root),
            _ => Request::Again,
        }
    }

    fn go_on_walk(&mut self, task: Job, answer: Answer<PathBuf>) -> (request: Request<PathBuf>)
        requires
            old(self).wf(),
        ensures
            final(self).wf(),
            (final(self)@, asked(request)) == old(self)@.go_on_walk(shown(task), answered(answer)),
    {
        match task {
            Task::Walk { path, watch_self } => self.add_recursive_watch(path, watch_self),
            Task::WalkFound { watch_self, dirs } => self.walk_found(watch_self, dirs, answer),
            Task::WalkAdded { dir, dirs } => self.walk_added(dir, dirs),
            Task::Entry { paths, single } => self.add_entry_watches(paths, single),
            Task::EntryWalked { walked, paths, single } => self.entry_walked(walked, paths, single),
            Task::Bind { walked, dirs, paths, i } => self.bind_walked_dirs(walked, dirs, paths, i),
            Task::Single { single } => self.add_single_watches(single),
            Task::SingleAdded { single } => self.single_added(single),
            _ => Request::Again,
        }
    }

    fn go_on_root(&mut self, task: Job, answer: Answer<PathBuf>) -> (request: Request<PathBuf>)
        requires
            old(self).wf(),
        ensures
            final(self).wf(),
            (final(self)@, asked(request)) == old(self)@.go_on_root(shown(task), answered(answer)),
    {
        match task {
            Task::AddRoot { path, mode } => self.add_root(path, mode),
            Task::AddRootArmed { path, mode } => self.add_root_armed(path, mode),
            Task::AddRootLooked { path, mode } => self.add_root_looked(path, mode, answer),
            Task::AddRootAdded { path, mode, state } => self.add_root_added(path, mode, state),
            Task::Upgrade { path, track, recurse } => self.upgrade_root(path, track, recurse),
            Task::UpgradeReached { path, recurse } => self.upgrade_reached(path, recurse),
            Task::UpgradeLooked { path } => self.upgrade_looked(path, answer),
            Task::UpgradeEnded { path, mode, track } => self.upgrade_ended(path, mode, track),
            Task::UpgradeArmed { path } => self.upgrade_armed(path),
            Task::RemoveRoot { path } => self.remove_root(path),
            Task::ReleaseBelow { path } => self.release_handles_below(path),
            Task::ArmAgain { roots } => self.arm_again(roots),
            _ => Request::Again,
        }
    }

    fn go_on_change(&mut self, task: Job, answer: Answer<PathBuf>) -> (request: Request<PathBuf>)
        requires
            old(self).wf(),
        ensures
            final(self).wf(),
            (final(self)@, asked(request)) == old(self)@.go_on_change(
                shown(task),
                answered(answer),
            ),
    {
        match task {
            Task::DropAll { paths, without_os_call } => self.drop_all(paths, without_os_call),
            Task::Drop { path, keep_root, without_os_call } => self.drop_handles_below(
                path,
                keep_root,
                without_os_call,
            ),
            Task::DropRoots { path, roots } => self.drop_roots(path, roots),
            Task::VanishAll { paths } => self.vanish_all(paths),
            Task::AddAll { entries } => self.add_all(entries),
            Task::AddAllEnded { entries } => self.add_all_ended(entries),
            Task::RearmAll { paths } => self.rearm_all(paths),
            Task::RearmEach { roots } => self.rearm_each(roots),
            Task::RearmEnded { root, roots } => self.rearm_ended(root, roots),
            Task::RemoveAll { paths } => self.remove_all(paths),
            Task::RemoveAllAnswered { paths } => self.remove_all_answered(paths, answer),
            _ => Request::Again,
        }
    }

    /// The user watches `path`.
    pub fn add_watch(&mut self, path: PathBuf, mode: WatchMode)
        requires
            old(self).wf(),
        ensures
            final(self).wf(),
            final(self)@ == old(self)@.push(Task::AddRoot { path: path@, mode }),
    {
        self.push(Task::AddRoot { path, mode });
    }

    /// The user watches `path` no longer.
    pub fn remove_watch(&mut self, path: PathBuf)
        requires
            old(self).wf(),
        ensures
            final(self).wf(),
            final(self)@ == old(self)@.push(Task::RemoveRoot { path: path@ }),
    {
        self.push(Task::RemoveRoot { path });
    }

    /// Nothing is watched any more.
    pub fn remove_all_watches(&mut self)
        requires
            old(self).wf(),
        ensures
            final(self).wf(),
            final(self)@ == old(self)@.push(
                Task::RemoveAll { paths: task::primaries(old(self)@.table()) },
            ),
    {
        let all = self.reading.table.handles_below(&PathBuf::new());
        let table = &self.reading.table;
        let keep = |path: &PathBuf| -> (r: bool)
            requires
                table.wf(),
                table@.handles.contains_key(path@),
            ensures
                r == task::is_primary(table@)(path@),
            {
                proof {
                    table.lemma_consistent();
                }
                match table.handle_at(path) {
                    Some(handle) => {
                        let spellings = table.spellings(handle.w);
                        assert(path::views(spellings@)[0] == spellings@[0]@);
                        spellings.len() > 0 && spellings[0].same(path)
                    },
                    None => false,
                }
            };
        let paths = path_list::chosen_paths(&all, keep, Ghost(task::is_primary(table@)));
        self.push(Task::RemoveAll { paths: Queue::new(paths) });
    }

    /// What the events of a read asked for is to be done.
    pub fn process_changes(&mut self)
        requires
            old(self).wf(),
        ensures
            final(self).wf(),
            final(self)@ == old(self)@.process(),
    {
        let ghost start = self@;
        let asked = self.reading.take_changes();
        let mut i: usize = 0;
        assert(asked.ignored@.take(0) =~= Seq::empty());
        while i < asked.ignored.len()
            invariant
                i <= asked.ignored@.len(),
                self.wf(),
                self@ == (LoopView {
                    reading: reading::ReadingView {
                        table: task::all_unbound(start.table(), asked.ignored@.take(i as int)),
                        changes: reading::ChangesView::new(),
                        ..start.reading
                    },
                    ..start
                }),
            decreases asked.ignored.len() - i,
        {
            proof {
                let all = asked.ignored@;
                assert(all.take(i + 1).drop_last() =~= all.take(i as int));
                assert(all.take(i + 1).last() == all[i as int]);
            }
            self.reading.table.unbind_by_left(asked.ignored[i]);
            i = i + 1;
        }
        assert(asked.ignored@.take(i as int) =~= asked.ignored@);
        self.push(Task::RearmAll { paths: Queue::new(asked.appeared) });
        self.push(Task::AddAll { entries: Queue::new(asked.add_watches) });
        self.push(Task::VanishAll { paths: Queue::new(asked.vanished) });
        self.push(
            Task::DropAll { paths: Queue::new(asked.remove_watches), without_os_call: false },
        );
        self.push(
            Task::DropAll {
                paths: Queue::new(asked.remove_watches_no_syscall),
                without_os_call: true,
            },
        );
    }

    /// Handles an event of a read; see [`Reading::handle_inotify_event`].
    pub fn handle_inotify_event(&mut self, event: &InotifyEvent, stats: &Vec<Option<FileStat>>)
        requires
            old(self).wf(),
            stats@.len() == old(self)@.table().spellings(event.w).len(),
        ensures
            final(self).wf(),
            final(self)@ == (LoopView {
                reading: old(self)@.reading.event(
                    event.w,
                    event.mask,
                    event.cookie,
                    reading::name_view(event.name),
                    stats@,
                ),
                ..old(self)@
            }),
    {
        self.reading.handle_inotify_event(event, stats);
    }

    /// A read of events failed.
    pub fn read_failed(&mut self, errno: i32)
        requires
            old(self).wf(),
        ensures
            final(self).wf(),
            final(self)@ == old(self)@.reporting(
                report::ReportView::Error(ErrorView::new(ErrorKind::Io(errno))),
            ),
    {
        report::push_error(&mut self.reading.reports, Error::new(ErrorKind::Io(errno)));
    }

    /// What is to be reported, taken.
    pub fn take_reports(&mut self) -> (reports: Vec<Report>)
        requires
            old(self).wf(),
        ensures
            final(self).wf(),
            report::views(reports@) == old(self)@.reading.reports,
            final(self)@ == (LoopView {
                reading: reading::ReadingView { reports: Seq::empty(), ..old(self)@.reading },
                ..old(self)@
            }),
    {
        let mut reports: Vec<Report> = Vec::new();
        assert(report::views(reports@) =~= Seq::empty());
        std::mem::swap(&mut reports, &mut self.reading.reports);
        reports
    }

    /// How the last task ended.
    pub fn take_result(&mut self) -> (result: Result<(), Error>)
        requires
            old(self).wf(),
        ensures
            final(self).wf(),
            final(self)@ == old(self)@.taken(),
            (match result {
                Ok(_) => !(old(self)@.outcome is Failed),
                Err(error) => old(self)@.outcome == Outcome::Failed(error@),
            }),
    {
        match self.take_outcome() {
            Outcome::Failed(error) => Err(error),
            _ => Ok(()),
        }
    }
}

} // verus!
