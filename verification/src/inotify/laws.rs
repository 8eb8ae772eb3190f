//! What holds of the event loop as a whole.

use crate::config::WatchMode;
use crate::error::{ErrorKind, ErrorView};
use crate::event::{CreateKind, EventKind, RemoveKind};
use crate::inotify::mask;
use crate::inotify::mask::{ENTRY_MASK, FULL_MASK};
use crate::inotify::reading::{AddView, ReadingView};
use crate::inotify::table;
use crate::inotify::table::TableView;
use crate::inotify::task;
use crate::inotify::task::{AnswerView, Deed, LoopView, Request, Task, TaskView};
use crate::outcome::Outcome;
use crate::path;
use crate::path_map;
use crate::report;
use crate::report::ReportView;
use crate::root;
use crate::root::{RootState, RootWatch};
use vstd::prelude::*;

verus! {

/// Whether a task leaves the roots and what is reported alone.
pub open spec fn is_quiet(task: TaskView) -> bool {
    task::is_handle_task(task) || task::is_arm_task(task) || task::is_walk_task(task)
        || task is ReleaseBelow || task is ArmAgain || task is Upgrade || task is UpgradeReached
        || task is UpgradeLooked
}

/// Whether a task goes on with an arm that has begun.
pub open spec fn is_arming(task: TaskView) -> bool {
    is_quiet(task) && !(task is Arm) && !(task is ArmEnded)
}

/// The tasks of `s` are still to be done.
pub open spec fn keeps_tasks(s: LoopView, r: LoopView) -> bool {
    s.tasks.len() <= r.tasks.len() && r.tasks.take(s.tasks.len() as int) == s.tasks
}

/// The tasks of `r` that `s` has not are all of a kind.
pub open spec fn adds_only(s: LoopView, r: LoopView, kind: spec_fn(TaskView) -> bool) -> bool {
    forall|i: int| s.tasks.len() <= i < r.tasks.len() ==> kind(#[trigger] r.tasks[i])
}

/// The roots, and what was reported, are as before.
pub open spec fn same_roots(s: LoopView, r: LoopView) -> bool {
    r.table().roots == s.table().roots && r.reading.reports == s.reading.reports
}

/// What got a handle is noted by the arm that has begun.
pub open spec fn notes_handles(s: TableView, r: TableView) -> bool {
    &&& forall|q: Seq<Seq<u8>>| #[trigger]
        r.handles.contains_key(q) ==> s.handles.contains_key(q) || (r.armed is Some
            && r.armed->0.contains(q)) || s.armed is None
    &&& s.armed matches Some(before) ==> (r.armed matches Some(after) && forall|q: Seq<Seq<u8>>|
        before.contains(q) ==> #[trigger] after.contains(q))
}

/// What every step keeps.
pub open spec fn is_sound(s: LoopView, task: TaskView, r: LoopView) -> bool {
    &&& keeps_tasks(s, r)
    &&& s.table().consistent() ==> r.table().consistent()
    &&& is_quiet(task) ==> same_roots(s, r) && adds_only(s, r, |t: TaskView| is_quiet(t))
    &&& is_arming(task) ==> adds_only(s, r, |t: TaskView| is_arming(t)) && notes_handles(
        s.table(),
        r.table(),
    )
}

proof fn lemma_bind(t: TableView, w: i32, p: Seq<Seq<u8>>, mask: u32, is_dir: bool, inode: table::Inode)
    ensures
        notes_handles(t, t.bind(w, p, mask, is_dir, inode)),
{
    let r = t.bind(w, p, mask, is_dir, inode);
    if let Some(before) = t.armed {
        let after = r.armed->0;
        assert(after == before.push(p));
        assert(after[before.len() as int] == p);
        assert forall|q: Seq<Seq<u8>>| before.contains(q) implies #[trigger] after.contains(q) by {
            let i = before.index_of(q);
            assert(after[i] == q);
        }
    }
}

proof fn lemma_unbind(t: TableView, p: Seq<Seq<u8>>)
    ensures
        notes_handles(t, t.unbind(p)),
        forall|q: Seq<Seq<u8>>| #[trigger]
            t.unbind(p).handles.contains_key(q) ==> t.handles.contains_key(q),
        t.unbind(p).armed == t.armed,
        !t.unbind(p).handles.contains_key(p),
{
}

proof fn lemma_bound_to(
    s: LoopView,
    w: i32,
    p: Seq<Seq<u8>>,
    mask: u32,
    is_dir: bool,
    inode: table::Inode,
)
    ensures
        is_sound(s, Task::Heedless, s.bound_to(w, p, mask, is_dir, inode).0),
{
    reveal(LoopView::bound_to);
    let t = s.table();
    if t.consistent() {
        table::unbind_keeps_consistent(t, p);
        if !t.handles.contains_key(p) {
            table::bind_keeps_consistent(t, w, p, mask, is_dir, inode);
        } else {
            table::bind_keeps_consistent(t.unbind(p), w, p, mask, is_dir, inode);
        }
    }
    lemma_unbind(t, p);
    lemma_bind(t, w, p, mask, is_dir, inode);
    lemma_bind(t.unbind(p), w, p, mask, is_dir, inode);
    let r = s.bound_to(w, p, mask, is_dir, inode).0;
    assert(r.tasks.take(s.tasks.len() as int) =~= s.tasks);
}

proof fn lemma_all_vanished(r: ReadingView, roots: Seq<Seq<Seq<u8>>>)
    ensures
        task::all_vanished(r, roots).table.handles == r.table.handles,
        task::all_vanished(r, roots).table.bound == r.table.bound,
    decreases roots.len(),
{
    if roots.len() > 0 {
        lemma_all_vanished(r, roots.drop_last());
    }
}

proof fn lemma_with_mask(t: TableView, p: Seq<Seq<u8>>, mask: u32)
    ensures
        t.consistent() ==> t.with_mask(p, mask).consistent(),
        notes_handles(t, t.with_mask(p, mask)),
{
    if t.consistent() {
        table::with_mask_keeps_consistent(t, p, mask);
    }
    if t.handles.contains_key(p) {
        assert(t.with_mask(p, mask).handles.dom() =~= t.handles.dom());
    }
}

proof fn lemma_handle(s: LoopView, task: TaskView, answer: AnswerView)
    requires
        task::is_handle_task(task),
    ensures
        is_sound(s, task, s.go_on_handle(task, answer).0),
{
    let r = s.go_on_handle(task, answer).0;
    match task {
        Task::Heedless => {
        },
        Task::Fail { .. } => {
        },
        Task::Succeed => {
        },
        Task::Sync { .. } => {
            reveal(LoopView::sync);
        },
        Task::SyncThrough { .. } => {
            reveal(LoopView::sync_through);
        },
        Task::SyncLooked { .. } => {
            reveal(LoopView::sync_looked);
        },
        Task::SyncAdded { .. } => {
            reveal(LoopView::sync_added);
        },
        Task::Add { .. } => {
            reveal(LoopView::add);
        },
        Task::Added { .. } => {
            reveal(LoopView::added);
        },
        Task::Record { w, path, mask } => {
            reveal(LoopView::record);
            lemma_with_mask(s.table(), path, mask);
            if s.table().bound.contains_key(w) {
                lemma_bound_to(
                    s,
                    w,
                    path,
                    mask,
                    s.table().handles[s.table().spellings(w)[0]].is_dir,
                    s.table().bound[w].inode,
                );
            }
        },
        Task::RecordLooked { w, path, mask } => {
            reveal(LoopView::record_looked);
            if let Ok(stat) = answer.stat() {
                lemma_bound_to(s, w, path, mask, stat.is_dir, stat.inode);
            }
        },
        Task::SetMask { path, mask } => {
            reveal(LoopView::set_mask);
            lemma_with_mask(s.table(), path, mask);
        },
        Task::SetMaskAdded { path, mask, w, before, after } => {
            reveal(LoopView::set_mask_added);
            lemma_with_mask(s.table(), path, before);
        },
        Task::RemoveHandle { path } => {
            reveal(LoopView::remove_handle);
            lemma_unbind(s.table(), path);
            if s.table().consistent() {
                table::unbind_keeps_consistent(s.table(), path);
            }
        },
        Task::Release { .. } => {
            reveal(LoopView::release);
        },
        Task::Each { deed, paths } => {
            reveal(LoopView::each);
            if paths.len() > 0 {
                lemma_unbind(s.table(), paths[0]);
                if s.table().consistent() {
                    table::unbind_keeps_consistent(s.table(), paths[0]);
                }
            }
        },
        _ => {},
    }
    assert(r.tasks.take(s.tasks.len() as int) =~= s.tasks);
}

proof fn lemma_arm(s: LoopView, task: TaskView, answer: AnswerView)
    requires
        task::is_arm_task(task),
    ensures
        is_sound(s, task, s.go_on_arm(task, answer).0),
{
    let r = s.go_on_arm(task, answer).0;
    match task {
        Task::Chain { .. } => {
            reveal(LoopView::chain);
        },
        Task::ChainLooked { .. } => {
            reveal(LoopView::chain_looked);
        },
        Task::ChainAdded { .. } => {
            reveal(LoopView::chain_added);
        },
        Task::ArmRoot { .. } => {
            reveal(LoopView::arm_root);
        },
        Task::ArmReached { .. } => {
            reveal(LoopView::arm_reached);
        },
        Task::ArmLooked { .. } => {
            reveal(LoopView::arm_looked);
        },
        Task::ArmAdded { .. } => {
            reveal(LoopView::arm_added);
        },
        Task::Arm { .. } => {
            reveal(LoopView::arm);
        },
        Task::ArmEnded { .. } => {
            reveal(LoopView::arm_ended);
        },
        _ => {},
    }
    assert(r.tasks.take(s.tasks.len() as int) =~= s.tasks);
}

proof fn lemma_walk(s: LoopView, task: TaskView, answer: AnswerView)
    requires
        task::is_walk_task(task),
    ensures
        is_sound(s, task, s.go_on_walk(task, answer).0),
{
    let r = s.go_on_walk(task, answer).0;
    match task {
        Task::Walk { .. } => {
            reveal(LoopView::walk);
        },
        Task::WalkFound { .. } => {
            reveal(LoopView::walk_found);
        },
        Task::WalkAdded { .. } => {
            reveal(LoopView::walk_added);
        },
        Task::Entry { .. } => {
            reveal(LoopView::entry);
        },
        Task::EntryWalked { .. } => {
            reveal(LoopView::entry_walked);
        },
        Task::Bind { .. } => {
            reveal(LoopView::bind);
        },
        Task::Single { .. } => {
            reveal(LoopView::single);
        },
        Task::SingleAdded { .. } => {
            reveal(LoopView::single_added);
        },
        _ => {},
    }
    assert(r.tasks.take(s.tasks.len() as int) =~= s.tasks);
}

proof fn lemma_root(s: LoopView, task: TaskView, answer: AnswerView)
    requires
        task::is_root_task(task),
    ensures
        is_sound(s, task, s.go_on_root(task, answer).0),
{
    let r = s.go_on_root(task, answer).0;
    match task {
        Task::AddRoot { .. } => {
            reveal(LoopView::add_root);
        },
        Task::AddRootArmed { .. } => {
            reveal(LoopView::add_root_armed);
        },
        Task::AddRootLooked { .. } => {
            reveal(LoopView::add_root_looked);
        },
        Task::AddRootAdded { .. } => {
            reveal(LoopView::add_root_added);
        },
        Task::Upgrade { .. } => {
            reveal(LoopView::upgrade);
        },
        Task::UpgradeReached { .. } => {
            reveal(LoopView::upgrade_reached);
        },
        Task::UpgradeLooked { .. } => {
            reveal(LoopView::upgrade_looked);
        },
        Task::UpgradeEnded { .. } => {
            reveal(LoopView::upgrade_ended);
        },
        Task::UpgradeArmed { .. } => {
            reveal(LoopView::upgrade_armed);
        },
        Task::RemoveRoot { .. } => {
            reveal(LoopView::remove_root);
        },
        Task::ReleaseBelow { .. } => {
            reveal(LoopView::release_below);
        },
        Task::ArmAgain { .. } => {
            reveal(LoopView::arm_again);
        },
        _ => {},
    }
    assert(r.tasks.take(s.tasks.len() as int) =~= s.tasks);
}

proof fn lemma_change(s: LoopView, task: TaskView, answer: AnswerView)
    ensures
        is_sound(s, task, s.go_on_change(task, answer).0),
{
    let r = s.go_on_change(task, answer).0;
    match task {
        Task::DropAll { .. } => {
            reveal(LoopView::drop_all);
        },
        Task::Drop { .. } => {
            reveal(LoopView::drop);
        },
        Task::DropRoots { .. } => {
            reveal(LoopView::drop_roots);
        },
        Task::VanishAll { paths } => {
            reveal(LoopView::vanish_all);
            if paths.len() > 0 {
                lemma_all_vanished(
                    s.reading,
                    root::tracked_roots_below(s.table().roots, paths[0], false),
                );
            }
        },
        Task::AddAll { .. } => {
            reveal(LoopView::add_all);
        },
        Task::AddAllEnded { .. } => {
            reveal(LoopView::add_all_ended);
        },
        Task::RearmAll { .. } => {
            reveal(LoopView::rearm_all);
        },
        Task::RearmEach { .. } => {
            reveal(LoopView::rearm_each);
        },
        Task::RearmEnded { .. } => {
            reveal(LoopView::rearm_ended);
        },
        Task::RemoveAll { .. } => {
            reveal(LoopView::remove_all);
        },
        Task::RemoveAllAnswered { .. } => {
            reveal(LoopView::remove_all_answered);
        },
        _ => {},
    }
    assert(r.tasks.take(s.tasks.len() as int) =~= s.tasks);
}

/// What a step keeps, whatever the answer.
proof fn lemma_step(s: LoopView, answer: AnswerView)
    requires
        s.tasks.len() > 0,
    ensures
        is_sound(s.popped(), s.tasks.last(), s.step(answer).0),
{
    let task = s.tasks.last();
    let rest = s.popped();
    if task::is_handle_task(task) {
        lemma_handle(rest, task, answer);
    } else if task::is_arm_task(task) {
        lemma_arm(rest, task, answer);
    } else if task::is_walk_task(task) {
        lemma_walk(rest, task, answer);
    } else if task::is_root_task(task) {
        lemma_root(rest, task, answer);
    } else {
        lemma_change(rest, task, answer);
    }
}

/// Whatever the system answers, the indexes of the handles agree after each step: every path with a
/// handle is a spelling of its descriptor, and every spelling of a descriptor has a handle of it.
pub proof fn step_keeps_consistent(s: LoopView, answer: AnswerView)
    requires
        s.table().consistent(),
    ensures
        s.step(answer).0.table().consistent(),
{
    if s.tasks.len() > 0 {
        lemma_step(s, answer);
    }
}

/// The indexes agree too when what a read asked for is begun.
pub proof fn process_keeps_consistent(s: LoopView)
    requires
        s.table().consistent(),
    ensures
        s.process().table().consistent(),
{
    lemma_all_unbound(s.table(), s.reading.changes.ignored);
}

proof fn lemma_all_unbound(t: TableView, ws: Seq<i32>)
    requires
        t.consistent(),
    ensures
        task::all_unbound(t, ws).consistent(),
    decreases ws.len(),
{
    if ws.len() > 0 {
        lemma_all_unbound(t, ws.drop_last());
        table::unbind_all_keeps_consistent(task::all_unbound(t, ws.drop_last()), ws.last());
    }
}

/// A step leaves the tasks below the one it goes on with for later.
pub proof fn step_keeps_tasks(s: LoopView, answer: AnswerView)
    requires
        s.tasks.len() > 0,
    ensures
        keeps_tasks(s.popped(), s.step(answer).0),
{
    lemma_step(s, answer);
}

/// Where the loop stands after a step for each of the answers.
pub open spec fn run(s: LoopView, answers: Seq<AnswerView>) -> LoopView
    decreases answers.len(),
{
    if answers.len() == 0 {
        s
    } else {
        run(s, answers.drop_last()).step(answers.last()).0
    }
}

/// Whether more than `n` tasks were left before each of the answers.
pub open spec fn is_busy(s: LoopView, answers: Seq<AnswerView>, n: nat) -> bool {
    forall|k: int|
        0 <= k < answers.len() ==> (#[trigger] run(s, answers.take(k))).tasks.len() > n
}

/// Whether the answers are those on which the task that `s` goes on with ends.
pub open spec fn ends(s: LoopView, answers: Seq<AnswerView>) -> bool {
    is_busy(s, answers, s.popped().tasks.len()) && run(s, answers).tasks.len()
        == s.popped().tasks.len()
}

proof fn lemma_busy(s: LoopView, answers: Seq<AnswerView>, n: nat)
    requires
        is_busy(s, answers, n),
        answers.len() > 0,
    ensures
        is_busy(s, answers.drop_last(), n),
        run(s, answers.drop_last()).tasks.len() > n,
{
    let before = answers.drop_last();
    assert(answers.take(answers.len() - 1) =~= before);
    assert forall|k: int| 0 <= k < before.len() implies (#[trigger] run(
        s,
        before.take(k),
    )).tasks.len() > n by {
        assert(before.take(k) =~= answers.take(k));
    }
}

/// All tasks of `x` from the one at `n` on leave the roots alone.
pub open spec fn is_quiet_from(x: LoopView, n: int) -> bool {
    forall|i: int| n <= i < x.tasks.len() ==> is_quiet(#[trigger] x.tasks[i])
}

/// A quiet step on a task above the one at `n`.
proof fn lemma_quiet_step(x: LoopView, n: int, answer: AnswerView)
    requires
        0 <= n < x.tasks.len() - 1,
        is_quiet_from(x, n + 1),
    ensures
        x.step(answer).0.tasks.len() > n,
        x.step(answer).0.tasks.take(n + 1) == x.tasks.take(n + 1),
        same_roots(x, x.step(answer).0),
        is_quiet_from(x.step(answer).0, n + 1),
{
    let r = x.step(answer).0;
    let rest = x.popped();
    lemma_step(x, answer);
    assert(is_quiet(x.tasks[x.tasks.len() - 1]));
    assert(r.tasks.take(n + 1) =~= r.tasks.take(rest.tasks.len() as int).take(n + 1));
    assert(x.tasks.take(n + 1) =~= rest.tasks.take(n + 1));
    assert forall|i: int| n + 1 <= i < r.tasks.len() implies is_quiet(#[trigger] r.tasks[i]) by {
        if i < rest.tasks.len() {
            assert(r.tasks.take(rest.tasks.len() as int)[i] == rest.tasks[i]);
            assert(rest.tasks[i] == x.tasks[i]);
        } else {
            let kind = |t: TaskView| is_quiet(t);
            assert(kind(r.tasks[i]));
        }
    }
}

/// How a watch of the new path `p` goes on: nothing is recorded before it has succeeded.
spec fn is_watching(s: LoopView, p: Seq<Seq<u8>>, mode: WatchMode, x: LoopView) -> bool {
    let n = s.tasks.len() as int;
    if x.tasks.len() <= n {
        &&& x.tasks == s.tasks
        &&& x.reading.reports == s.reading.reports
        &&& (x.outcome is Failed && x.table().roots == s.table().roots) || (x.outcome is Done
            && exists|state|
            x.table().roots == s.table().roots.insert(p, RootWatch { mode, state }))
    } else {
        &&& x.tasks.take(n) == s.tasks
        &&& same_roots(s, x)
        &&& is_quiet_from(x, n + 1)
        &&& match x.tasks[n] {
            Task::AddRoot { path, mode: m } => path == p && m == mode && x.tasks.len() == n + 1,
            Task::AddRootLooked { path, mode: m } => path == p && m == mode && x.tasks.len() == n
                + 1,
            Task::AddRootArmed { path, mode: m } => path == p && m == mode,
            Task::AddRootAdded { path, mode: m, .. } => path == p && m == mode,
            Task::Fail { .. } => true,
            _ => false,
        }
    }
}

proof fn lemma_watching_step(
    s: LoopView,
    p: Seq<Seq<u8>>,
    mode: WatchMode,
    x: LoopView,
    answer: AnswerView,
)
    requires
        is_watching(s, p, mode, x),
        x.tasks.len() > s.tasks.len(),
        !s.table().roots.contains_key(p),
    ensures
        is_watching(s, p, mode, x.step(answer).0),
{
    let n = s.tasks.len() as int;
    let r = x.step(answer).0;
    if x.tasks.len() > n + 1 {
        lemma_quiet_step(x, n, answer);
        assert(r.tasks.take(n) =~= r.tasks.take(n + 1).take(n));
        assert(x.tasks.take(n) =~= x.tasks.take(n + 1).take(n));
        assert(r.tasks[n] == r.tasks.take(n + 1)[n]);
        assert(x.tasks[n] == x.tasks.take(n + 1)[n]);
    } else {
        assert(x.tasks.last() == x.tasks[n]);
        assert(x.popped().tasks =~= s.tasks);
        reveal(LoopView::add_root);
        reveal(LoopView::add_root_looked);
        reveal(LoopView::add_root_armed);
        reveal(LoopView::add_root_added);
        assert(r.tasks.len() >= n ==> r.tasks.take(n) =~= s.tasks);
    }
}

proof fn lemma_watching(
    s: LoopView,
    p: Seq<Seq<u8>>,
    mode: WatchMode,
    answers: Seq<AnswerView>,
)
    requires
        !s.table().roots.contains_key(p),
        is_busy(s.push(Task::AddRoot { path: p, mode }), answers, s.tasks.len()),
    ensures
        is_watching(s, p, mode, run(s.push(Task::AddRoot { path: p, mode }), answers)),
    decreases answers.len(),
{
    let start = s.push(Task::AddRoot { path: p, mode });
    if answers.len() == 0 {
        assert(start.tasks.take(s.tasks.len() as int) =~= s.tasks);
    } else {
        lemma_busy(start, answers, s.tasks.len());
        lemma_watching(s, p, mode, answers.drop_last());
        lemma_watching_step(s, p, mode, run(start, answers.drop_last()), answers.last());
    }
}

/// A path that was not watched is watched in the mode asked for when the watch succeeds, and is not
/// watched when it fails, whatever the system answers. The other roots stay as they are.
pub proof fn watch_is_recorded_or_refused(
    s: LoopView,
    p: Seq<Seq<u8>>,
    mode: WatchMode,
    answers: Seq<AnswerView>,
)
    requires
        !s.table().roots.contains_key(p),
        ends(s.push(Task::AddRoot { path: p, mode }), answers),
    ensures
        ({
            let end = run(s.push(Task::AddRoot { path: p, mode }), answers);
            &&& end.tasks == s.tasks
            &&& end.reading.reports == s.reading.reports
            &&& end.outcome is Failed || end.outcome is Done
            &&& end.outcome is Failed ==> end.table().roots == s.table().roots
            &&& end.outcome is Done ==> exists|state|
                end.table().roots == s.table().roots.insert(p, RootWatch { mode, state })
        }),
{
    assert(s.push(Task::AddRoot { path: p, mode }).popped().tasks =~= s.tasks);
    lemma_watching(s, p, mode, answers);
}

/// How a watch of the path `p`, which is watched already, goes on.
spec fn is_upgrading(s: LoopView, p: Seq<Seq<u8>>, mode: WatchMode, x: LoopView) -> bool {
    let n = s.tasks.len() as int;
    let roots = s.table().roots;
    let both = WatchMode::both(roots[p].mode, mode);
    let upgraded = roots.insert(p, RootWatch { mode: both, ..roots[p] });
    if x.tasks.len() <= n {
        &&& x.tasks == s.tasks
        &&& (x.outcome is Failed && (x.table().roots == roots || x.table().roots == upgraded)) || (
        x.outcome is Done && exists|state|
            x.table().roots == roots.insert(p, RootWatch { mode: both, state }))
    } else {
        &&& x.tasks.take(n) == s.tasks
        &&& is_quiet_from(x, n + 1)
        &&& match x.tasks[n] {
            Task::AddRoot { path, mode: m } => path == p && m == mode && x.tasks.len() == n + 1
                && x.table().roots == roots,
            Task::UpgradeEnded { path, mode: m, .. } => path == p && m == mode && x.table().roots
                == roots,
            Task::UpgradeArmed { path } => path == p && x.table().roots == upgraded,
            Task::Fail { .. } => x.table().roots == roots,
            _ => false,
        }
    }
}

proof fn lemma_upgrading_step(
    s: LoopView,
    p: Seq<Seq<u8>>,
    mode: WatchMode,
    x: LoopView,
    answer: AnswerView,
)
    requires
        is_upgrading(s, p, mode, x),
        x.tasks.len() > s.tasks.len(),
        s.table().roots.contains_key(p),
    ensures
        is_upgrading(s, p, mode, x.step(answer).0),
{
    let n = s.tasks.len() as int;
    let r = x.step(answer).0;
    let roots = s.table().roots;
    let both = WatchMode::both(roots[p].mode, mode);
    if x.tasks.len() > n + 1 {
        lemma_quiet_step(x, n, answer);
        assert(r.tasks.take(n) =~= r.tasks.take(n + 1).take(n));
        assert(x.tasks.take(n) =~= x.tasks.take(n + 1).take(n));
        assert(r.tasks[n] == r.tasks.take(n + 1)[n]);
        assert(x.tasks[n] == x.tasks.take(n + 1)[n]);
    } else {
        assert(x.tasks.last() == x.tasks[n]);
        assert(x.popped().tasks =~= s.tasks);
        reveal(LoopView::add_root);
        reveal(LoopView::upgrade_ended);
        reveal(LoopView::upgrade_armed);
        assert(r.tasks.len() >= n ==> r.tasks.take(n) =~= s.tasks);
        if r.tasks.len() <= n && r.outcome is Done {
            let state = r.table().roots[p].state;
            assert(r.table().roots =~= roots.insert(p, RootWatch { mode: both, state }));
        }
    }
}

proof fn lemma_upgrading(
    s: LoopView,
    p: Seq<Seq<u8>>,
    mode: WatchMode,
    answers: Seq<AnswerView>,
)
    requires
        s.table().roots.contains_key(p),
        is_busy(s.push(Task::AddRoot { path: p, mode }), answers, s.tasks.len()),
    ensures
        is_upgrading(s, p, mode, run(s.push(Task::AddRoot { path: p, mode }), answers)),
    decreases answers.len(),
{
    let start = s.push(Task::AddRoot { path: p, mode });
    if answers.len() == 0 {
        assert(start.tasks.take(s.tasks.len() as int) =~= s.tasks);
    } else {
        lemma_busy(start, answers, s.tasks.len());
        lemma_upgrading(s, p, mode, answers.drop_last());
        lemma_upgrading_step(s, p, mode, run(start, answers.drop_last()), answers.last());
    }
}

/// A path that is watched again is watched in both modes when that succeeds. When it fails, the
/// path stays watched, in its mode or in both, and in the state it was in.
pub proof fn watched_again_is_upgraded(
    s: LoopView,
    p: Seq<Seq<u8>>,
    mode: WatchMode,
    answers: Seq<AnswerView>,
)
    requires
        s.table().roots.contains_key(p),
        ends(s.push(Task::AddRoot { path: p, mode }), answers),
    ensures
        ({
            let end = run(s.push(Task::AddRoot { path: p, mode }), answers);
            let roots = s.table().roots;
            let both = WatchMode::both(roots[p].mode, mode);
            &&& end.tasks == s.tasks
            &&& end.outcome is Failed || end.outcome is Done
            &&& end.outcome is Failed ==> end.table().roots == roots || end.table().roots
                == roots.insert(p, RootWatch { mode: both, ..roots[p] })
            &&& end.outcome is Done ==> exists|state|
                end.table().roots == roots.insert(p, RootWatch { mode: both, state })
        }),
{
    assert(s.push(Task::AddRoot { path: p, mode }).popped().tasks =~= s.tasks);
    lemma_upgrading(s, p, mode, answers);
}

/// How the unwatch of the root `p` goes on.
spec fn is_unwatching(s: LoopView, p: Seq<Seq<u8>>, x: LoopView) -> bool {
    let n = s.tasks.len() as int;
    &&& x.reading.reports == s.reading.reports
    &&& if x.tasks.len() <= n {
        &&& x.tasks == s.tasks
        &&& x.outcome is Done
        &&& x.table().roots == s.table().roots.remove(p)
    } else {
        &&& x.tasks.take(n) == s.tasks
        &&& is_quiet_from(x, n + 1)
        &&& match x.tasks[n] {
            Task::RemoveRoot { path } => path == p && x.tasks.len() == n + 1 && x.table().roots
                == s.table().roots,
            Task::Succeed => x.table().roots == s.table().roots.remove(p),
            _ => false,
        }
    }
}

proof fn lemma_unwatching_step(s: LoopView, p: Seq<Seq<u8>>, x: LoopView, answer: AnswerView)
    requires
        is_unwatching(s, p, x),
        x.tasks.len() > s.tasks.len(),
        s.table().roots.contains_key(p),
    ensures
        is_unwatching(s, p, x.step(answer).0),
{
    let n = s.tasks.len() as int;
    let r = x.step(answer).0;
    if x.tasks.len() > n + 1 {
        lemma_quiet_step(x, n, answer);
        assert(r.tasks.take(n) =~= r.tasks.take(n + 1).take(n));
        assert(x.tasks.take(n) =~= x.tasks.take(n + 1).take(n));
        assert(r.tasks[n] == r.tasks.take(n + 1)[n]);
        assert(x.tasks[n] == x.tasks.take(n + 1)[n]);
    } else {
        assert(x.tasks.last() == x.tasks[n]);
        assert(x.popped().tasks =~= s.tasks);
        reveal(LoopView::remove_root);
        assert(r.tasks.len() >= n ==> r.tasks.take(n) =~= s.tasks);
    }
}

proof fn lemma_unwatching(s: LoopView, p: Seq<Seq<u8>>, answers: Seq<AnswerView>)
    requires
        s.table().roots.contains_key(p),
        is_busy(s.push(Task::RemoveRoot { path: p }), answers, s.tasks.len()),
    ensures
        is_unwatching(s, p, run(s.push(Task::RemoveRoot { path: p }), answers)),
    decreases answers.len(),
{
    let start = s.push(Task::RemoveRoot { path: p });
    if answers.len() == 0 {
        assert(start.tasks.take(s.tasks.len() as int) =~= s.tasks);
    } else {
        lemma_busy(start, answers, s.tasks.len());
        lemma_unwatching(s, p, answers.drop_last());
        lemma_unwatching_step(s, p, run(start, answers.drop_last()), answers.last());
    }
}

/// Once the root is found, the unwatch succeeds and the root is forgotten, whatever the system
/// answers. The other roots stay as they are, and nothing is reported.
pub proof fn unwatch_forgets_root(s: LoopView, p: Seq<Seq<u8>>, answers: Seq<AnswerView>)
    requires
        s.table().roots.contains_key(p),
        ends(s.push(Task::RemoveRoot { path: p }), answers),
    ensures
        ({
            let end = run(s.push(Task::RemoveRoot { path: p }), answers);
            &&& end.tasks == s.tasks
            &&& end.outcome is Done
            &&& end.table().roots == s.table().roots.remove(p)
            &&& end.reading.reports == s.reading.reports
        }),
{
    assert(s.push(Task::RemoveRoot { path: p }).popped().tasks =~= s.tasks);
    lemma_unwatching(s, p, answers);
}

/// Whether a root is at `q`, or a recursive one above it.
pub open spec fn is_needed(roots: Map<Seq<Seq<u8>>, RootWatch>, q: Seq<Seq<u8>>) -> bool {
    roots.contains_key(q) || root::is_below_recursive_root(roots, q)
}

/// Whether there is a handle at the path, or at the directory it is in.
pub open spec fn is_heard(table: TableView, p: Seq<Seq<u8>>) -> bool {
    table.handles.contains_key(p) || (path::has_parent(p) && table.handles.contains_key(
        p.drop_last(),
    ))
}

/// The handles that the roots need stay: every path that had a handle at a root or below a
/// recursive one has it still, and a root that was heard of through its own handle or that of its
/// directory is so still.
pub open spec fn keeps_needed(
    roots: Map<Seq<Seq<u8>>, RootWatch>,
    before: TableView,
    after: TableView,
) -> bool {
    &&& forall|q: Seq<Seq<u8>>|
        before.handles.contains_key(q) && is_needed(roots, q)
            ==> #[trigger] after.handles.contains_key(q)
    &&& forall|r: Seq<Seq<u8>>|
        roots.contains_key(r) && is_heard(before, r) ==> #[trigger] is_heard(after, r)
}

/// Whether a task takes no handle that a root needs.
spec fn is_gentle(table: TableView, task: TaskView) -> bool {
    is_arming(task) && match task {
        Task::Each { deed, .. } => deed == Deed::Release,
        Task::RemoveHandle { path } => !table.is_handle_needed(path),
        Task::SetMask { path, .. } => !table.is_handle_needed(path),
        Task::SetMaskAdded { path, .. } => !table.is_handle_needed(path),
        _ => true,
    }
}

/// What a gentle step keeps.
spec fn is_kept(s: LoopView, task: TaskView, r: LoopView) -> bool {
    is_gentle(s.table(), task) ==> {
        &&& keeps_needed(s.table().roots, s.table(), r.table())
        &&& forall|i: int|
            s.tasks.len() <= i < r.tasks.len() ==> is_gentle(r.table(), #[trigger] r.tasks[i])
    }
}

/// A handle that no root needs is needed by none later.
proof fn lemma_unneeded(before: TableView, after: TableView, q: Seq<Seq<u8>>)
    requires
        after.roots == before.roots,
        keeps_needed(before.roots, before, after),
        !before.is_handle_needed(q),
    ensures
        !after.is_handle_needed(q),
{
    assert forall|r: Seq<Seq<u8>>| #[trigger]
        after.roots.contains_key(r) && path::parent(r) == Some(q) implies after.handles.contains_key(
        r,
    ) by {
        assert(before.roots.contains_key(r));
    }
}

proof fn lemma_kept_handle(s: LoopView, task: TaskView, answer: AnswerView)
    requires
        task::is_handle_task(task),
    ensures
        is_kept(s, task, s.go_on_handle(task, answer).0),
{
    match task {
        Task::Sync { .. } => {
            reveal(LoopView::sync);
        },
        Task::SyncThrough { .. } => {
            reveal(LoopView::sync_through);
        },
        Task::SyncLooked { .. } => {
            reveal(LoopView::sync_looked);
        },
        Task::SyncAdded { .. } => {
            reveal(LoopView::sync_added);
        },
        Task::Add { .. } => {
            reveal(LoopView::add);
        },
        Task::Added { .. } => {
            reveal(LoopView::added);
        },
        Task::Record { .. } => {
            reveal(LoopView::record);
            reveal(LoopView::bound_to);
        },
        Task::RecordLooked { .. } => {
            reveal(LoopView::record_looked);
            reveal(LoopView::bound_to);
        },
        Task::SetMask { .. } => {
            reveal(LoopView::set_mask);
        },
        Task::SetMaskAdded { .. } => {
            reveal(LoopView::set_mask_added);
        },
        Task::RemoveHandle { .. } => {
            reveal(LoopView::remove_handle);
        },
        Task::Release { .. } => {
            reveal(LoopView::release);
        },
        Task::Each { .. } => {
            reveal(LoopView::each);
        },
        _ => {},
    }
}

proof fn lemma_kept_arm(s: LoopView, task: TaskView, answer: AnswerView)
    requires
        task::is_arm_task(task),
    ensures
        is_kept(s, task, s.go_on_arm(task, answer).0),
{
    match task {
        Task::Chain { .. } => {
            reveal(LoopView::chain);
        },
        Task::ChainLooked { .. } => {
            reveal(LoopView::chain_looked);
        },
        Task::ChainAdded { .. } => {
            reveal(LoopView::chain_added);
        },
        Task::ArmRoot { .. } => {
            reveal(LoopView::arm_root);
        },
        Task::ArmReached { .. } => {
            reveal(LoopView::arm_reached);
        },
        Task::ArmLooked { .. } => {
            reveal(LoopView::arm_looked);
        },
        Task::ArmAdded { .. } => {
            reveal(LoopView::arm_added);
        },
        _ => {},
    }
}

proof fn lemma_kept_walk(s: LoopView, task: TaskView, answer: AnswerView)
    requires
        task::is_walk_task(task),
    ensures
        is_kept(s, task, s.go_on_walk(task, answer).0),
{
    match task {
        Task::Walk { .. } => {
            reveal(LoopView::walk);
        },
        Task::WalkFound { .. } => {
            reveal(LoopView::walk_found);
        },
        Task::WalkAdded { .. } => {
            reveal(LoopView::walk_added);
        },
        Task::Entry { .. } => {
            reveal(LoopView::entry);
        },
        Task::EntryWalked { .. } => {
            reveal(LoopView::entry_walked);
        },
        Task::Bind { .. } => {
            reveal(LoopView::bind);
        },
        Task::Single { .. } => {
            reveal(LoopView::single);
        },
        Task::SingleAdded { .. } => {
            reveal(LoopView::single_added);
        },
        _ => {},
    }
}

proof fn lemma_kept_root(s: LoopView, task: TaskView, answer: AnswerView)
    requires
        task::is_root_task(task),
    ensures
        is_kept(s, task, s.go_on_root(task, answer).0),
{
    match task {
        Task::Upgrade { .. } => {
            reveal(LoopView::upgrade);
        },
        Task::UpgradeReached { .. } => {
            reveal(LoopView::upgrade_reached);
        },
        Task::UpgradeLooked { .. } => {
            reveal(LoopView::upgrade_looked);
        },
        Task::ReleaseBelow { .. } => {
            reveal(LoopView::release_below);
        },
        Task::ArmAgain { .. } => {
            reveal(LoopView::arm_again);
        },
        _ => {},
    }
}

proof fn lemma_gentle_step(x: LoopView, n: int, answer: AnswerView)
    requires
        0 <= n < x.tasks.len() - 1,
        forall|i: int|
            n + 1 <= i < x.tasks.len() ==> is_gentle(x.table(), #[trigger] x.tasks[i]),
    ensures
        keeps_needed(x.table().roots, x.table(), x.step(answer).0.table()),
        forall|i: int|
            n + 1 <= i < x.step(answer).0.tasks.len() ==> is_gentle(
                x.step(answer).0.table(),
                #[trigger] x.step(answer).0.tasks[i],
            ),
{
    let r = x.step(answer).0;
    let rest = x.popped();
    let task = x.tasks.last();
    assert(task == x.tasks[x.tasks.len() - 1]);
    lemma_step(x, answer);
    if task::is_handle_task(task) {
        lemma_kept_handle(rest, task, answer);
    } else if task::is_arm_task(task) {
        lemma_kept_arm(rest, task, answer);
    } else if task::is_walk_task(task) {
        lemma_kept_walk(rest, task, answer);
    } else {
        lemma_kept_root(rest, task, answer);
    }
    assert forall|i: int| n + 1 <= i < r.tasks.len() implies is_gentle(
        r.table(),
        #[trigger] r.tasks[i],
    ) by {
        if i < rest.tasks.len() {
            assert(r.tasks.take(rest.tasks.len() as int)[i] == rest.tasks[i]);
            assert(rest.tasks[i] == x.tasks[i]);
            match x.tasks[i] {
                Task::RemoveHandle { path } => lemma_unneeded(x.table(), r.table(), path),
                Task::SetMask { path, .. } => lemma_unneeded(x.table(), r.table(), path),
                Task::SetMaskAdded { path, .. } => lemma_unneeded(x.table(), r.table(), path),
                _ => {},
            }
        }
    }
}

/// How the unwatch of the root `p` treats the handles.
spec fn is_keeping(s: LoopView, p: Seq<Seq<u8>>, x: LoopView) -> bool {
    let n = s.tasks.len() as int;
    let roots = s.table().roots.remove(p);
    &&& keeps_needed(roots, s.table(), x.table())
    &&& x.tasks.len() > n && x.tasks[n] is RemoveRoot ==> x.table() == s.table()
    &&& forall|i: int|
        n + 1 <= i < x.tasks.len() ==> is_gentle(x.table(), #[trigger] x.tasks[i])
}

proof fn lemma_keeping(s: LoopView, p: Seq<Seq<u8>>, answers: Seq<AnswerView>)
    requires
        s.table().roots.contains_key(p),
        is_busy(s.push(Task::RemoveRoot { path: p }), answers, s.tasks.len()),
    ensures
        is_keeping(s, p, run(s.push(Task::RemoveRoot { path: p }), answers)),
    decreases answers.len(),
{
    let start = s.push(Task::RemoveRoot { path: p });
    let n = s.tasks.len() as int;
    let roots = s.table().roots.remove(p);
    if answers.len() > 0 {
        lemma_busy(start, answers, s.tasks.len());
        lemma_keeping(s, p, answers.drop_last());
        lemma_unwatching(s, p, answers.drop_last());
        lemma_unwatching(s, p, answers);
        let x = run(start, answers.drop_last());
        let r = run(start, answers);
        if x.tasks.len() > n + 1 {
            assert(x.tasks[n] is Succeed);
            lemma_gentle_step(x, n, answers.last());
            lemma_quiet_step(x, n, answers.last());
            assert(r.tasks[n] == r.tasks.take(n + 1)[n]);
            assert(x.tasks[n] == x.tasks.take(n + 1)[n]);
        } else {
            assert(x.tasks.last() == x.tasks[n]);
            reveal(LoopView::remove_root);
        }
        assert forall|q: Seq<Seq<u8>>| s.table().handles.contains_key(q) && is_needed(
            roots,
            q,
        ) implies #[trigger] r.table().handles.contains_key(q) by {
            assert(x.table().handles.contains_key(q));
        }
        assert forall|q: Seq<Seq<u8>>| roots.contains_key(q) && is_heard(
            s.table(),
            q,
        ) implies #[trigger] is_heard(r.table(), q) by {
            assert(is_heard(x.table(), q));
        }
    }
}

/// The unwatch of a root keeps every handle at another root and below another recursive one, and
/// every other root is heard of as before, whatever the system answers.
pub proof fn unwatch_keeps_needed_handles(
    s: LoopView,
    p: Seq<Seq<u8>>,
    answers: Seq<AnswerView>,
)
    requires
        s.table().roots.contains_key(p),
        is_busy(s.push(Task::RemoveRoot { path: p }), answers, s.tasks.len()),
    ensures
        keeps_needed(
            s.table().roots.remove(p),
            s.table(),
            run(s.push(Task::RemoveRoot { path: p }), answers).table(),
        ),
{
    lemma_keeping(s, p, answers);
}

/// The unwatch of a path that is not watched is refused at once, and changes nothing.
pub proof fn unknown_path_is_refused(s: LoopView, p: Seq<Seq<u8>>, answer: AnswerView)
    requires
        !s.table().roots.contains_key(p),
    ensures
        s.push(Task::RemoveRoot { path: p }).step(answer).0 == (LoopView {
            outcome: Outcome::Failed(ErrorView::at(ErrorKind::WatchNotFound, p)),
            ..s
        }),
{
    reveal(LoopView::remove_root);
    assert(s.push(Task::RemoveRoot { path: p }).popped() =~= s);
}

/// Once the last path of a descriptor gives its handle up, the system is asked to remove the watch.
pub proof fn last_path_closes_watch(
    s: LoopView,
    p: Seq<Seq<u8>>,
    first: AnswerView,
    second: AnswerView,
)
    requires
        s.table().handles.contains_key(p),
        s.table().spellings(s.table().handles[p].w) == seq![p],
    ensures
        s.push(Task::RemoveHandle { path: p }).step(first).0.step(second).1 == Request::<
            Seq<Seq<u8>>,
        >::Remove(s.table().handles[p].w),
        s.push(Task::RemoveHandle { path: p }).step(first).0.step(second).0.table()
            == s.table().unbind(p),
{
    reveal(LoopView::remove_handle);
    reveal(LoopView::sync);
    reveal_with_fuel(table::without, 2);
    assert(table::without(seq![p], p).len() == 0);
}

/// Whether a task changes the watch of a descriptor, and no handle.
pub open spec fn is_syncing(task: TaskView) -> bool {
    task is Heedless || task is Sync || task is SyncThrough || task is SyncLooked
        || task is SyncAdded
}

proof fn lemma_syncing(s: LoopView, task: TaskView, answer: AnswerView)
    requires
        is_syncing(task),
    ensures
        s.go_on(task, answer).0.table() == s.table(),
        adds_only(s, s.go_on(task, answer).0, |t: TaskView| is_syncing(t)),
{
    match task {
        Task::Sync { .. } => {
            reveal(LoopView::sync);
        },
        Task::SyncThrough { .. } => {
            reveal(LoopView::sync_through);
        },
        Task::SyncLooked { .. } => {
            reveal(LoopView::sync_looked);
        },
        Task::SyncAdded { .. } => {
            reveal(LoopView::sync_added);
        },
        _ => {},
    }
}

proof fn lemma_chosen(
    list: Seq<Seq<Seq<u8>>>,
    wanted: spec_fn(Seq<Seq<u8>>) -> bool,
    q: Seq<Seq<u8>>,
)
    requires
        list.contains(q),
        wanted(q),
    ensures
        path::chosen(list, wanted).contains(q),
    decreases list.len(),
{
    let shorter = list.drop_last();
    let i = list.index_of(q);
    let chosen = path::chosen(list, wanted);
    let before = path::chosen(shorter, wanted);
    if i < shorter.len() {
        assert(shorter[i] == q);
        lemma_chosen(shorter, wanted, q);
        let k = before.index_of(q);
        assert(chosen[k] == q);
    } else {
        assert(list.last() == q);
        assert(chosen[before.len() as int] == q);
    }
}

/// Whether `q` is still to be dropped by the tasks above the one at `n`.
spec fn is_to_drop(x: LoopView, n: int, q: Seq<Seq<u8>>) -> bool {
    ||| x.tasks[n + 1] matches Task::Each { paths, .. } && paths.contains(q)
    ||| x.tasks.len() == n + 3 && (x.tasks[n + 2] matches Task::RemoveHandle { path } && path == q)
}

/// How the rollback of a failed arm goes on: the task at `n` hands the error on.
spec fn is_dropping(s: LoopView, root: Seq<Seq<u8>>, x: LoopView) -> bool {
    let n = s.tasks.len() as int;
    if x.tasks.len() == n + 1 {
        forall|q: Seq<Seq<u8>>| #[trigger]
            x.table().handles.contains_key(q) && path::starts_with(q, root)
                ==> s.table().handles.contains_key(q)
    } else {
        &&& x.tasks[n + 1] matches Task::Each { deed, .. } && deed == Deed::Remove
        &&& forall|i: int|
            n + 2 <= i < x.tasks.len() ==> is_syncing(#[trigger] x.tasks[i]) || (
            x.tasks[i] is RemoveHandle && x.tasks.len() == n + 3)
        &&& forall|q: Seq<Seq<u8>>| #[trigger]
            x.table().handles.contains_key(q) && path::starts_with(q, root)
                ==> s.table().handles.contains_key(q) || is_to_drop(x, n, q)
    }
}

/// How the arm of a root goes on.
spec fn is_rolling(s: LoopView, root: Seq<Seq<u8>>, x: LoopView) -> bool {
    let n = s.tasks.len() as int;
    if x.tasks.len() <= n {
        &&& x.tasks == s.tasks
        &&& x.outcome is Failed ==> forall|q: Seq<Seq<u8>>| #[trigger]
            x.table().handles.contains_key(q) && path::starts_with(q, root)
                ==> s.table().handles.contains_key(q)
    } else {
        &&& x.tasks.take(n) == s.tasks
        &&& match x.tasks[n] {
            Task::Arm { root: r, .. } => r == root && x.tasks.len() == n + 1 && x.table().handles
                == s.table().handles,
            Task::ArmEnded { root: r } => {
                &&& r == root
                &&& forall|i: int| n + 1 <= i < x.tasks.len() ==> is_arming(#[trigger] x.tasks[i])
                &&& x.table().armed is Some
                &&& forall|q: Seq<Seq<u8>>| #[trigger]
                    x.table().handles.contains_key(q) ==> s.table().handles.contains_key(q)
                        || x.table().armed->0.contains(q)
            },
            Task::Fail { .. } => is_dropping(s, root, x),
            _ => false,
        }
    }
}

proof fn lemma_arming_step(s: LoopView, root: Seq<Seq<u8>>, x: LoopView, answer: AnswerView)
    requires
        is_rolling(s, root, x),
        x.tasks.len() > s.tasks.len() + 1,
        x.tasks[s.tasks.len() as int] is ArmEnded,
    ensures
        is_rolling(s, root, x.step(answer).0),
{
    let n = s.tasks.len() as int;
    let r = x.step(answer).0;
    let rest = x.popped();
    lemma_step(x, answer);
    assert(is_arming(x.tasks[x.tasks.len() - 1]));
    assert(r.tasks.take(n) =~= r.tasks.take(rest.tasks.len() as int).take(n));
    assert(x.tasks.take(n) =~= rest.tasks.take(n));
    assert(r.tasks[n] == r.tasks.take(rest.tasks.len() as int)[n]);
    assert(rest.tasks[n] == x.tasks[n]);
    assert forall|i: int| n + 1 <= i < r.tasks.len() implies is_arming(#[trigger] r.tasks[i]) by {
        if i < rest.tasks.len() {
            assert(r.tasks.take(rest.tasks.len() as int)[i] == rest.tasks[i]);
            assert(rest.tasks[i] == x.tasks[i]);
        } else {
            let kind = |t: TaskView| is_arming(t);
            assert(kind(r.tasks[i]));
        }
    }
}

proof fn lemma_dropping_step(s: LoopView, root: Seq<Seq<u8>>, x: LoopView, answer: AnswerView)
    requires
        is_rolling(s, root, x),
        x.tasks.len() > s.tasks.len() + 1,
        x.tasks[s.tasks.len() as int] is Fail,
    ensures
        is_rolling(s, root, x.step(answer).0),
{
    let n = s.tasks.len() as int;
    let r = x.step(answer).0;
    let rest = x.popped();
    let task = x.tasks.last();
    lemma_step(x, answer);
    assert(task == x.tasks[x.tasks.len() - 1]);
    assert(r.tasks.take(n) =~= r.tasks.take(rest.tasks.len() as int).take(n));
    assert(x.tasks.take(n) =~= rest.tasks.take(n));
    assert(r.tasks[n] == r.tasks.take(rest.tasks.len() as int)[n]);
    assert(rest.tasks[n] == x.tasks[n]);
    if x.tasks.len() == n + 2 {
        reveal(LoopView::each);
        let paths = task->Each_paths;
        assert forall|q: Seq<Seq<u8>>| #[trigger]
            r.table().handles.contains_key(q) && path::starts_with(q, root) && paths.len()
                > 0 implies s.table().handles.contains_key(q) || is_to_drop(r, n, q) by {
            assert(x.table().handles.contains_key(q));
            if paths.contains(q) {
                let i = paths.index_of(q);
                if i > 0 {
                    assert(paths.drop_first()[i - 1] == q);
                }
            }
        }
    } else {
        assert(r.tasks[n + 1] == r.tasks.take(rest.tasks.len() as int)[n + 1]);
        assert(rest.tasks[n + 1] == x.tasks[n + 1]);
        reveal(LoopView::remove_handle);
        if is_syncing(task) {
            lemma_syncing(rest, task, answer);
        }
        assert forall|i: int| n + 2 <= i < r.tasks.len() implies is_syncing(#[trigger] r.tasks[i])
            || (r.tasks[i] is RemoveHandle && r.tasks.len() == n + 3) by {
            if i < rest.tasks.len() {
                assert(r.tasks.take(rest.tasks.len() as int)[i] == rest.tasks[i]);
                assert(rest.tasks[i] == x.tasks[i]);
                assert(x.tasks.len() > n + 3);
            } else if is_syncing(task) {
                let kind = |t: TaskView| is_syncing(t);
                assert(kind(r.tasks[i]));
            }
        }
        assert forall|q: Seq<Seq<u8>>| #[trigger]
            r.table().handles.contains_key(q) && path::starts_with(q, root) implies
            s.table().handles.contains_key(q) || is_to_drop(r, n, q) by {
            assert(x.table().handles.contains_key(q));
        }
    }
}

proof fn lemma_rolling_step(s: LoopView, root: Seq<Seq<u8>>, x: LoopView, answer: AnswerView)
    requires
        is_rolling(s, root, x),
        x.tasks.len() > s.tasks.len(),
    ensures
        is_rolling(s, root, x.step(answer).0),
{
    let n = s.tasks.len() as int;
    let r = x.step(answer).0;
    if x.tasks.len() > n + 1 {
        if x.tasks[n] is ArmEnded {
            lemma_arming_step(s, root, x, answer);
        } else {
            lemma_dropping_step(s, root, x, answer);
        }
    } else {
        assert(x.tasks.last() == x.tasks[n]);
        assert(x.popped().tasks =~= s.tasks);
        reveal(LoopView::arm);
        reveal(LoopView::arm_ended);
        assert(r.tasks.len() >= n ==> r.tasks.take(n) =~= s.tasks);
        if x.tasks[n] is ArmEnded && x.outcome is Failed {
            let armed = x.table().armed->0;
            assert forall|q: Seq<Seq<u8>>| #[trigger]
                r.table().handles.contains_key(q) && path::starts_with(q, root) implies
                s.table().handles.contains_key(q) || is_to_drop(r, n, q) by {
                assert(x.table().handles.contains_key(q));
                if armed.contains(q) {
                    lemma_chosen(armed, task::is_at_or_below(root), q);
                }
            }
        }
    }
}

proof fn lemma_rolling(
    s: LoopView,
    root: Seq<Seq<u8>>,
    recursive: bool,
    answers: Seq<AnswerView>,
)
    requires
        is_busy(s.push(Task::Arm { root, recursive }), answers, s.tasks.len()),
    ensures
        is_rolling(s, root, run(s.push(Task::Arm { root, recursive }), answers)),
    decreases answers.len(),
{
    let start = s.push(Task::Arm { root, recursive });
    if answers.len() == 0 {
        assert(start.tasks.take(s.tasks.len() as int) =~= s.tasks);
    } else {
        lemma_busy(start, answers, s.tasks.len());
        lemma_rolling(s, root, recursive, answers.drop_last());
        lemma_rolling_step(s, root, run(start, answers.drop_last()), answers.last());
    }
}

/// The arm of a root that fails halfway leaves no handle at or below the root that was not there
/// before, whatever the system answers.
pub proof fn failed_arm_leaves_no_handle(
    s: LoopView,
    root: Seq<Seq<u8>>,
    recursive: bool,
    answers: Seq<AnswerView>,
    q: Seq<Seq<u8>>,
)
    requires
        ends(s.push(Task::Arm { root, recursive }), answers),
        run(s.push(Task::Arm { root, recursive }), answers).outcome is Failed,
        run(s.push(Task::Arm { root, recursive }), answers).table().handles.contains_key(q),
        path::starts_with(q, root),
    ensures
        s.table().handles.contains_key(q),
{
    assert(s.push(Task::Arm { root, recursive }).popped().tasks =~= s.tasks);
    lemma_rolling(s, root, recursive, answers);
}

/// What a root that was there is reported as once it is out of reach.
pub open spec fn removal(root: Seq<Seq<u8>>, state: RootState) -> ReportView {
    report::told(
        EventKind::Remove(
            if state == RootState::Directory {
                RemoveKind::Folder
            } else {
                RemoveKind::File
            },
        ),
        seq![root],
        None,
    )
}

proof fn lemma_vanished(r: ReadingView, roots: Seq<Seq<Seq<u8>>>, root: Seq<Seq<u8>>)
    requires
        r.table.roots.contains_key(root),
    ensures
        ({
            let after = task::all_vanished(r, roots);
            &&& after.table.roots.contains_key(root)
            &&& !roots.contains(root) ==> after.table.roots[root] == r.table.roots[root]
            &&& roots.contains(root) ==> after.table.roots[root].state == RootState::Missing
            &&& roots.contains(root) ==> after.reports.contains(
                removal(root, r.table.roots[root].state),
            )
        }),
    decreases roots.len(),
{
    if roots.len() > 0 {
        let shorter = roots.drop_last();
        let before = task::all_vanished(r, shorter);
        let after = task::all_vanished(r, roots);
        let report = removal(root, r.table.roots[root].state);
        assert(Seq::<Seq<Seq<u8>>>::empty().push(root) =~= seq![root]);
        lemma_vanished(r, shorter, root);
        assert(roots[roots.len() - 1] == roots.last());
        assert(after.reports[before.reports.len() as int] == after.reports.last());
        if shorter.contains(root) {
            let i = shorter.index_of(root);
            assert(roots[i] == root);
            let k = before.reports.index_of(report);
            assert(after.reports[k] == report);
        } else if roots.contains(root) {
            let i = roots.index_of(root);
            if i < shorter.len() {
                assert(shorter[i] == root);
            }
        }
    }
}

/// What else stays when roots are out of reach.
proof fn lemma_vanished_keeps(
    r: ReadingView,
    roots: Seq<Seq<Seq<u8>>>,
    root: Seq<Seq<u8>>,
    report: ReportView,
)
    requires
        r.table.roots.contains_key(root),
    ensures
        ({
            let after = task::all_vanished(r, roots);
            &&& after.table.roots.dom() == r.table.roots.dom()
            &&& after.table.roots[root].mode == r.table.roots[root].mode
            &&& r.reports.contains(report) ==> after.reports.contains(report)
        }),
    decreases roots.len(),
{
    if roots.len() > 0 {
        let before = task::all_vanished(r, roots.drop_last());
        let after = task::all_vanished(r, roots);
        lemma_vanished_keeps(r, roots.drop_last(), root, report);
        assert(after.table.roots.dom() =~= before.table.roots.dom());
        if before.reports.contains(report) {
            let k = before.reports.index_of(report);
            assert(after.reports[k] == report);
        }
    }
}

/// Whether `root` lies below one of the paths.
pub open spec fn lies_below_one(root: Seq<Seq<u8>>, paths: Seq<Seq<Seq<u8>>>) -> bool {
    exists|i: int|
        0 <= i < paths.len() && path::starts_with(root, #[trigger] paths[i]) && root != paths[i]
}

/// Whether a task lets handles go, and leaves the root alone.
spec fn is_letting_go(task: TaskView, root: Seq<Seq<u8>>) -> bool {
    match task {
        Task::Drop { .. } => true,
        Task::DropRoots { roots, .. } => !roots.contains(root),
        _ => is_quiet(task),
    }
}

/// Whether the root is missing, and was reported removed when it was in the state.
pub open spec fn is_told_missing(x: LoopView, root: Seq<Seq<u8>>, state: RootState) -> bool {
    &&& x.table().roots.contains_key(root)
    &&& x.table().roots[root].state == RootState::Missing
    &&& x.reading.reports.contains(removal(root, state))
}

/// How a tracked root gets out of reach.
spec fn is_vanishing(s: LoopView, root: Seq<Seq<u8>>, x: LoopView) -> bool {
    let n = s.tasks.len() as int;
    let roots = x.table().roots;
    &&& roots.dom().finite() && roots.contains_key(root) && roots[root].mode.tracks_path()
    &&& x.tasks.len() > n ==> x.tasks[n] is VanishAll
    &&& forall|i: int| n < i < x.tasks.len() ==> is_letting_go(#[trigger] x.tasks[i], root)
    &&& is_told_missing(x, root, s.table().roots[root].state) || (roots[root]
        == s.table().roots[root] && x.tasks.len() > n && lies_below_one(
        root,
        x.tasks[n]->VanishAll_paths,
    ))
}

proof fn lemma_vanishing_begins(s: LoopView, root: Seq<Seq<u8>>, x: LoopView, answer: AnswerView)
    requires
        s.table().roots.contains_key(root),
        s.table().roots[root].state != RootState::Missing,
        is_vanishing(s, root, x),
        x.tasks.len() == s.tasks.len() + 1,
    ensures
        is_vanishing(s, root, x.step(answer).0),
{
    let n = s.tasks.len() as int;
    let r = x.step(answer).0;
    let roots = x.table().roots;
    let state = s.table().roots[root].state;
    let paths = x.tasks[n]->VanishAll_paths;
    assert(x.tasks.last() == x.tasks[n]);
    reveal(LoopView::vanish_all);
    if paths.len() > 0 {
        let list = root::tracked_roots_below(roots, paths[0], false);
        lemma_vanished(x.reading, list, root);
        lemma_vanished_keeps(x.reading, list, root, removal(root, state));
        if !is_told_missing(x, root, state) {
            if path::starts_with(root, paths[0]) && root != paths[0] {
                path_map::lemma_listed(roots.dom(), paths[0], root);
                lemma_chosen(
                    path_map::at_and_below(roots.dom(), paths[0]),
                    root::is_tracked_below(roots, paths[0], false),
                    root,
                );
            } else if !list.contains(root) {
                let i = choose|i: int|
                    0 <= i < paths.len() && path::starts_with(root, #[trigger] paths[i]) && root
                        != paths[i];
                assert(paths.drop_first()[i - 1] == paths[i]);
                assert(lies_below_one(root, paths.drop_first()));
            }
        }
    }
}

proof fn lemma_vanishing_step(s: LoopView, root: Seq<Seq<u8>>, x: LoopView, answer: AnswerView)
    requires
        s.table().roots.contains_key(root),
        s.table().roots[root].state != RootState::Missing,
        is_vanishing(s, root, x),
        x.tasks.len() > s.tasks.len(),
    ensures
        is_vanishing(s, root, x.step(answer).0),
{
    let n = s.tasks.len() as int;
    let r = x.step(answer).0;
    let rest = x.popped();
    let task = x.tasks.last();
    let state = s.table().roots[root].state;
    if x.tasks.len() == n + 1 {
        lemma_vanishing_begins(s, root, x, answer);
    } else {
        assert(task == x.tasks[x.tasks.len() - 1]);
        lemma_step(x, answer);
        assert forall|i: int| 0 <= i < rest.tasks.len() implies #[trigger] r.tasks[i]
            == x.tasks[i] by {
            assert(r.tasks[i] == r.tasks.take(rest.tasks.len() as int)[i]);
        }
        match task {
            Task::Drop { path, .. } => {
                reveal(LoopView::drop);
                let table = x.table();
                let list = task::no_track_roots(table, path);
                lemma_chosen_wanted(
                    path_map::at_and_below(table.roots.dom(), path),
                    task::is_no_track(table),
                );
                if list.contains(root) {
                    let k = list.index_of(root);
                    assert(task::is_no_track(table)(list[k]));
                }
            },
            Task::DropRoots { roots, .. } => {
                reveal(LoopView::drop_roots);
                if roots.len() > 0 {
                    let others = roots.drop_first();
                    assert(roots[0] != root);
                    if others.contains(root) {
                        let k = others.index_of(root);
                        assert(roots[k + 1] == root);
                    }
                    let report = removal(root, state);
                    if x.reading.reports.contains(report) {
                        let k = x.reading.reports.index_of(report);
                        assert(r.reading.reports[k] == report);
                    }
                }
            },
            _ => {
                let kind = |t: TaskView| is_quiet(t);
                assert forall|i: int| rest.tasks.len() <= i < r.tasks.len() implies is_quiet(
                    #[trigger] r.tasks[i],
                ) by {
                    assert(kind(r.tasks[i]));
                }
            },
        }
    }
}

proof fn lemma_vanishing(
    s: LoopView,
    paths: Seq<Seq<Seq<u8>>>,
    root: Seq<Seq<u8>>,
    answers: Seq<AnswerView>,
)
    requires
        s.table().roots.dom().finite(),
        s.table().roots.contains_key(root),
        s.table().roots[root].mode.tracks_path(),
        s.table().roots[root].state != RootState::Missing,
        lies_below_one(root, paths),
        is_busy(s.push(Task::VanishAll { paths }), answers, s.tasks.len()),
    ensures
        is_vanishing(s, root, run(s.push(Task::VanishAll { paths }), answers)),
    decreases answers.len(),
{
    let start = s.push(Task::VanishAll { paths });
    if answers.len() > 0 {
        lemma_busy(start, answers, s.tasks.len());
        lemma_vanishing(s, paths, root, answers.drop_last());
        lemma_vanishing_step(s, root, run(start, answers.drop_last()), answers.last());
    }
}

/// Once ancestors went in a read, every tracked root below one of them that was there is reported
/// removed, and is missing, whatever the system answers.
pub proof fn roots_below_gone_ancestor_are_reported(
    s: LoopView,
    paths: Seq<Seq<Seq<u8>>>,
    root: Seq<Seq<u8>>,
    answers: Seq<AnswerView>,
)
    requires
        s.table().roots.dom().finite(),
        s.table().roots.contains_key(root),
        s.table().roots[root].mode.tracks_path(),
        s.table().roots[root].state != RootState::Missing,
        lies_below_one(root, paths),
        ends(s.push(Task::VanishAll { paths }), answers),
    ensures
        is_told_missing(
            run(s.push(Task::VanishAll { paths }), answers),
            root,
            s.table().roots[root].state,
        ),
{
    assert(s.push(Task::VanishAll { paths }).popped().tasks =~= s.tasks);
    lemma_vanishing(s, paths, root, answers);
}

/// A missing root that an arm found there is recorded and reported created; one that could not be
/// armed is reported with an error that names it, and stays missing.
pub proof fn armed_root_is_reported(
    s: LoopView,
    root: Seq<Seq<u8>>,
    roots: Seq<Seq<Seq<u8>>>,
    answer: AnswerView,
)
    requires
        s.table().roots.contains_key(root),
        s.outcome is Failed || s.outcome is Armed,
    ensures
        ({
            let r = s.push(Task::RearmEnded { root, roots }).step(answer).0;
            match s.outcome {
                Outcome::Failed(error) => {
                    &&& r.table() == s.table()
                    &&& r.reading.reports.len() == s.reading.reports.len() + 1
                    &&& r.reading.reports.last() matches ReportView::Error(told) && told.kind
                        == error.kind && told.paths.contains(root)
                },
                Outcome::Armed(state) => if state == RootState::Missing {
                    r.reading == s.reading
                } else {
                    r.reading == ReadingView {
                        table: TableView {
                            roots: s.table().roots.insert(
                                root,
                                RootWatch { mode: s.table().roots[root].mode, state },
                            ),
                            ..s.table()
                        },
                        reports: s.reading.reports.push(
                            report::told(
                                EventKind::Create(
                                    if state == RootState::Directory {
                                        CreateKind::Folder
                                    } else {
                                        CreateKind::File
                                    },
                                ),
                                seq![root],
                                None,
                            ),
                        ),
                        ..s.reading
                    }
                },
                _ => true,
            }
        }),
{
    reveal(LoopView::rearm_ended);
    assert(Seq::<Seq<Seq<u8>>>::empty().push(root) =~= seq![root]);
    if let Outcome::Failed(error) = s.outcome {
        let named = error.with_path(root);
        assert(named.paths[error.paths.len() as int] == root);
    }
}

/// Whether there is a handle at `q` that asks for `mask`, and maybe for more.
pub open spec fn holds(table: TableView, q: Seq<Seq<u8>>, mask: u32) -> bool {
    table.handles.contains_key(q) && mask::has(table.handles[q].mask, mask)
}

/// Every handle is still there, and asks for no less.
pub open spec fn widens(before: TableView, after: TableView) -> bool {
    forall|q: Seq<Seq<u8>>| #[trigger]
        before.handles.contains_key(q) ==> holds(after, q, before.handles[q].mask)
}

proof fn lemma_has(a: u32, b: u32, c: u32)
    ensures
        mask::has(a, a),
        mask::has(a | b, a),
        mask::has(a | b, b),
        mask::has(a, b) && mask::has(b, c) ==> mask::has(a, c),
{
    assert(a & a == a && (a | b) & a == a && (a | b) & b == b && (a & b == b && b & c == c ==> a & c
        == c)) by (bit_vector);
}

proof fn lemma_widens(a: TableView, b: TableView, c: TableView)
    ensures
        widens(a, a),
        widens(a, b) && widens(b, c) ==> widens(a, c),
{
    assert forall|q: Seq<Seq<u8>>| #[trigger] a.handles.contains_key(q) implies holds(
        a,
        q,
        a.handles[q].mask,
    ) by {
        lemma_has(a.handles[q].mask, 0, 0);
    }
    if widens(a, b) && widens(b, c) {
        assert forall|q: Seq<Seq<u8>>| #[trigger] a.handles.contains_key(q) implies holds(
            c,
            q,
            a.handles[q].mask,
        ) by {
            assert(b.handles.contains_key(q));
            lemma_has(c.handles[q].mask, b.handles[q].mask, a.handles[q].mask);
        }
    }
}

proof fn lemma_holds(a: TableView, b: TableView, q: Seq<Seq<u8>>, mask: u32)
    requires
        widens(a, b),
        holds(a, q, mask),
    ensures
        holds(b, q, mask),
{
    assert(b.handles.contains_key(q));
    lemma_has(b.handles[q].mask, a.handles[q].mask, mask);
}

/// Whether a task takes no handle, nor narrows one.
spec fn is_widening(table: TableView, task: TaskView) -> bool {
    match task {
        Task::Fail { .. } => true,
        Task::Add { .. } => true,
        Task::Added { path, mask } => table.handles.contains_key(path) ==> mask::has(
            mask,
            table.handles[path].mask,
        ),
        Task::Record { path, mask, .. } => table.handles.contains_key(path) ==> mask::has(
            mask,
            table.handles[path].mask,
        ),
        Task::RecordLooked { path, mask, .. } => table.handles.contains_key(path) ==> mask::has(
            mask,
            table.handles[path].mask,
        ),
        Task::Walk { .. } => true,
        Task::WalkFound { .. } => true,
        Task::WalkAdded { .. } => true,
        _ => is_syncing(task),
    }
}

/// Whether a task waits for the one above it only.
spec fn is_waiting(task: TaskView) -> bool {
    task is Fail || task is WalkAdded || is_syncing(task)
}

/// The tasks from the one at `n` on take no handle, nor narrow one.
spec fn are_widening(x: LoopView, n: int) -> bool {
    &&& forall|i: int| n <= i < x.tasks.len() - 1 ==> is_waiting(#[trigger] x.tasks[i])
    &&& x.tasks.len() > n ==> is_widening(x.table(), x.tasks.last())
}

proof fn lemma_bound_widens(
    s: LoopView,
    w: i32,
    p: Seq<Seq<u8>>,
    mask: u32,
    is_dir: bool,
    inode: table::Inode,
)
    requires
        s.table().handles.contains_key(p) ==> mask::has(mask, s.table().handles[p].mask),
    ensures
        widens(s.table(), s.bound_to(w, p, mask, is_dir, inode).0.table()),
        holds(s.bound_to(w, p, mask, is_dir, inode).0.table(), p, mask),
{
    reveal(LoopView::bound_to);
    let t = s.table();
    let r = s.bound_to(w, p, mask, is_dir, inode).0.table();
    lemma_has(mask, 0, 0);
    assert forall|q: Seq<Seq<u8>>| #[trigger] t.handles.contains_key(q) implies holds(
        r,
        q,
        t.handles[q].mask,
    ) by {
        lemma_has(t.handles[q].mask, 0, 0);
    }
}

proof fn lemma_widening_task(s: LoopView, task: TaskView, answer: AnswerView)
    requires
        is_widening(s.table(), task),
    ensures
        widens(s.table(), s.go_on(task, answer).0.table()),
        forall|i: int|
            s.tasks.len() <= i < s.go_on(task, answer).0.tasks.len() - 1 ==> is_waiting(
                #[trigger] s.go_on(task, answer).0.tasks[i],
            ),
        s.go_on(task, answer).0.tasks.len() > s.tasks.len() ==> is_widening(
            s.go_on(task, answer).0.table(),
            s.go_on(task, answer).0.tasks.last(),
        ),
{
    let t = s.table();
    let r = s.go_on(task, answer).0;
    lemma_widens(t, t, t);
    if is_syncing(task) {
        lemma_syncing(s, task, answer);
        let kind = |t: TaskView| is_syncing(t);
        assert forall|i: int| s.tasks.len() <= i < r.tasks.len() implies is_syncing(
            #[trigger] r.tasks[i],
        ) by {
            assert(kind(r.tasks[i]));
        }
        if r.tasks.len() > s.tasks.len() {
            assert(is_syncing(r.tasks[r.tasks.len() - 1]));
        }
    } else {
        match task {
            Task::Add { path, mask, .. } => {
                reveal(LoopView::add);
                if t.handles.contains_key(path) {
                    lemma_has(t.handles[path].mask, mask, 0);
                }
            },
            Task::Added { .. } => {
                reveal(LoopView::added);
            },
            Task::Record { w, path, mask } => {
                reveal(LoopView::record);
                lemma_has(mask, 0, 0);
                if t.handle_at(path) matches Some(handle) && handle.w == w {
                    assert forall|q: Seq<Seq<u8>>| #[trigger] t.handles.contains_key(q) implies holds(
                        r.table(),
                        q,
                        t.handles[q].mask,
                    ) by {
                        lemma_has(t.handles[q].mask, 0, 0);
                    }
                } else if t.bound.contains_key(w) {
                    let is_dir = t.handles[t.spellings(w)[0]].is_dir;
                    reveal(LoopView::bound_to);
                    lemma_bound_widens(s, w, path, mask, is_dir, t.bound[w].inode);
                }
            },
            Task::RecordLooked { w, path, mask } => {
                reveal(LoopView::record_looked);
                if let Ok(stat) = answer.stat() {
                    reveal(LoopView::bound_to);
                    lemma_bound_widens(s, w, path, mask, stat.is_dir, stat.inode);
                }
            },
            Task::Walk { .. } => {
                reveal(LoopView::walk);
            },
            Task::WalkFound { .. } => {
                reveal(LoopView::walk_found);
            },
            Task::WalkAdded { .. } => {
                reveal(LoopView::walk_added);
            },
            _ => {},
        }
    }
}

proof fn lemma_widening_step(x: LoopView, n: int, answer: AnswerView)
    requires
        0 <= n < x.tasks.len(),
        are_widening(x, n),
    ensures
        are_widening(x.step(answer).0, n),
        widens(x.table(), x.step(answer).0.table()),
        x.step(answer).0.tasks.len() >= n,
        x.step(answer).0.tasks.take(n) == x.tasks.take(n),
{
    let r = x.step(answer).0;
    let rest = x.popped();
    lemma_step(x, answer);
    lemma_widening_task(rest, x.tasks.last(), answer);
    assert(r.tasks.take(n) =~= r.tasks.take(rest.tasks.len() as int).take(n));
    assert(x.tasks.take(n) =~= rest.tasks.take(n));
    assert forall|i: int| 0 <= i < rest.tasks.len() implies #[trigger] r.tasks[i] == x.tasks[i] by {
        assert(r.tasks[i] == r.tasks.take(rest.tasks.len() as int)[i]);
    }
    if r.tasks.len() > n {
        assert(r.tasks.last() == r.tasks[r.tasks.len() - 1]);
        if r.tasks.len() == rest.tasks.len() {
            assert(is_waiting(x.tasks[r.tasks.len() - 1]));
        }
    }
}

/// Whether the directory that `q` is in is watched for everything.
pub open spec fn is_seen(table: TableView, q: Seq<Seq<u8>>) -> bool {
    path::has_parent(q) && holds(table, q.drop_last(), FULL_MASK)
}

/// How a handle at `q` for `wanted` is got by the task at `n`, and what comes of it. With `single`,
/// the directory that `q` is in may see it instead.
spec fn is_adding(x: LoopView, n: int, q: Seq<Seq<u8>>, wanted: u32, single: bool) -> bool {
    &&& are_widening(x, n)
    &&& forall|i: int| n < i < x.tasks.len() ==> is_syncing(#[trigger] x.tasks[i])
    &&& if x.tasks.len() <= n {
        &&& x.tasks.len() == n
        &&& x.outcome is Failed || holds(x.table(), q, wanted) || (single && is_seen(x.table(), q))
    } else {
        match x.tasks[n] {
            Task::Add { path, mask, is_file_without_hardlinks } => {
                &&& path == q && mask == wanted && x.tasks.len() == n + 1
                &&& is_file_without_hardlinks ==> single
            },
            Task::Added { path, mask } => path == q && mask::has(mask, wanted) && x.tasks.len() == n
                + 1,
            Task::Record { path, mask, .. } => path == q && mask::has(mask, wanted)
                && x.tasks.len() == n + 1,
            Task::RecordLooked { path, mask, .. } => path == q && mask::has(mask, wanted)
                && x.tasks.len() == n + 1,
            Task::Fail { .. } => true,
            _ => is_syncing(x.tasks[n]) && holds(x.table(), q, wanted),
        }
    }
}

/// What is answered to an add while inotify is open.
pub open spec fn is_answered(x: LoopView, answer: AnswerView) -> bool {
    x.tasks.len() > 0 && x.tasks.last() is Added ==> answer.added() is Some
}

proof fn lemma_adding_step(
    x: LoopView,
    n: int,
    q: Seq<Seq<u8>>,
    wanted: u32,
    single: bool,
    answer: AnswerView,
)
    requires
        n >= 0,
        is_adding(x, n, q, wanted, single),
        x.tasks.len() > n,
        is_answered(x, answer),
    ensures
        is_adding(x.step(answer).0, n, q, wanted, single),
        widens(x.table(), x.step(answer).0.table()),
        x.step(answer).0.tasks.len() >= n,
        x.step(answer).0.tasks.take(n) == x.tasks.take(n),
{
    let r = x.step(answer).0;
    let t = x.table();
    lemma_widening_step(x, n, answer);
    if x.tasks.len() > n + 1 {
        let rest = x.popped();
        assert(is_waiting(x.tasks[n]));
        lemma_step(x, answer);
        assert(r.tasks[n] == r.tasks.take(rest.tasks.len() as int)[n]);
        assert(rest.tasks[n] == x.tasks[n]);
        assert(is_syncing(x.tasks[x.tasks.len() - 1]));
        lemma_syncing(rest, x.tasks.last(), answer);
        let kind = |t: TaskView| is_syncing(t);
        assert forall|i: int| n < i < r.tasks.len() implies is_syncing(#[trigger] r.tasks[i]) by {
            if i < rest.tasks.len() {
                assert(r.tasks[i] == r.tasks.take(rest.tasks.len() as int)[i]);
                assert(rest.tasks[i] == x.tasks[i]);
            } else {
                assert(kind(r.tasks[i]));
            }
        }
        if !(x.tasks[n] is Fail) {
            lemma_holds(t, r.table(), q, wanted);
        }
    } else {
        assert(x.tasks.last() == x.tasks[n]);
        match x.tasks[n] {
            Task::Add { path, mask, .. } => {
                reveal(LoopView::add);
                if t.handles.contains_key(q) {
                    lemma_has(t.handles[q].mask, wanted, 0);
                } else {
                    lemma_has(wanted, 0, 0);
                }
            },
            Task::Added { .. } => {
                reveal(LoopView::added);
            },
            Task::Record { w, path, mask } => {
                reveal(LoopView::record);
                lemma_has(mask, wanted, 0);
                if !(t.handle_at(path) matches Some(handle) && handle.w == w)
                    && t.bound.contains_key(w) {
                    let is_dir = t.handles[t.spellings(w)[0]].is_dir;
                    reveal(LoopView::bound_to);
                    lemma_bound_widens(x.popped(), w, path, mask, is_dir, t.bound[w].inode);
                    lemma_has(r.table().handles[q].mask, mask, wanted);
                }
            },
            Task::RecordLooked { w, path, mask } => {
                reveal(LoopView::record_looked);
                if let Ok(stat) = answer.stat() {
                    reveal(LoopView::bound_to);
                    lemma_bound_widens(x.popped(), w, path, mask, stat.is_dir, stat.inode);
                    lemma_has(r.table().handles[q].mask, mask, wanted);
                }
            },
            Task::Fail { .. } => {},
            _ => {
                lemma_holds(t, r.table(), q, wanted);
                lemma_syncing(x.popped(), x.tasks[n], answer);
                let kind = |t: TaskView| is_syncing(t);
                assert forall|i: int| n <= i < r.tasks.len() implies is_syncing(
                    #[trigger] r.tasks[i],
                ) by {
                    assert(kind(r.tasks[i]));
                }
            },
        }
    }
}

/// What the ancestor of `root` with `k` components is watched for.
spec fn chain_mask(root: Seq<Seq<u8>>, k: int) -> u32 {
    if k + 1 == root.len() {
        FULL_MASK
    } else {
        ENTRY_MASK
    }
}

/// Whether the directory that `root` is in is watched for everything, if it is in one.
pub open spec fn is_linked(table: TableView, root: Seq<Seq<u8>>) -> bool {
    path::has_parent(root) ==> is_seen(table, root)
}

proof fn lemma_linked(a: TableView, b: TableView, root: Seq<Seq<u8>>)
    requires
        widens(a, b),
        is_linked(a, root),
    ensures
        is_linked(b, root),
{
    if path::has_parent(root) {
        lemma_holds(a, b, root.drop_last(), FULL_MASK);
    }
}

/// How the ancestors of `root` are watched by the task at `n`, and what comes of it.
spec fn is_chaining(x: LoopView, n: int, root: Seq<Seq<u8>>) -> bool {
    if x.tasks.len() <= n {
        &&& x.tasks.len() == n
        &&& x.outcome is Failed || (x.outcome matches Outcome::Reached(reached) && (reached
            ==> is_linked(x.table(), root)))
    } else {
        match x.tasks[n] {
            Task::Chain { root: r, n: k } => {
                &&& r == root && x.tasks.len() == n + 1
                &&& path::floor(root) <= k <= root.len()
                &&& k == root.len() ==> is_linked(x.table(), root)
            },
            Task::ChainLooked { root: r, n: k } => {
                &&& r == root && x.tasks.len() == n + 1
                &&& path::floor(root) <= k < root.len()
            },
            Task::ChainAdded { root: r, n: k } => {
                &&& r == root && path::floor(root) <= k < root.len()
                &&& is_adding(x, n + 1, root.take(k as int), chain_mask(root, k as int), false)
            },
            _ => false,
        }
    }
}

/// A walk of the directories at and below a path, as the system answered it.
#[verifier::ext_equal]
pub struct Walk {
    pub path: Seq<Seq<u8>>,
    /// The directories that were named.
    pub dirs: Seq<Seq<Seq<u8>>>,
    /// Whether there is no other one.
    pub over: bool,
}

/// The walks, with the one that a step asks for, or with what was answered to the last one.
pub open spec fn followed(walks: Seq<Walk>, x: LoopView, answer: AnswerView) -> Seq<Walk> {
    if let Request::Walk(p) = x.step(answer).1 {
        walks.push(Walk { path: p, dirs: Seq::empty(), over: false })
    } else if walks.len() > 0 && x.tasks.len() > 0 && x.tasks.last() is WalkFound {
        let walk = walks.last();
        walks.drop_last().push(
            match answer.entry() {
                Some(dir) => Walk { dirs: walk.dirs.push(dir), ..walk },
                None => Walk { over: true, ..walk },
            },
        )
    } else {
        walks
    }
}

/// The walks that were asked for on the answers, and what was answered to them.
pub open spec fn walks(s: LoopView, answers: Seq<AnswerView>) -> Seq<Walk>
    decreases answers.len(),
{
    if answers.len() == 0 {
        Seq::empty()
    } else {
        followed(walks(s, answers.drop_last()), run(s, answers.drop_last()), answers.last())
    }
}

/// Whether every directory that the walk named is watched for everything, and the first one for its
/// own removal too with `watch_self`.
pub open spec fn is_held(table: TableView, dirs: Seq<Seq<Seq<u8>>>, watch_self: bool) -> bool {
    forall|i: int|
        0 <= i < dirs.len() ==> holds(
            table,
            #[trigger] dirs[i],
            task::everything(watch_self && i == 0),
        )
}

/// Whether the last walk is that of `root`, went on until no directory was left, and every
/// directory it named is watched.
pub open spec fn is_walked(
    table: TableView,
    walks: Seq<Walk>,
    root: Seq<Seq<u8>>,
    watch_self: bool,
) -> bool {
    &&& walks.len() > 0
    &&& walks.last().path == root
    &&& walks.last().over
    &&& is_held(table, walks.last().dirs, watch_self)
}

proof fn lemma_held(a: TableView, b: TableView, dirs: Seq<Seq<Seq<u8>>>, watch_self: bool)
    requires
        widens(a, b),
        is_held(a, dirs, watch_self),
    ensures
        is_held(b, dirs, watch_self),
{
    assert forall|i: int| 0 <= i < dirs.len() implies holds(
        b,
        #[trigger] dirs[i],
        task::everything(watch_self && i == 0),
    ) by {
        lemma_holds(a, b, dirs[i], task::everything(watch_self && i == 0));
    }
}

/// How the directories at and below `root` are watched by the task at `n`, and what comes of it.
spec fn is_walking(
    x: LoopView,
    n: int,
    root: Seq<Seq<u8>>,
    watch_self: bool,
    walks: Seq<Walk>,
) -> bool {
    let walk = walks.last();
    &&& are_widening(x, n)
    &&& if x.tasks.len() <= n {
        &&& x.tasks.len() == n
        &&& walks.len() > 0 && walk.path == root
        &&& is_held(x.table(), x.walked, watch_self)
        &&& if x.outcome is Failed {
            walk.dirs.len() > 0 && x.walked == walk.dirs.drop_last()
        } else {
            walk.over && x.walked == walk.dirs
        }
    } else {
        match x.tasks[n] {
            Task::Walk { path, watch_self: v } => path == root && v == watch_self && x.tasks.len()
                == n + 1,
            Task::WalkFound { watch_self: v, dirs } => {
                &&& x.tasks.len() == n + 1
                &&& walks.len() > 0 && walk.path == root
                &&& walk.dirs == dirs && is_held(x.table(), dirs, watch_self)
                &&& v == (watch_self && dirs.len() == 0)
            },
            Task::WalkAdded { dir, dirs } => {
                &&& walks.len() > 0 && walk.path == root
                &&& walk.dirs == dirs.push(dir) && is_held(x.table(), dirs, watch_self)
                &&& is_adding(
                    x,
                    n + 1,
                    dir,
                    task::everything(watch_self && dirs.len() == 0),
                    false,
                )
            },
            _ => false,
        }
    }
}

proof fn lemma_walking_step(
    x: LoopView,
    n: int,
    root: Seq<Seq<u8>>,
    watch_self: bool,
    walks: Seq<Walk>,
    answer: AnswerView,
)
    requires
        n >= 0,
        is_walking(x, n, root, watch_self, walks),
        x.tasks.len() > n,
        is_answered(x, answer),
    ensures
        is_walking(x.step(answer).0, n, root, watch_self, followed(walks, x, answer)),
        widens(x.table(), x.step(answer).0.table()),
        x.step(answer).0.tasks.len() >= n,
        x.step(answer).0.tasks.take(n) == x.tasks.take(n),
{
    let r = x.step(answer).0;
    lemma_widening_step(x, n, answer);
    if x.tasks.len() > n + 1 {
        let dir = x.tasks[n]->WalkAdded_dir;
        let dirs = x.tasks[n]->WalkAdded_dirs;
        let wanted = task::everything(watch_self && dirs.len() == 0);
        lemma_adding_step(x, n + 1, dir, wanted, false, answer);
        lemma_held(x.table(), r.table(), dirs, watch_self);
        if x.tasks.len() > n + 2 {
            assert(is_syncing(x.tasks[x.tasks.len() - 1]));
        }
        lemma_asks_no_walk(x, answer);
        assert(r.tasks[n] == r.tasks.take(n + 1)[n]);
        assert(x.tasks[n] == x.tasks.take(n + 1)[n]);
    } else {
        assert(x.tasks.last() == x.tasks[n]);
        assert(x.popped().tasks =~= x.tasks.take(n));
        match x.tasks[n] {
            Task::Walk { .. } => {
                reveal(LoopView::walk);
            },
            Task::WalkFound { dirs, .. } => {
                reveal(LoopView::walk_found);
            },
            Task::WalkAdded { dir, dirs } => {
                reveal(LoopView::walk_added);
                assert(dirs.push(dir).drop_last() =~= dirs);
                if !(x.outcome is Failed) {
                    let all = dirs.push(dir);
                    assert forall|i: int| 0 <= i < all.len() implies holds(
                        x.table(),
                        #[trigger] all[i],
                        task::everything(watch_self && i == 0),
                    ) by {
                        if i < dirs.len() {
                            assert(all[i] == dirs[i]);
                        }
                    }
                }
            },
            _ => {},
        }
    }
}

/// A step that adds a handle asks for no walk.
proof fn lemma_asks_no_walk(x: LoopView, answer: AnswerView)
    requires
        x.tasks.len() > 0,
        is_widening(x.table(), x.tasks.last()) && !(x.tasks.last() is Walk),
    ensures
        !(x.step(answer).1 is Walk),
{
    reveal(LoopView::sync);
    reveal(LoopView::sync_through);
    reveal(LoopView::sync_looked);
    reveal(LoopView::sync_added);
    reveal(LoopView::add);
    reveal(LoopView::added);
    reveal(LoopView::record);
    reveal(LoopView::record_looked);
    reveal(LoopView::bound_to);
    reveal(LoopView::walk_found);
    reveal(LoopView::walk_added);
}

/// How the root itself is watched by the task at `n`, and what comes of it.
spec fn is_covering(
    x: LoopView,
    n: int,
    root: Seq<Seq<u8>>,
    watch_self: bool,
    recursive: bool,
    state: RootState,
    walks: Seq<Walk>,
) -> bool {
    if recursive && state == RootState::Directory {
        is_walking(x, n, root, watch_self, walks)
    } else {
        is_adding(x, n, root, task::everything(watch_self), true)
    }
}

/// Whether what a root is reported through is watched, if the root is there: the root itself or the
/// directory it is in, and that directory in any case if the root is tracked; of a tree that is
/// watched recursively, every directory that the walk of it named.
pub open spec fn is_set_up(
    table: TableView,
    walks: Seq<Walk>,
    root: Seq<Seq<u8>>,
    tracks: bool,
    recursive: bool,
    state: RootState,
) -> bool {
    state != RootState::Missing ==> {
        &&& tracks ==> is_linked(table, root)
        &&& if recursive && state == RootState::Directory {
            is_walked(table, walks, root, !tracks)
        } else {
            holds(table, root, task::everything(!tracks)) || is_seen(table, root)
        }
    }
}

/// What comes of the arm of a root: what it is reported through is watched.
pub open spec fn is_armed(
    x: LoopView,
    walks: Seq<Walk>,
    root: Seq<Seq<u8>>,
    recursive: bool,
) -> bool {
    match x.outcome {
        Outcome::Failed(_) => true,
        Outcome::Armed(state) => is_set_up(x.table(), walks, root, true, recursive, state),
        _ => false,
    }
}

/// How the arm of a root goes on.
spec fn is_arm(
    s: LoopView,
    root: Seq<Seq<u8>>,
    recursive: bool,
    x: LoopView,
    walks: Seq<Walk>,
) -> bool {
    let n = s.tasks.len() as int;
    if x.tasks.len() <= n {
        x.tasks == s.tasks && is_armed(x, walks, root, recursive)
    } else {
        &&& x.tasks.take(n) == s.tasks
        &&& match x.tasks[n] {
            Task::ArmRoot { root: r, recursive: v } => r == root && v == recursive
                && x.tasks.len() == n + 1,
            Task::ArmReached { root: r, recursive: v } => r == root && v == recursive
                && is_chaining(x, n + 1, root),
            Task::ArmLooked { root: r, recursive: v } => r == root && v == recursive
                && x.tasks.len() == n + 1 && is_linked(x.table(), root),
            Task::ArmAdded { state } => state != RootState::Missing && is_linked(x.table(), root)
                && is_covering(x, n + 1, root, false, recursive, state, walks),
            _ => false,
        }
    }
}

proof fn lemma_chaining_step(x: LoopView, n: int, root: Seq<Seq<u8>>, answer: AnswerView)
    requires
        n >= 0,
        is_chaining(x, n, root),
        x.tasks.len() > n,
        root.len() <= usize::MAX,
        is_answered(x, answer),
    ensures
        is_chaining(x.step(answer).0, n, root),
        x.step(answer).0.tasks.len() >= n,
        x.step(answer).0.tasks.take(n) == x.tasks.take(n),
{
    let r = x.step(answer).0;
    if x.tasks.len() > n + 1 {
        let k = x.tasks[n]->ChainAdded_n;
        lemma_adding_step(
            x,
            n + 1,
            root.take(k as int),
            chain_mask(root, k as int),
            false,
            answer,
        );
        assert(r.tasks[n] == r.tasks.take(n + 1)[n]);
        assert(x.tasks[n] == x.tasks.take(n + 1)[n]);
        assert(r.tasks.take(n) =~= r.tasks.take(n + 1).take(n));
        assert(x.tasks.take(n) =~= x.tasks.take(n + 1).take(n));
    } else {
        assert(x.tasks.last() == x.tasks[n]);
        assert(x.popped().tasks =~= x.tasks.take(n));
        reveal(LoopView::chain);
        reveal(LoopView::chain_looked);
        reveal(LoopView::chain_added);
        if let Task::ChainAdded { root: _, n: k } = x.tasks[n] {
            if k + 1 == root.len() {
                assert(root.take(k as int) =~= root.drop_last());
            }
        }
        assert(r.tasks.take(n) =~= x.tasks.take(n));
    }
}

proof fn lemma_covering_step(
    x: LoopView,
    n: int,
    root: Seq<Seq<u8>>,
    watch_self: bool,
    recursive: bool,
    state: RootState,
    walks: Seq<Walk>,
    answer: AnswerView,
)
    requires
        n >= 0,
        is_covering(x, n, root, watch_self, recursive, state, walks),
        x.tasks.len() > n,
        is_answered(x, answer),
    ensures
        is_covering(
            x.step(answer).0,
            n,
            root,
            watch_self,
            recursive,
            state,
            followed(walks, x, answer),
        ),
        widens(x.table(), x.step(answer).0.table()),
        x.step(answer).0.tasks.len() >= n,
        x.step(answer).0.tasks.take(n) == x.tasks.take(n),
{
    if recursive && state == RootState::Directory {
        lemma_walking_step(x, n, root, watch_self, walks, answer);
    } else {
        lemma_adding_step(x, n, root, task::everything(watch_self), true, answer);
    }
}

proof fn lemma_arm_step(
    s: LoopView,
    root: Seq<Seq<u8>>,
    recursive: bool,
    x: LoopView,
    walks: Seq<Walk>,
    answer: AnswerView,
)
    requires
        is_arm(s, root, recursive, x, walks),
        x.tasks.len() > s.tasks.len(),
        root.len() <= usize::MAX,
        is_answered(x, answer),
    ensures
        is_arm(s, root, recursive, x.step(answer).0, followed(walks, x, answer)),
{
    let n = s.tasks.len() as int;
    let r = x.step(answer).0;
    if x.tasks.len() > n + 1 {
        match x.tasks[n] {
            Task::ArmReached { .. } => {
                lemma_chaining_step(x, n + 1, root, answer);
            },
            Task::ArmAdded { state } => {
                lemma_covering_step(x, n + 1, root, false, recursive, state, walks, answer);
                lemma_linked(x.table(), r.table(), root);
            },
            _ => {},
        }
        assert(r.tasks[n] == r.tasks.take(n + 1)[n]);
        assert(x.tasks[n] == x.tasks.take(n + 1)[n]);
        assert(r.tasks.take(n) =~= r.tasks.take(n + 1).take(n));
        assert(x.tasks.take(n) =~= x.tasks.take(n + 1).take(n));
    } else {
        assert(x.tasks.last() == x.tasks[n]);
        assert(x.popped().tasks =~= s.tasks);
        reveal(LoopView::arm_root);
        reveal(LoopView::arm_reached);
        reveal(LoopView::arm_looked);
        reveal(LoopView::arm_added);
        assert(r.tasks.len() >= n ==> r.tasks.take(n) =~= s.tasks);
    }
}

/// Whether inotify is open: every add is answered.
pub open spec fn is_open(s: LoopView, answers: Seq<AnswerView>) -> bool {
    forall|k: int|
        0 <= k < answers.len() ==> is_answered(#[trigger] run(s, answers.take(k)), answers[k])
}

proof fn lemma_arm_goes_on(
    s: LoopView,
    root: Seq<Seq<u8>>,
    recursive: bool,
    answers: Seq<AnswerView>,
)
    requires
        is_busy(s.push(Task::ArmRoot { root, recursive }), answers, s.tasks.len()),
        is_open(s.push(Task::ArmRoot { root, recursive }), answers),
        root.len() <= usize::MAX,
    ensures
        is_arm(
            s,
            root,
            recursive,
            run(s.push(Task::ArmRoot { root, recursive }), answers),
            walks(s.push(Task::ArmRoot { root, recursive }), answers),
        ),
    decreases answers.len(),
{
    let start = s.push(Task::ArmRoot { root, recursive });
    if answers.len() == 0 {
        assert(start.tasks.take(s.tasks.len() as int) =~= s.tasks);
    } else {
        let before = answers.drop_last();
        lemma_busy(start, answers, s.tasks.len());
        lemma_open(start, answers);
        lemma_arm_goes_on(s, root, recursive, before);
        let x = run(start, before);
        lemma_arm_step(s, root, recursive, x, walks(start, before), answers.last());
    }
}

/// Once a root that is there is armed, the directory it is in is watched for everything, whatever
/// the system answers while inotify is open. So is a root in no directory, and every directory that
/// the walk of a tree named.
pub proof fn armed_root_is_watched(
    s: LoopView,
    root: Seq<Seq<u8>>,
    recursive: bool,
    answers: Seq<AnswerView>,
)
    requires
        ends(s.push(Task::ArmRoot { root, recursive }), answers),
        is_open(s.push(Task::ArmRoot { root, recursive }), answers),
        root.len() <= usize::MAX,
    ensures
        is_armed(
            run(s.push(Task::ArmRoot { root, recursive }), answers),
            walks(s.push(Task::ArmRoot { root, recursive }), answers),
            root,
            recursive,
        ),
{
    assert(s.push(Task::ArmRoot { root, recursive }).popped().tasks =~= s.tasks);
    lemma_arm_goes_on(s, root, recursive, answers);
}

/// How the arm of the root `p` goes on above the task at `n`, which waits for it.
spec fn is_arm_above(
    x: LoopView,
    n: int,
    p: Seq<Seq<u8>>,
    recursive: bool,
    walks: Seq<Walk>,
) -> bool {
    if x.tasks.len() == n + 1 {
        is_armed(x, walks, p, recursive)
    } else {
        match x.tasks[n + 1] {
            Task::Arm { root, recursive: v } => root == p && v == recursive && x.tasks.len() == n
                + 2,
            Task::ArmEnded { root } => root == p && is_arm(
                LoopView { tasks: x.tasks.take(n + 2), ..x },
                p,
                recursive,
                x,
                walks,
            ),
            Task::Fail { .. } => is_quiet_from(x, n + 2),
            _ => false,
        }
    }
}

proof fn lemma_arm_above_step(
    x: LoopView,
    n: int,
    p: Seq<Seq<u8>>,
    recursive: bool,
    walks: Seq<Walk>,
    answer: AnswerView,
)
    requires
        n >= 0,
        is_arm_above(x, n, p, recursive, walks),
        x.tasks.len() > n + 1,
        p.len() <= usize::MAX,
        is_answered(x, answer),
    ensures
        is_arm_above(x.step(answer).0, n, p, recursive, followed(walks, x, answer)),
        x.step(answer).0.tasks.len() > n,
        x.step(answer).0.tasks[n] == x.tasks[n],
        x.step(answer).0.tasks.take(n) == x.tasks.take(n),
{
    let r = x.step(answer).0;
    if x.tasks.len() == n + 2 {
        let rest = x.popped();
        assert(x.tasks.last() == x.tasks[n + 1]);
        lemma_step(x, answer);
        reveal(LoopView::arm);
        reveal(LoopView::arm_ended);
        assert(r.tasks.take(n) =~= r.tasks.take(rest.tasks.len() as int).take(n));
        assert(x.tasks.take(n) =~= rest.tasks.take(n));
        assert(r.tasks[n] == r.tasks.take(rest.tasks.len() as int)[n]);
        assert(rest.tasks[n] == x.tasks[n]);
        assert(rest.tasks.len() == n + 1);
    } else {
        if x.tasks[n + 1] is Fail {
            lemma_quiet_step(x, n + 1, answer);
        } else {
            let base = LoopView { tasks: x.tasks.take(n + 2), ..x };
            lemma_arm_step(base, p, recursive, x, walks, answer);
            lemma_step(x, answer);
            let rest = x.popped();
            assert(r.tasks.take(n + 2) =~= r.tasks.take(rest.tasks.len() as int).take(n + 2));
            assert(x.tasks.take(n + 2) =~= rest.tasks.take(n + 2));
        }
        assert(r.tasks.take(n + 2) == x.tasks.take(n + 2));
        assert(r.tasks[n] == r.tasks.take(n + 2)[n]);
        assert(x.tasks[n] == x.tasks.take(n + 2)[n]);
        assert(r.tasks[n + 1] == r.tasks.take(n + 2)[n + 1]);
        assert(x.tasks[n + 1] == x.tasks.take(n + 2)[n + 1]);
        assert(r.tasks.take(n) =~= r.tasks.take(n + 2).take(n));
        assert(x.tasks.take(n) =~= x.tasks.take(n + 2).take(n));
    }
}

/// How the watch of the new path `p` goes on.
spec fn is_settling(
    s: LoopView,
    p: Seq<Seq<u8>>,
    mode: WatchMode,
    x: LoopView,
    walks: Seq<Walk>,
) -> bool {
    let n = s.tasks.len() as int;
    let recursive = mode.is_recursive();
    if x.tasks.len() <= n {
        ||| x.outcome is Failed
        ||| x.table().roots.contains_key(p) && is_set_up(
            x.table(),
            walks,
            p,
            mode.tracks_path(),
            recursive,
            x.table().roots[p].state,
        )
    } else {
        &&& x.tasks.take(n) == s.tasks
        &&& match x.tasks[n] {
            Task::AddRoot { path, mode: m } => path == p && m == mode && x.tasks.len() == n + 1
                && !x.table().roots.contains_key(p),
            Task::AddRootArmed { path, mode: m } => path == p && m == mode && mode.tracks_path()
                && is_arm_above(x, n, p, recursive, walks),
            Task::AddRootLooked { path, mode: m } => path == p && m == mode && x.tasks.len() == n
                + 1 && !mode.tracks_path(),
            Task::AddRootAdded { path, mode: m, state } => path == p && m == mode
                && !mode.tracks_path() && state != RootState::Missing && is_covering(
                x,
                n + 1,
                p,
                true,
                recursive,
                state,
                walks,
            ),
            Task::Fail { .. } => is_quiet_from(x, n + 1),
            _ => false,
        }
    }
}

proof fn lemma_settling_step(
    s: LoopView,
    p: Seq<Seq<u8>>,
    mode: WatchMode,
    x: LoopView,
    walks: Seq<Walk>,
    answer: AnswerView,
)
    requires
        is_settling(s, p, mode, x, walks),
        x.tasks.len() > s.tasks.len(),
        p.len() <= usize::MAX,
        is_answered(x, answer),
    ensures
        is_settling(s, p, mode, x.step(answer).0, followed(walks, x, answer)),
{
    let n = s.tasks.len() as int;
    let r = x.step(answer).0;
    if x.tasks.len() == n + 1 {
        assert(x.tasks.last() == x.tasks[n]);
        assert(x.popped().tasks =~= s.tasks);
        reveal(LoopView::add_root);
        reveal(LoopView::add_root_armed);
        reveal(LoopView::add_root_looked);
        reveal(LoopView::add_root_added);
        assert(r.tasks.len() >= n ==> r.tasks.take(n) =~= s.tasks);
    } else if x.tasks[n] is AddRootArmed {
        lemma_arm_above_step(x, n, p, mode.is_recursive(), walks, answer);
    } else {
        if let Task::AddRootAdded { state, .. } = x.tasks[n] {
            lemma_covering_step(
                x,
                n + 1,
                p,
                true,
                mode.is_recursive(),
                state,
                walks,
                answer,
            );
        } else {
            lemma_quiet_step(x, n, answer);
        }
        assert(r.tasks[n] == r.tasks.take(n + 1)[n]);
        assert(x.tasks[n] == x.tasks.take(n + 1)[n]);
        assert(r.tasks.take(n) =~= r.tasks.take(n + 1).take(n));
        assert(x.tasks.take(n) =~= x.tasks.take(n + 1).take(n));
    }
}

proof fn lemma_settling(
    s: LoopView,
    p: Seq<Seq<u8>>,
    mode: WatchMode,
    answers: Seq<AnswerView>,
)
    requires
        !s.table().roots.contains_key(p),
        is_busy(s.push(Task::AddRoot { path: p, mode }), answers, s.tasks.len()),
        is_open(s.push(Task::AddRoot { path: p, mode }), answers),
        p.len() <= usize::MAX,
    ensures
        is_settling(
            s,
            p,
            mode,
            run(s.push(Task::AddRoot { path: p, mode }), answers),
            walks(s.push(Task::AddRoot { path: p, mode }), answers),
        ),
    decreases answers.len(),
{
    let start = s.push(Task::AddRoot { path: p, mode });
    if answers.len() == 0 {
        assert(start.tasks.take(s.tasks.len() as int) =~= s.tasks);
    } else {
        let before = answers.drop_last();
        lemma_busy(start, answers, s.tasks.len());
        lemma_open(start, answers);
        lemma_settling(s, p, mode, before);
        lemma_settling_step(s, p, mode, run(start, before), walks(start, before), answers.last());
    }
}

proof fn lemma_open(s: LoopView, answers: Seq<AnswerView>)
    requires
        is_open(s, answers),
        answers.len() > 0,
    ensures
        is_open(s, answers.drop_last()),
        is_answered(run(s, answers.drop_last()), answers.last()),
{
    let before = answers.drop_last();
    assert(answers.take(answers.len() - 1) =~= before);
    assert forall|k: int| 0 <= k < before.len() implies is_answered(
        #[trigger] run(s, before.take(k)),
        before[k],
    ) by {
        assert(before.take(k) =~= answers.take(k));
        assert(before[k] == answers[k]);
    }
}

/// Once a path that is there is watched, the kernel watches what it is reported through, whatever
/// the system answers while inotify is open: the path or the directory it is in, that directory in
/// any case if the path is tracked, and every directory that the walk of the path named if the path
/// is a directory that is watched recursively.
pub proof fn watch_is_set_up(
    s: LoopView,
    p: Seq<Seq<u8>>,
    mode: WatchMode,
    answers: Seq<AnswerView>,
)
    requires
        !s.table().roots.contains_key(p),
        ends(s.push(Task::AddRoot { path: p, mode }), answers),
        is_open(s.push(Task::AddRoot { path: p, mode }), answers),
        p.len() <= usize::MAX,
    ensures
        ({
            let start = s.push(Task::AddRoot { path: p, mode });
            let end = run(start, answers);
            end.outcome is Failed || (end.table().roots.contains_key(p) && is_set_up(
                end.table(),
                walks(start, answers),
                p,
                mode.tracks_path(),
                mode.is_recursive(),
                end.table().roots[p].state,
            ))
        }),
{
    assert(s.push(Task::AddRoot { path: p, mode }).popped().tasks =~= s.tasks);
    lemma_settling(s, p, mode, answers);
}

/// Whether the look at a root that is to be watched recursively found something else than a
/// directory.
pub open spec fn found_no_directory(s: LoopView, answers: Seq<AnswerView>) -> bool {
    exists|k: int|
        0 <= k < answers.len() && {
            let x = #[trigger] run(s, answers.take(k));
            &&& x.tasks.len() > 0 && x.tasks.last() is UpgradeLooked
            &&& answers[k].stat() matches Ok(stat) && !stat.is_dir
        }
}

/// Whether the look at an ancestor of a root that is to be tracked found no directory.
pub open spec fn found_cut_off(s: LoopView, answers: Seq<AnswerView>) -> bool {
    exists|k: int|
        0 <= k < answers.len() && is_cut_off(#[trigger] run(s, answers.take(k)), answers[k])
}

/// Whether the answer says that an ancestor is no directory.
pub open spec fn is_cut_off(x: LoopView, answer: AnswerView) -> bool {
    &&& x.tasks.len() > 0 && x.tasks.last() is ChainLooked
    &&& !(answer.stat() matches Ok(stat) && stat.is_dir)
}

/// Whether a root that is there is tracked from now on.
pub open spec fn gets_tracked(root: RootWatch, mode: WatchMode) -> bool {
    mode.tracks_path() && !root.mode.tracks_path() && root.state != RootState::Missing
}

/// Whether a root that is there is watched recursively from now on.
pub open spec fn recurses(root: RootWatch, mode: WatchMode) -> bool {
    mode.is_recursive() && !root.mode.is_recursive() && root.state != RootState::Missing
}

/// What is watched once the root `p`, which was `root`, was watched again in `mode`: all that a
/// missing root which is found there is reported through, every directory of a tree that is watched
/// recursively now, unless the root is no directory, and the directory that a root is in which is
/// tracked now, unless it is cut off.
pub open spec fn is_set_up_again(
    x: LoopView,
    walks: Seq<Walk>,
    p: Seq<Seq<u8>>,
    root: RootWatch,
    mode: WatchMode,
    no_directory: bool,
    cut_off: bool,
) -> bool {
    let both = WatchMode::both(root.mode, mode);
    &&& gets_tracked(root, mode) ==> is_linked(x.table(), p) || cut_off
    &&& recurses(root, mode) ==> is_walked(x.table(), walks, p, true) || no_directory
    &&& both.tracks_path() && root.state == RootState::Missing ==> x.table().roots.contains_key(p)
        && is_set_up(
        x.table(),
        walks,
        p,
        true,
        both.is_recursive(),
        x.table().roots[p].state,
    )
}

/// How a watch of the path `p`, which is watched already, sets up what it needs.
spec fn is_settling_again(
    s: LoopView,
    p: Seq<Seq<u8>>,
    mode: WatchMode,
    x: LoopView,
    walks: Seq<Walk>,
    no_directory: bool,
    cut_off: bool,
) -> bool {
    let n = s.tasks.len() as int;
    let root = s.table().roots[p];
    let recursive = WatchMode::both(root.mode, mode).is_recursive();
    let tracks = mode.tracks_path() && !root.mode.tracks_path();
    let linked = tracks ==> is_linked(x.table(), p) || cut_off;
    if x.tasks.len() <= n {
        x.outcome is Failed || is_set_up_again(x, walks, p, root, mode, no_directory, cut_off)
    } else {
        match x.tasks[n] {
            Task::AddRoot { .. } => true,
            Task::UpgradeEnded { .. } => if x.tasks.len() == n + 1 {
                x.outcome is Failed || (linked && (recurses(root, mode) ==> is_walked(
                    x.table(),
                    walks,
                    p,
                    true,
                ) || no_directory))
            } else {
                match x.tasks[n + 1] {
                    Task::Upgrade { path, track, recurse } => {
                        &&& path == p && track == tracks && recurse == recurses(root, mode)
                        &&& x.tasks.len() == n + 2
                    },
                    Task::UpgradeReached { path, recurse } => {
                        &&& path == p && recurse == recurses(root, mode)
                        &&& if tracks {
                            &&& is_chaining(x, n + 2, p)
                            &&& x.tasks.len() == n + 2 && x.outcome == Outcome::<
                                ErrorView,
                            >::Reached(false) ==> cut_off
                        } else {
                            x.tasks.len() == n + 2
                        }
                    },
                    Task::UpgradeLooked { path } => path == p && x.tasks.len() == n + 2 && linked,
                    _ => is_walking(x, n + 1, p, true, walks) && linked,
                }
            },
            Task::UpgradeArmed { .. } => root.state == RootState::Missing && is_arm_above(
                x,
                n,
                p,
                recursive,
                walks,
            ),
            Task::Fail { .. } => true,
            _ => false,
        }
    }
}

proof fn lemma_settling_again_step(
    s: LoopView,
    p: Seq<Seq<u8>>,
    mode: WatchMode,
    x: LoopView,
    walks: Seq<Walk>,
    before: bool,
    after: bool,
    was_cut_off: bool,
    cut_off: bool,
    answer: AnswerView,
)
    requires
        s.table().roots.contains_key(p),
        is_upgrading(s, p, mode, x),
        is_settling_again(s, p, mode, x, walks, before, was_cut_off),
        x.tasks.len() > s.tasks.len(),
        p.len() <= usize::MAX,
        is_answered(x, answer),
        before ==> after,
        x.tasks.last() is UpgradeLooked && (answer.stat() matches Ok(stat) && !stat.is_dir)
            ==> after,
        was_cut_off ==> cut_off,
        is_cut_off(x, answer) ==> cut_off,
    ensures
        is_settling_again(
            s,
            p,
            mode,
            x.step(answer).0,
            followed(walks, x, answer),
            after,
            cut_off,
        ),
{
    let n = s.tasks.len() as int;
    let r = x.step(answer).0;
    let rest = x.popped();
    lemma_upgrading_step(s, p, mode, x, answer);
    if x.tasks.len() == n + 1 {
        assert(x.tasks.last() == x.tasks[n]);
        assert(rest.tasks =~= s.tasks);
        reveal(LoopView::add_root);
        reveal(LoopView::upgrade_ended);
        reveal(LoopView::upgrade_armed);
    } else {
        lemma_quiet_step(x, n, answer);
        assert(r.tasks[n] == r.tasks.take(n + 1)[n]);
        assert(x.tasks[n] == x.tasks.take(n + 1)[n]);
        if x.tasks[n] is UpgradeArmed {
            let recursive = WatchMode::both(s.table().roots[p].mode, mode).is_recursive();
            lemma_arm_above_step(x, n, p, recursive, walks, answer);
        } else if x.tasks[n] is UpgradeEnded {
            match x.tasks[n + 1] {
                Task::Upgrade { .. } => {
                    assert(x.tasks.last() == x.tasks[n + 1]);
                    reveal(LoopView::upgrade);
                },
                Task::UpgradeReached { .. } => {
                    if x.tasks.len() == n + 2 {
                        assert(x.tasks.last() == x.tasks[n + 1]);
                        reveal(LoopView::upgrade_reached);
                    } else {
                        lemma_chaining_step(x, n + 2, p, answer);
                        assert(r.tasks[n + 1] == r.tasks.take(n + 2)[n + 1]);
                        assert(x.tasks[n + 1] == x.tasks.take(n + 2)[n + 1]);
                        if x.tasks.len() == n + 3 {
                            assert(x.tasks.last() == x.tasks[n + 2]);
                            reveal(LoopView::chain);
                            reveal(LoopView::chain_looked);
                            reveal(LoopView::chain_added);
                        } else {
                            lemma_step(x, answer);
                        }
                    }
                },
                Task::UpgradeLooked { .. } => {
                    assert(x.tasks.last() == x.tasks[n + 1]);
                    reveal(LoopView::upgrade_looked);
                },
                _ => {
                    lemma_walking_step(x, n + 1, p, true, walks, answer);
                    if is_linked(x.table(), p) {
                        lemma_linked(x.table(), r.table(), p);
                    }
                },
            }
        }
    }
}

proof fn lemma_settling_again(
    s: LoopView,
    p: Seq<Seq<u8>>,
    mode: WatchMode,
    answers: Seq<AnswerView>,
)
    requires
        s.table().roots.contains_key(p),
        is_busy(s.push(Task::AddRoot { path: p, mode }), answers, s.tasks.len()),
        is_open(s.push(Task::AddRoot { path: p, mode }), answers),
        p.len() <= usize::MAX,
    ensures
        is_settling_again(
            s,
            p,
            mode,
            run(s.push(Task::AddRoot { path: p, mode }), answers),
            walks(s.push(Task::AddRoot { path: p, mode }), answers),
            found_no_directory(s.push(Task::AddRoot { path: p, mode }), answers),
            found_cut_off(s.push(Task::AddRoot { path: p, mode }), answers),
        ),
    decreases answers.len(),
{
    let start = s.push(Task::AddRoot { path: p, mode });
    if answers.len() > 0 {
        let before = answers.drop_last();
        let x = run(start, before);
        lemma_busy(start, answers, s.tasks.len());
        lemma_open(start, answers);
        lemma_upgrading(s, p, mode, before);
        lemma_settling_again(s, p, mode, before);
        let found = found_no_directory(start, answers);
        if found_no_directory(start, before) {
            let k = choose|k: int|
                0 <= k < before.len() && {
                    let x = #[trigger] run(start, before.take(k));
                    &&& x.tasks.len() > 0 && x.tasks.last() is UpgradeLooked
                    &&& before[k].stat() matches Ok(stat) && !stat.is_dir
                };
            assert(answers.take(k) =~= before.take(k));
            assert(answers[k] == before[k]);
            assert(run(start, answers.take(k)).tasks.last() is UpgradeLooked);
        }
        assert(answers.take(answers.len() - 1) =~= before);
        assert(answers[answers.len() - 1] == answers.last());
        if x.tasks.last() is UpgradeLooked && (answers.last().stat() matches Ok(stat)
            && !stat.is_dir) {
            assert(run(start, answers.take(answers.len() - 1)).tasks.last() is UpgradeLooked);
        }
        if found_cut_off(start, before) {
            let k = choose|k: int|
                0 <= k < before.len() && is_cut_off(
                    #[trigger] run(start, before.take(k)),
                    before[k],
                );
            assert(answers.take(k) =~= before.take(k));
            assert(is_cut_off(run(start, answers.take(k)), answers[k]));
        }
        if is_cut_off(x, answers.last()) {
            let k = answers.len() - 1;
            assert(is_cut_off(run(start, answers.take(k)), answers[k]));
        }
        lemma_settling_again_step(
            s,
            p,
            mode,
            x,
            walks(start, before),
            found_no_directory(start, before),
            found,
            found_cut_off(start, before),
            found_cut_off(start, answers),
            answers.last(),
        );
    }
}

/// Once a path that is watched already is watched recursively too, every directory that the walk of
/// it named is watched, unless it is no directory, whatever the system answers while inotify is
/// open. Once it is tracked too, the directory it is in is watched, unless it is cut off. Once a
/// tracked path that was missing is watched again and found there, what it is reported through is
/// watched.
pub proof fn watched_again_is_set_up(
    s: LoopView,
    p: Seq<Seq<u8>>,
    mode: WatchMode,
    answers: Seq<AnswerView>,
)
    requires
        s.table().roots.contains_key(p),
        ends(s.push(Task::AddRoot { path: p, mode }), answers),
        is_open(s.push(Task::AddRoot { path: p, mode }), answers),
        p.len() <= usize::MAX,
    ensures
        ({
            let start = s.push(Task::AddRoot { path: p, mode });
            let end = run(start, answers);
            end.outcome is Failed || is_set_up_again(
                end,
                walks(start, answers),
                p,
                s.table().roots[p],
                mode,
                found_no_directory(start, answers),
                found_cut_off(start, answers),
            )
        }),
{
    assert(s.push(Task::AddRoot { path: p, mode }).popped().tasks =~= s.tasks);
    lemma_settling_again(s, p, mode, answers);
}

/// Whether a root tracks the path `r`.
spec fn is_tracked(roots: Map<Seq<Seq<u8>>, RootWatch>, r: Seq<Seq<u8>>) -> bool {
    roots.contains_key(r) && roots[r].mode.tracks_path()
}

/// Whether a root needs the handle at `q`, or is tracked below it.
pub open spec fn is_of_use(table: TableView, q: Seq<Seq<u8>>) -> bool {
    table.is_handle_needed(q) || table.leads_to_root(q)
}

/// Whether the handle at `q` is looked at when the root `p` is watched no longer: that of the root,
/// those below a recursive one, those on the ancestors of a tracked one, and that of the directory
/// that a root without a handle is in.
pub open spec fn is_looked_at(
    table: TableView,
    p: Seq<Seq<u8>>,
    q: Seq<Seq<u8>>,
) -> bool {
    let mode = table.roots[p].mode;
    ||| q == p
    ||| mode.is_recursive() && path::starts_with(q, p)
    ||| mode.tracks_path() && path::lies_below(p, q)
    ||| !table.handles.contains_key(p) && path::parent(p) == Some(q)
}

/// Whether the directory that the system named is at or below the path of the walk.
pub open spec fn is_named(walks: Seq<Walk>, x: LoopView, answer: AnswerView) -> bool {
    let root = walks.last().path;
    walks.len() > 0 && x.tasks.len() > 0 && x.tasks.last() is WalkFound ==> match answer.entry() {
        Some(dir) => dir == root || path::lies_below(dir, root),
        None => true,
    }
}

/// Whether the system names only directories at and below the path of a walk.
pub open spec fn names_below(s: LoopView, answers: Seq<AnswerView>) -> bool {
    forall|k: int|
        0 <= k < answers.len() ==> is_named(
            walks(s, answers.take(k)),
            #[trigger] run(s, answers.take(k)),
            answers[k],
        )
}

/// Whether a path may get a handle when tracked roots are armed again.
spec fn is_armable(roots: Map<Seq<Seq<u8>>, RootWatch>, q: Seq<Seq<u8>>) -> bool {
    root::leads_to_root(roots, q) || root::is_below_recursive_root(roots, q) || is_tracked(roots, q)
}

/// Whether a task takes handles that are of no use, or arms a tracked root again. `walking` tells
/// whether a walk was asked for.
spec fn is_tidy(
    roots: Map<Seq<Seq<u8>>, RootWatch>,
    task: TaskView,
    walking: bool,
) -> bool {
    match task {
        Task::Fail { .. } => true,
        Task::RemoveHandle { .. } => true,
        Task::Release { .. } => true,
        Task::Each { deed, .. } => deed == Deed::Release,
        Task::Add { path, .. } => is_armable(roots, path),
        Task::Added { path, .. } => is_armable(roots, path),
        Task::Record { path, .. } => is_armable(roots, path),
        Task::RecordLooked { path, .. } => is_armable(roots, path),
        Task::SetMask { path, .. } => root::leads_to_root(roots, path),
        Task::SetMaskAdded { path, .. } => root::leads_to_root(roots, path),
        Task::Chain { root, n } => is_tracked(roots, root) && path::floor(root) <= n,
        Task::ChainLooked { root, n } => is_tracked(roots, root) && path::floor(root) <= n,
        Task::ChainAdded { root, n } => is_tracked(roots, root) && path::floor(root) <= n,
        Task::ArmRoot { root, recursive } => is_tracked(roots, root)
            && roots[root].mode.is_recursive() == recursive,
        Task::ArmReached { root, recursive } => is_tracked(roots, root)
            && roots[root].mode.is_recursive() == recursive,
        Task::ArmLooked { root, recursive } => is_tracked(roots, root)
            && roots[root].mode.is_recursive() == recursive,
        Task::ArmAdded { .. } => true,
        Task::Walk { path, .. } => is_tracked(roots, path) && roots[path].mode.is_recursive(),
        Task::WalkFound { .. } => walking,
        Task::WalkAdded { .. } => walking,
        Task::ReleaseBelow { .. } => true,
        Task::ArmAgain { roots: list } => forall|i: int|
            0 <= i < list.len() && roots.contains_key(list[i]) ==> is_tracked(
                roots,
                #[trigger] list[i],
            ),
        _ => is_syncing(task),
    }
}

/// Whether a task looks at the handle at `q` yet.
spec fn is_to_release(task: TaskView, q: Seq<Seq<u8>>) -> bool {
    match task {
        Task::RemoveHandle { path } => path == q,
        Task::Release { path } => path == q,
        Task::Each { paths, .. } => paths.contains(q),
        Task::ReleaseBelow { path } => path::starts_with(q, path),
        _ => false,
    }
}

/// Whether one of the tasks from the one at `n` on looks at the handle at `q` yet.
spec fn are_to_release(x: LoopView, n: int, q: Seq<Seq<u8>>) -> bool {
    exists|i: int| n <= i < x.tasks.len() && is_to_release(#[trigger] x.tasks[i], q)
}

/// The walks are those of tracked recursive roots.
spec fn are_walks_of_roots(roots: Map<Seq<Seq<u8>>, RootWatch>, walks: Seq<Walk>) -> bool {
    forall|i: int|
        0 <= i < walks.len() ==> is_tracked(roots, (#[trigger] walks[i]).path)
            && roots[walks[i].path].mode.is_recursive()
}

/// What a tidy step does.
spec fn is_tidied(
    s: LoopView,
    task: TaskView,
    walking: bool,
    r: LoopView,
    request: task::RequestView,
) -> bool {
    let roots = s.table().roots;
    &&& r.table().roots == roots
    &&& forall|q: Seq<Seq<u8>>| #[trigger]
        r.table().handles.contains_key(q) ==> s.table().handles.contains_key(q) || is_armable(
            roots,
            q,
        )
    &&& forall|i: int|
        s.tasks.len() <= i < r.tasks.len() ==> is_tidy(
            roots,
            #[trigger] r.tasks[i],
            walking || request is Walk,
        )
    &&& forall|q: Seq<Seq<u8>>| #[trigger]
        r.table().handles.contains_key(q) && is_to_release(task, q) ==> is_of_use(r.table(), q)
            || are_to_release(r, s.tasks.len() as int, q)
    &&& request matches Request::Walk(p) ==> is_tracked(roots, p) && roots[p].mode.is_recursive()
    &&& forall|i: int|
        s.tasks.len() <= i < r.tasks.len() ==> !(#[trigger] r.tasks[i] is ReleaseBelow)
}

proof fn lemma_tidied_handle(s: LoopView, task: TaskView, walking: bool, answer: AnswerView)
    requires
        task::is_handle_task(task),
        is_tidy(s.table().roots, task, walking),
    ensures
        is_tidied(
            s,
            task,
            walking,
            s.go_on_handle(task, answer).0,
            s.go_on_handle(task, answer).1,
        ),
{
    let r = s.go_on_handle(task, answer).0;
    let n = s.tasks.len() as int;
    match task {
        Task::Sync { .. } => {
            reveal(LoopView::sync);
        },
        Task::SyncThrough { .. } => {
            reveal(LoopView::sync_through);
        },
        Task::SyncLooked { .. } => {
            reveal(LoopView::sync_looked);
        },
        Task::SyncAdded { .. } => {
            reveal(LoopView::sync_added);
        },
        Task::Add { .. } => {
            reveal(LoopView::add);
        },
        Task::Added { .. } => {
            reveal(LoopView::added);
        },
        Task::Record { .. } => {
            reveal(LoopView::record);
            reveal(LoopView::bound_to);
        },
        Task::RecordLooked { .. } => {
            reveal(LoopView::record_looked);
            reveal(LoopView::bound_to);
        },
        Task::SetMask { .. } => {
            reveal(LoopView::set_mask);
        },
        Task::SetMaskAdded { .. } => {
            reveal(LoopView::set_mask_added);
        },
        Task::RemoveHandle { .. } => {
            reveal(LoopView::remove_handle);
        },
        Task::Release { path } => {
            reveal(LoopView::release);
            if r.tasks.len() > n && !s.table().leads_to_root(path) {
                assert(is_to_release(r.tasks[n], path));
            }
        },
        Task::Each { paths, .. } => {
            reveal(LoopView::each);
            assert forall|q: Seq<Seq<u8>>| paths.contains(q) implies are_to_release(r, n, q) by {
                let i = paths.index_of(q);
                if i == 0 {
                    assert(is_to_release(r.tasks[n + 1], q));
                } else {
                    assert(paths.drop_first()[i - 1] == q);
                    assert(is_to_release(r.tasks[n], q));
                }
            }
        },
        _ => {},
    }
}

proof fn lemma_tidied_arm(s: LoopView, task: TaskView, walking: bool, answer: AnswerView)
    requires
        task::is_arm_task(task),
        is_tidy(s.table().roots, task, walking),
        forall|q: Seq<Seq<u8>>| #[trigger]
            s.table().roots.contains_key(q) ==> q.len() <= usize::MAX,
    ensures
        is_tidied(
            s,
            task,
            walking,
            s.go_on_arm(task, answer).0,
            s.go_on_arm(task, answer).1,
        ),
{
    let roots = s.table().roots;
    match task {
        Task::Chain { .. } => {
            reveal(LoopView::chain);
        },
        Task::ChainLooked { root, n } => {
            reveal(LoopView::chain_looked);
            if n < root.len() {
                assert(path::lies_below(root, root.take(n as int)));
                assert(root::leads_to_root(roots, root.take(n as int)));
            }
        },
        Task::ChainAdded { .. } => {
            reveal(LoopView::chain_added);
        },
        Task::ArmRoot { .. } => {
            reveal(LoopView::arm_root);
        },
        Task::ArmReached { .. } => {
            reveal(LoopView::arm_reached);
        },
        Task::ArmLooked { .. } => {
            reveal(LoopView::arm_looked);
        },
        Task::ArmAdded { .. } => {
            reveal(LoopView::arm_added);
        },
        _ => {},
    }
}

proof fn lemma_tidied_walk(
    s: LoopView,
    task: TaskView,
    walks: Seq<Walk>,
    answer: AnswerView,
)
    requires
        task::is_walk_task(task),
        is_tidy(s.table().roots, task, walks.len() > 0),
        are_walks_of_roots(s.table().roots, walks),
        is_named(walks, s.push(task), answer),
    ensures
        is_tidied(
            s,
            task,
            walks.len() > 0,
            s.go_on_walk(task, answer).0,
            s.go_on_walk(task, answer).1,
        ),
{
    match task {
        Task::Walk { .. } => {
            reveal(LoopView::walk);
        },
        Task::WalkFound { .. } => {
            reveal(LoopView::walk_found);
            assert(walks[walks.len() - 1] == walks.last());
            if let Some(dir) = answer.entry() {
                let root = walks.last().path;
                assert(s.table().roots.contains_key(root));
            }
        },
        Task::WalkAdded { .. } => {
            reveal(LoopView::walk_added);
        },
        _ => {},
    }
}

proof fn lemma_chosen_wanted(list: Seq<Seq<Seq<u8>>>, wanted: spec_fn(Seq<Seq<u8>>) -> bool)
    ensures
        forall|i: int|
            0 <= i < path::chosen(list, wanted).len() ==> wanted(
                #[trigger] path::chosen(list, wanted)[i],
            ),
    decreases list.len(),
{
    if list.len() > 0 {
        lemma_chosen_wanted(list.drop_last(), wanted);
        let before = path::chosen(list.drop_last(), wanted);
        let all = path::chosen(list, wanted);
        assert forall|i: int| 0 <= i < all.len() implies wanted(#[trigger] all[i]) by {
            if i < before.len() {
                assert(all[i] == before[i]);
            }
        }
    }
}

proof fn lemma_tidied_root(s: LoopView, task: TaskView, walking: bool, answer: AnswerView)
    requires
        task::is_root_task(task),
        is_tidy(s.table().roots, task, walking),
        task is ReleaseBelow ==> s.table().handles.dom().finite(),
    ensures
        is_tidied(
            s,
            task,
            walking,
            s.go_on_root(task, answer).0,
            s.go_on_root(task, answer).1,
        ),
{
    let r = s.go_on_root(task, answer).0;
    let n = s.tasks.len() as int;
    let roots = s.table().roots;
    match task {
        Task::ReleaseBelow { path } => {
            reveal(LoopView::release_below);
            lemma_chosen_wanted(
                path_map::at_and_below(roots.dom(), path),
                task::is_armed(s.table()),
            );
            assert(is_tidy(roots, r.tasks[n], walking));
            assert forall|q: Seq<Seq<u8>>| #[trigger]
                r.table().handles.contains_key(q) && is_to_release(task, q) implies are_to_release(
                r,
                n,
                q,
            ) by {
                path_map::lemma_listed(s.table().handles.dom(), path, q);
                assert(is_to_release(r.tasks[n + 1], q));
            }
        },
        Task::ArmAgain { roots: list } => {
            reveal(LoopView::arm_again);
            if list.len() > 0 {
                let rest = list.drop_first();
                assert forall|i: int| 0 <= i < rest.len() && roots.contains_key(
                    rest[i],
                ) implies is_tracked(roots, #[trigger] rest[i]) by {
                    assert(rest[i] == list[i + 1]);
                }
                assert(roots.contains_key(list[0]) ==> is_tracked(roots, list[0]));
            }
        },
        _ => {},
    }
}

/// A handle that is of use stays so, whatever gets a handle when tracked roots are armed again.
proof fn lemma_of_use(before: TableView, after: TableView, q: Seq<Seq<u8>>)
    requires
        after.roots == before.roots,
        forall|a: Seq<Seq<u8>>| #[trigger]
            after.handles.contains_key(a) ==> before.handles.contains_key(a) || is_armable(
                before.roots,
                a,
            ),
        is_of_use(before, q),
    ensures
        is_of_use(after, q),
{
    let roots = before.roots;
    if before.reports_root(q) {
        let r = choose|r: Seq<Seq<u8>>| #[trigger]
            roots.contains_key(r) && path::parent(r) == Some(q) && !before.handles.contains_key(r);
        if after.handles.contains_key(r) {
            assert(is_armable(roots, r));
            assert(path::lies_below(r, q)) by {
                assert(r.take(q.len() as int) =~= q);
            }
            if root::leads_to_root(roots, r) {
                let t = choose|t: Seq<Seq<u8>>| #[trigger]
                    roots.contains_key(t) && roots[t].mode.tracks_path() && path::lies_below(t, r);
                assert(t.take(q.len() as int) =~= t.take(r.len() as int).take(q.len() as int));
                assert(path::floor(t) <= q.len()) by {
                    if t.len() > 0 && r.len() > 0 {
                        assert(t.take(r.len() as int)[0] == t[0]);
                    }
                }
                assert(path::lies_below(t, q));
                assert(root::leads_to_root(roots, q));
            } else if is_tracked(roots, r) {
                assert(root::leads_to_root(roots, q));
            } else {
                let t = choose|t: Seq<Seq<u8>>| #[trigger]
                    roots.contains_key(t) && roots[t].mode.is_recursive() && path::lies_below(r, t);
                if t.len() == q.len() {
                    assert(t == q);
                } else {
                    assert(q.take(t.len() as int) =~= r.take(t.len() as int));
                    assert(path::floor(q) <= t.len()) by {
                        if q.len() > 0 && r.len() > 0 {
                            assert(r.take(q.len() as int)[0] == r[0]);
                        }
                    }
                    assert(path::lies_below(q, t));
                    assert(root::is_below_recursive_root(roots, q));
                }
            }
        } else {
            assert(after.reports_root(q));
        }
    }
}

/// How the unwatch of the root `p` takes the handles that are of no use any more.
spec fn is_cleaning(s: LoopView, p: Seq<Seq<u8>>, x: LoopView, walks: Seq<Walk>) -> bool {
    let n = s.tasks.len() as int;
    let roots = s.table().roots.remove(p);
    if x.tasks.len() > n && x.tasks[n] is RemoveRoot {
        x == s.push(Task::RemoveRoot { path: p }) && walks.len() == 0
    } else {
        &&& x.table().roots == roots
        &&& are_walks_of_roots(roots, walks)
        &&& forall|i: int|
            n + 1 <= i < x.tasks.len() ==> is_tidy(roots, #[trigger] x.tasks[i], walks.len() > 0)
        &&& forall|i: int|
            n + 1 <= i < x.tasks.len() && (#[trigger] x.tasks[i] is ReleaseBelow) ==> i
                == x.tasks.len() - 1 && x.table().handles == s.table().handles
        &&& forall|q: Seq<Seq<u8>>| #[trigger]
            x.table().handles.contains_key(q) && is_looked_at(s.table(), p, q) ==> is_of_use(
                x.table(),
                q,
            ) || are_to_release(x, n + 1, q)
    }
}

proof fn lemma_untracked(table: TableView, p: Seq<Seq<u8>>, n: int, k: int)
    requires
        0 <= n <= k < p.len(),
        !table.leads_to_root(p.take(k)),
    ensures
        task::untracked(table, p, n).contains(p.take(k)),
    decreases p.len() - n,
{
    let nearer = task::untracked(table, p, n + 1);
    let all = task::untracked(table, p, n);
    if n < k {
        lemma_untracked(table, p, n + 1, k);
        let i = nearer.index_of(p.take(k));
        assert(all[i] == p.take(k));
    } else {
        assert(all[nearer.len() as int] == p.take(k));
    }
}

proof fn lemma_cleaning_begins(s: LoopView, p: Seq<Seq<u8>>, answer: AnswerView)
    requires
        s.table().roots.contains_key(p),
    ensures
        is_cleaning(s, p, s.push(Task::RemoveRoot { path: p }).step(answer).0, Seq::empty()),
        !(s.push(Task::RemoveRoot { path: p }).step(answer).1 is Walk),
{
    let n = s.tasks.len() as int;
    let start = s.push(Task::RemoveRoot { path: p });
    let r = start.step(answer).0;
    let mode = s.table().roots[p].mode;
    reveal(LoopView::remove_root);
    assert(start.popped().tasks =~= s.tasks);
    assert forall|q: Seq<Seq<u8>>| #[trigger]
        r.table().handles.contains_key(q) && is_looked_at(s.table(), p, q) implies is_of_use(
        r.table(),
        q,
    ) || are_to_release(r, n + 1, q) by {
        let last = r.tasks.len() - 1;
        if q == p || (mode.is_recursive() && path::starts_with(q, p)) {
            assert(p.take(p.len() as int) =~= p);
            assert(is_to_release(r.tasks[last], q));
        } else if mode.tracks_path() && path::lies_below(p, q) {
            if !r.table().leads_to_root(q) {
                lemma_untracked(r.table(), p, path::floor(p), q.len() as int);
                assert(is_to_release(r.tasks[last - 1], q));
            }
        } else {
            assert(is_to_release(r.tasks[n + 1], q));
        }
    }
}

proof fn lemma_cleaning_step(
    s: LoopView,
    p: Seq<Seq<u8>>,
    x: LoopView,
    walks: Seq<Walk>,
    answer: AnswerView,
)
    requires
        s.table().roots.contains_key(p),
        s.table().handles.dom().finite(),
        forall|q: Seq<Seq<u8>>| #[trigger]
            s.table().roots.contains_key(q) ==> q.len() <= usize::MAX,
        is_unwatching(s, p, x),
        is_cleaning(s, p, x, walks),
        x.tasks.len() > s.tasks.len(),
        is_named(walks, x, answer),
    ensures
        is_cleaning(s, p, x.step(answer).0, followed(walks, x, answer)),
{
    let n = s.tasks.len() as int;
    let r = x.step(answer).0;
    let request = x.step(answer).1;
    let after = followed(walks, x, answer);
    let rest = x.popped();
    let task = x.tasks.last();
    let roots = s.table().roots.remove(p);
    if x.tasks[n] is RemoveRoot {
        lemma_cleaning_begins(s, p, answer);
        assert(after =~= Seq::empty());
    } else if x.tasks.len() == n + 1 {
        assert(task == x.tasks[n]);
        assert(after == walks);
    } else {
        assert(task == x.tasks[x.tasks.len() - 1]);
        lemma_step(x, answer);
        assert(x.popped().push(task) =~= x);
        assert forall|q: Seq<Seq<u8>>| #[trigger] x.table().roots.contains_key(q) implies q.len()
            <= usize::MAX by {
            assert(s.table().roots.contains_key(q));
        }
        if task::is_handle_task(task) {
            lemma_tidied_handle(rest, task, walks.len() > 0, answer);
        } else if task::is_arm_task(task) {
            lemma_tidied_arm(rest, task, walks.len() > 0, answer);
        } else if task::is_walk_task(task) {
            lemma_tidied_walk(rest, task, walks, answer);
        } else {
            lemma_tidied_root(rest, task, walks.len() > 0, answer);
        }
        assert(is_tidied(rest, task, walks.len() > 0, r, request));
        assert forall|i: int| 0 <= i < rest.tasks.len() implies #[trigger] r.tasks[i]
            == x.tasks[i] by {
            assert(r.tasks[i] == r.tasks.take(rest.tasks.len() as int)[i]);
        }
        assert(after.len() > 0 <==> walks.len() > 0 || request is Walk);
        assert forall|i: int| 0 <= i < after.len() implies is_tracked(
            roots,
            (#[trigger] after[i]).path,
        ) && roots[after[i].path].mode.is_recursive() by {
            if i < walks.len() {
                assert(after[i].path == walks[i].path);
            }
        }
        assert forall|i: int| n + 1 <= i < r.tasks.len() implies is_tidy(
            roots,
            #[trigger] r.tasks[i],
            after.len() > 0,
        ) by {
            if i < rest.tasks.len() {
                assert(is_tidy(roots, x.tasks[i], walks.len() > 0));
            }
        }
        lemma_cleaned(s, p, x, r, n);
    }
}

/// The handles of no use that are left are still to be released.
proof fn lemma_cleaned(s: LoopView, p: Seq<Seq<u8>>, x: LoopView, r: LoopView, n: int)
    requires
        0 <= n < x.tasks.len() - 1,
        r.tasks.len() >= x.tasks.len() - 1,
        forall|i: int| 0 <= i < x.tasks.len() - 1 ==> #[trigger] r.tasks[i] == x.tasks[i],
        exists|walking: bool, request: task::RequestView| #[trigger]
            is_tidied(x.popped(), x.tasks.last(), walking, r, request),
        forall|q: Seq<Seq<u8>>| #[trigger]
            x.table().handles.contains_key(q) && is_looked_at(s.table(), p, q) ==> is_of_use(
                x.table(),
                q,
            ) || are_to_release(x, n + 1, q),
    ensures
        forall|q: Seq<Seq<u8>>| #[trigger]
            r.table().handles.contains_key(q) && is_looked_at(s.table(), p, q) ==> is_of_use(
                r.table(),
                q,
            ) || are_to_release(r, n + 1, q),
{
    let last = x.tasks.len() - 1;
    assert forall|q: Seq<Seq<u8>>| #[trigger]
        r.table().handles.contains_key(q) && is_looked_at(s.table(), p, q) implies is_of_use(
        r.table(),
        q,
    ) || are_to_release(r, n + 1, q) by {
        if x.table().handles.contains_key(q) {
            if is_of_use(x.table(), q) {
                lemma_of_use(x.table(), r.table(), q);
            } else {
                let i = choose|i: int|
                    n + 1 <= i < x.tasks.len() && is_to_release(#[trigger] x.tasks[i], q);
                if i < last {
                    assert(is_to_release(r.tasks[i], q));
                } else {
                    assert(is_to_release(x.tasks.last(), q));
                    if !is_of_use(r.table(), q) {
                        let j = choose|j: int|
                            last <= j < r.tasks.len() && is_to_release(#[trigger] r.tasks[j], q);
                        assert(is_to_release(r.tasks[j], q));
                    }
                }
            }
        } else {
            assert(is_armable(r.table().roots, q));
        }
    }
}

proof fn lemma_cleaning(s: LoopView, p: Seq<Seq<u8>>, answers: Seq<AnswerView>)
    requires
        s.table().roots.contains_key(p),
        s.table().handles.dom().finite(),
        forall|q: Seq<Seq<u8>>| #[trigger]
            s.table().roots.contains_key(q) ==> q.len() <= usize::MAX,
        is_busy(s.push(Task::RemoveRoot { path: p }), answers, s.tasks.len()),
        names_below(s.push(Task::RemoveRoot { path: p }), answers),
    ensures
        is_cleaning(
            s,
            p,
            run(s.push(Task::RemoveRoot { path: p }), answers),
            walks(s.push(Task::RemoveRoot { path: p }), answers),
        ),
    decreases answers.len(),
{
    let start = s.push(Task::RemoveRoot { path: p });
    if answers.len() > 0 {
        let before = answers.drop_last();
        lemma_busy(start, answers, s.tasks.len());
        assert forall|k: int| 0 <= k < before.len() implies is_named(
            walks(start, before.take(k)),
            #[trigger] run(start, before.take(k)),
            before[k],
        ) by {
            assert(before.take(k) =~= answers.take(k));
            assert(before[k] == answers[k]);
        }
        assert(answers.take(answers.len() - 1) =~= before);
        assert(is_named(walks(start, before), run(start, before), answers.last())) by {
            let k = answers.len() - 1;
            assert(is_named(
                walks(start, answers.take(k)),
                run(start, answers.take(k)),
                answers[k],
            ));
        }
        lemma_cleaning(s, p, before);
        lemma_unwatching(s, p, before);
        lemma_cleaning_step(s, p, run(start, before), walks(start, before), answers.last());
    }
}

/// Once a root is watched no longer, what only it needed is gone, whatever the system answers, as
/// long as it names only directories at and below the path of a walk. Of the root, of what is below
/// a recursive one, of the ancestors of a tracked one, and of the directory that a root without a
/// handle is in, those that have a handle are needed by another root or lead to one.
pub proof fn unwatch_drops_unneeded_handles(
    s: LoopView,
    p: Seq<Seq<u8>>,
    answers: Seq<AnswerView>,
    q: Seq<Seq<u8>>,
)
    requires
        s.table().roots.contains_key(p),
        s.table().handles.dom().finite(),
        forall|r: Seq<Seq<u8>>| #[trigger]
            s.table().roots.contains_key(r) ==> r.len() <= usize::MAX,
        ends(s.push(Task::RemoveRoot { path: p }), answers),
        names_below(s.push(Task::RemoveRoot { path: p }), answers),
        is_looked_at(s.table(), p, q),
        run(s.push(Task::RemoveRoot { path: p }), answers).table().handles.contains_key(q),
    ensures
        is_of_use(run(s.push(Task::RemoveRoot { path: p }), answers).table(), q),
{
    assert(s.push(Task::RemoveRoot { path: p }).popped().tasks =~= s.tasks);
    lemma_cleaning(s, p, answers);
}

/// The paths that the system refused to watch, or to say anything of, with what is answered to `x`.
pub open spec fn refusing(
    refused: Set<Seq<Seq<u8>>>,
    x: LoopView,
    answer: AnswerView,
) -> Set<Seq<Seq<u8>>> {
    if x.tasks.len() == 0 {
        refused
    } else {
        match x.tasks.last() {
            Task::Added { path, .. } => if answer.added() matches Some(Err(_)) {
                refused.insert(path)
            } else {
                refused
            },
            Task::RecordLooked { path, .. } => if answer.stat() is Err {
                refused.insert(path)
            } else {
                refused
            },
            _ => refused,
        }
    }
}

/// The paths that the system refused on the answers.
pub open spec fn refused(s: LoopView, answers: Seq<AnswerView>) -> Set<Seq<Seq<u8>>>
    decreases answers.len(),
{
    if answers.len() == 0 {
        Set::empty()
    } else {
        refusing(
            refused(s, answers.drop_last()),
            run(s, answers.drop_last()),
            answers.last(),
        )
    }
}

/// Whether `q` is watched for everything, or was refused.
pub open spec fn is_tried(
    table: TableView,
    refused: Set<Seq<Seq<u8>>>,
    q: Seq<Seq<u8>>,
) -> bool {
    holds(table, q, FULL_MASK) || refused.contains(q)
}

/// Whether a path that appeared is watched for everything, or was refused. The directory that a
/// file without hard links is in may see it instead.
pub open spec fn is_single_tried(
    table: TableView,
    refused: Set<Seq<Seq<u8>>>,
    add: AddView,
) -> bool {
    is_tried(table, refused, add.path) || (add.is_file_without_hardlinks && is_seen(
        table,
        add.path,
    ))
}

/// The directories that a walk watched: all that it named, but the one at which it was stopped.
pub open spec fn watched_dirs(walk: Walk) -> Seq<Seq<Seq<u8>>> {
    if walk.over {
        walk.dirs
    } else {
        walk.dirs.drop_last()
    }
}

/// Whether the tree at `paths[0]` was walked until no directory was left or one was refused, every
/// directory until there is watched for everything, and is so under the other spellings too, or was
/// refused there.
pub open spec fn is_tree_tried(
    table: TableView,
    walk: Walk,
    refused: Set<Seq<Seq<u8>>>,
    paths: Seq<Seq<Seq<u8>>>,
) -> bool {
    let dirs = watched_dirs(walk);
    &&& walk.path == paths[0]
    &&& walk.over || (walk.dirs.len() > 0 && refused.contains(walk.dirs.last()))
    &&& is_held(table, dirs, false)
    &&& forall|j: int, k: int|
        #![trigger paths[j], dirs[k]]
        1 <= j < paths.len() && 0 <= k < dirs.len() && path::starts_with(dirs[k], paths[0])
            ==> is_tried(table, refused, paths[j] + dirs[k].skip(paths[0].len() as int))
}

/// The same of one of the first `n` walks, if there is a tree.
pub open spec fn is_tree_tried_by(
    table: TableView,
    walks: Seq<Walk>,
    n: int,
    refused: Set<Seq<Seq<u8>>>,
    paths: Seq<Seq<Seq<u8>>>,
) -> bool {
    paths.len() == 0 || exists|m: int|
        0 <= m < n && is_tree_tried(table, #[trigger] walks[m], refused, paths)
}

/// Whether an entry that appeared is watched under each of its spellings, or was refused there.
pub open spec fn is_entry_tried(
    table: TableView,
    walks: Seq<Walk>,
    n: int,
    refused: Set<Seq<Seq<u8>>>,
    entry: Seq<AddView>,
) -> bool {
    &&& is_tree_tried_by(table, walks, n, refused, task::recursive_paths(entry))
    &&& forall|i: int|
        0 <= i < task::single_adds(entry).len() ==> is_single_tried(
            table,
            refused,
            #[trigger] task::single_adds(entry)[i],
        )
}

proof fn lemma_tried(
    a: TableView,
    b: TableView,
    before: Set<Seq<Seq<u8>>>,
    after: Set<Seq<Seq<u8>>>,
    q: Seq<Seq<u8>>,
)
    requires
        widens(a, b),
        before.subset_of(after),
        is_tried(a, before, q),
    ensures
        is_tried(b, after, q),
{
    if holds(a, q, FULL_MASK) {
        lemma_holds(a, b, q, FULL_MASK);
    }
}

proof fn lemma_single_tried(
    a: TableView,
    b: TableView,
    before: Set<Seq<Seq<u8>>>,
    after: Set<Seq<Seq<u8>>>,
    add: AddView,
)
    requires
        widens(a, b),
        before.subset_of(after),
        is_single_tried(a, before, add),
    ensures
        is_single_tried(b, after, add),
{
    if is_tried(a, before, add.path) {
        lemma_tried(a, b, before, after, add.path);
    } else {
        lemma_holds(a, b, add.path.drop_last(), FULL_MASK);
    }
}

proof fn lemma_tree_tried(
    a: TableView,
    b: TableView,
    walk: Walk,
    before: Set<Seq<Seq<u8>>>,
    after: Set<Seq<Seq<u8>>>,
    paths: Seq<Seq<Seq<u8>>>,
)
    requires
        widens(a, b),
        before.subset_of(after),
        is_tree_tried(a, walk, before, paths),
    ensures
        is_tree_tried(b, walk, after, paths),
{
    let dirs = watched_dirs(walk);
    lemma_held(a, b, dirs, false);
    assert forall|j: int, k: int|
        #![trigger paths[j], dirs[k]]
        1 <= j < paths.len() && 0 <= k < dirs.len() && path::starts_with(
            dirs[k],
            paths[0],
        ) implies is_tried(b, after, paths[j] + dirs[k].skip(paths[0].len() as int)) by {
        lemma_tried(a, b, before, after, paths[j] + dirs[k].skip(paths[0].len() as int));
    }
}

proof fn lemma_tree_tried_by(
    a: TableView,
    b: TableView,
    walks: Seq<Walk>,
    more: Seq<Walk>,
    n: int,
    before: Set<Seq<Seq<u8>>>,
    after: Set<Seq<Seq<u8>>>,
    paths: Seq<Seq<Seq<u8>>>,
)
    requires
        widens(a, b),
        before.subset_of(after),
        0 <= n <= walks.len(),
        n <= more.len(),
        more.take(n) == walks.take(n),
        is_tree_tried_by(a, walks, n, before, paths),
    ensures
        is_tree_tried_by(b, more, n, after, paths),
{
    if paths.len() > 0 {
        let m = choose|m: int|
            0 <= m < n && is_tree_tried(a, #[trigger] walks[m], before, paths);
        assert(more[m] == more.take(n)[m]);
        assert(walks[m] == walks.take(n)[m]);
        lemma_tree_tried(a, b, walks[m], before, after, paths);
        assert(is_tree_tried(b, more[m], after, paths));
    }
}

proof fn lemma_entry_tried(
    a: TableView,
    b: TableView,
    walks: Seq<Walk>,
    more: Seq<Walk>,
    n: int,
    before: Set<Seq<Seq<u8>>>,
    after: Set<Seq<Seq<u8>>>,
    entry: Seq<AddView>,
)
    requires
        widens(a, b),
        before.subset_of(after),
        0 <= n <= walks.len(),
        n <= more.len(),
        more.take(n) == walks.take(n),
        is_entry_tried(a, walks, n, before, entry),
    ensures
        is_entry_tried(b, more, n, after, entry),
{
    let single = task::single_adds(entry);
    lemma_tree_tried_by(a, b, walks, more, n, before, after, task::recursive_paths(entry));
    assert forall|i: int| 0 <= i < single.len() implies is_single_tried(
        b,
        after,
        #[trigger] single[i],
    ) by {
        lemma_single_tried(a, b, before, after, single[i]);
    }
}

/// [`is_adding`], and when it fails `q` was refused.
spec fn is_trying(
    x: LoopView,
    n: int,
    q: Seq<Seq<u8>>,
    single: bool,
    refused: Set<Seq<Seq<u8>>>,
) -> bool {
    &&& is_adding(x, n, q, FULL_MASK, single)
    &&& x.tasks.len() <= n && x.outcome is Failed ==> refused.contains(q)
    &&& x.tasks.len() > n && x.tasks[n] is Fail ==> refused.contains(q)
}

proof fn lemma_trying_step(
    x: LoopView,
    n: int,
    q: Seq<Seq<u8>>,
    single: bool,
    refused: Set<Seq<Seq<u8>>>,
    walks: Seq<Walk>,
    answer: AnswerView,
)
    requires
        n >= 0,
        is_trying(x, n, q, single, refused),
        x.tasks.len() > n,
        is_answered(x, answer),
    ensures
        is_trying(x.step(answer).0, n, q, single, refusing(refused, x, answer)),
        widens(x.table(), x.step(answer).0.table()),
        x.step(answer).0.tasks.len() >= n,
        x.step(answer).0.tasks.take(n) == x.tasks.take(n),
        x.step(answer).0.reading.reports == x.reading.reports,
        followed(walks, x, answer) == walks,
        refused.subset_of(refusing(refused, x, answer)),
{
    let r = x.step(answer).0;
    lemma_adding_step(x, n, q, FULL_MASK, single, answer);
    lemma_step(x, answer);
    if x.tasks.len() > n + 1 {
        assert(is_syncing(x.tasks[x.tasks.len() - 1]));
        assert(r.tasks[n] == r.tasks.take(x.popped().tasks.len() as int)[n]);
        assert(x.popped().tasks[n] == x.tasks[n]);
    } else {
        assert(x.tasks.last() == x.tasks[n]);
        reveal(LoopView::sync);
        reveal(LoopView::sync_through);
        reveal(LoopView::sync_looked);
        reveal(LoopView::sync_added);
        reveal(LoopView::add);
        reveal(LoopView::added);
        reveal(LoopView::record);
        reveal(LoopView::record_looked);
        reveal(LoopView::bound_to);
    }
    lemma_asks_no_walk(x, answer);
}

/// How the tree at `root` is walked by the task at `n`, and what comes of it.
spec fn is_touring(
    x: LoopView,
    n: int,
    root: Seq<Seq<u8>>,
    walks: Seq<Walk>,
    refused: Set<Seq<Seq<u8>>>,
) -> bool {
    &&& is_walking(x, n, root, false, walks)
    &&& x.tasks.len() <= n && x.outcome is Failed ==> refused.contains(walks.last().dirs.last())
        && !walks.last().over
    &&& x.tasks.len() > n && x.tasks[n] is WalkAdded ==> is_trying(
        x,
        n + 1,
        x.tasks[n]->WalkAdded_dir,
        false,
        refused,
    ) && !walks.last().over
    &&& x.tasks.len() > n && x.tasks[n] is WalkFound ==> !walks.last().over
}

proof fn lemma_touring_step(
    x: LoopView,
    n: int,
    root: Seq<Seq<u8>>,
    walks: Seq<Walk>,
    refused: Set<Seq<Seq<u8>>>,
    over: int,
    answer: AnswerView,
)
    requires
        n >= 0,
        is_touring(x, n, root, walks, refused),
        x.tasks.len() > n,
        is_answered(x, answer),
        0 <= over <= walks.len(),
        !(x.tasks[n] is Walk) ==> over < walks.len(),
    ensures
        is_touring(
            x.step(answer).0,
            n,
            root,
            followed(walks, x, answer),
            refusing(refused, x, answer),
        ),
        widens(x.table(), x.step(answer).0.table()),
        x.step(answer).0.tasks.len() >= n,
        x.step(answer).0.tasks.take(n) == x.tasks.take(n),
        x.step(answer).0.reading.reports == x.reading.reports,
        over < followed(walks, x, answer).len(),
        followed(walks, x, answer).take(over) == walks.take(over),
        refused.subset_of(refusing(refused, x, answer)),
        x.step(answer).0.tasks.len() > n ==> !(x.step(answer).0.tasks[n] is Walk),
{
    let r = x.step(answer).0;
    let after = followed(walks, x, answer);
    lemma_walking_step(x, n, root, false, walks, answer);
    lemma_step(x, answer);
    if x.tasks.len() > n + 1 {
        let dir = x.tasks[n]->WalkAdded_dir;
        lemma_trying_step(x, n + 1, dir, false, refused, walks, answer);
        assert(r.tasks[n] == r.tasks.take(n + 1)[n]);
        assert(x.tasks[n] == x.tasks.take(n + 1)[n]);
    } else {
        assert(x.tasks.last() == x.tasks[n]);
        reveal(LoopView::walk);
        reveal(LoopView::walk_found);
        reveal(LoopView::walk_added);
        if let Task::WalkFound { dirs, .. } = x.tasks[n] {
            if let Some(dir) = answer.entry() {
                assert(after.last().dirs == dirs.push(dir));
            }
        }
    }
    assert(after.take(over) =~= walks.take(over));
}

/// How the directories that the last walk watched are bound under the other spellings of `paths` by
/// the task at `n`.
spec fn is_binding(
    x: LoopView,
    n: int,
    paths: Seq<Seq<Seq<u8>>>,
    walks: Seq<Walk>,
    refused: Set<Seq<Seq<u8>>>,
) -> bool {
    let walk = walks.last();
    let dirs = watched_dirs(walk);
    &&& walks.len() > 0 && paths.len() > 0
    &&& walk.path == paths[0]
    &&& walk.over || (walk.dirs.len() > 0 && refused.contains(walk.dirs.last()))
    &&& is_held(x.table(), dirs, false)
    &&& if x.tasks.len() <= n {
        x.tasks.len() == n && !(x.outcome is Failed) && are_bound(
            x.table(),
            refused,
            paths,
            dirs,
            paths.len() as int,
            0,
        )
    } else {
        &&& x.tasks[n] matches Task::Bind { walked, dirs: d, paths: rest, i } && {
            let j = paths.len() - rest.len();
            &&& walked == paths[0] && d == dirs && i <= dirs.len()
            &&& 1 <= j && rest == paths.skip(j)
            &&& if x.tasks.len() == n + 1 {
                are_bound(x.table(), refused, paths, dirs, j, i as int)
            } else {
                &&& i > 0 && j < paths.len()
                &&& are_bound(x.table(), refused, paths, dirs, j, i - 1)
                &&& is_trying(
                    x,
                    n + 1,
                    paths[j] + dirs[i - 1].skip(paths[0].len() as int),
                    false,
                    refused,
                )
            }
        }
    }
}

/// Whether the directories are bound under the spellings from the second to the one before `j`, and
/// the first `i` of them under the one at `j`.
spec fn are_bound(
    table: TableView,
    refused: Set<Seq<Seq<u8>>>,
    paths: Seq<Seq<Seq<u8>>>,
    dirs: Seq<Seq<Seq<u8>>>,
    j: int,
    i: int,
) -> bool {
    forall|b: int, k: int|
        #![trigger paths[b], dirs[k]]
        1 <= b < paths.len() && 0 <= k < dirs.len() && (b < j || (b == j && k < i))
            && path::starts_with(dirs[k], paths[0]) ==> is_tried(
            table,
            refused,
            paths[b] + dirs[k].skip(paths[0].len() as int),
        )
}

proof fn lemma_bound(
    a: TableView,
    b: TableView,
    before: Set<Seq<Seq<u8>>>,
    after: Set<Seq<Seq<u8>>>,
    paths: Seq<Seq<Seq<u8>>>,
    dirs: Seq<Seq<Seq<u8>>>,
    j: int,
    i: int,
)
    requires
        widens(a, b),
        before.subset_of(after),
        are_bound(a, before, paths, dirs, j, i),
    ensures
        are_bound(b, after, paths, dirs, j, i),
{
    assert forall|c: int, k: int|
        #![trigger paths[c], dirs[k]]
        1 <= c < paths.len() && 0 <= k < dirs.len() && (c < j || (c == j && k < i))
            && path::starts_with(dirs[k], paths[0]) implies is_tried(
        b,
        after,
        paths[c] + dirs[k].skip(paths[0].len() as int),
    ) by {
        lemma_tried(a, b, before, after, paths[c] + dirs[k].skip(paths[0].len() as int));
    }
}

proof fn lemma_binding_step(
    x: LoopView,
    n: int,
    paths: Seq<Seq<Seq<u8>>>,
    walks: Seq<Walk>,
    refused: Set<Seq<Seq<u8>>>,
    answer: AnswerView,
)
    requires
        n >= 0,
        is_binding(x, n, paths, walks, refused),
        x.tasks.len() > n,
        is_answered(x, answer),
        walks.last().dirs.len() <= usize::MAX,
    ensures
        is_binding(x.step(answer).0, n, paths, walks, refusing(refused, x, answer)),
        widens(x.table(), x.step(answer).0.table()),
        x.step(answer).0.tasks.len() >= n,
        x.step(answer).0.tasks.take(n) == x.tasks.take(n),
        x.step(answer).0.reading.reports == x.reading.reports,
        followed(walks, x, answer) == walks,
        refused.subset_of(refusing(refused, x, answer)),
{
    let r = x.step(answer).0;
    let after = refusing(refused, x, answer);
    let dirs = watched_dirs(walks.last());
    let rest = x.tasks[n]->Bind_paths;
    let i = x.tasks[n]->Bind_i;
    let j = paths.len() - rest.len();
    lemma_step(x, answer);
    if x.tasks.len() > n + 1 {
        let q = paths[j] + dirs[i - 1].skip(paths[0].len() as int);
        lemma_trying_step(x, n + 1, q, false, refused, walks, answer);
        lemma_held(x.table(), r.table(), dirs, false);
        lemma_bound(x.table(), r.table(), refused, after, paths, dirs, j, i - 1);
        assert(r.tasks[n] == r.tasks.take(n + 1)[n]);
        assert(x.tasks[n] == x.tasks.take(n + 1)[n]);
        assert(r.tasks.take(n) =~= r.tasks.take(n + 1).take(n));
        assert(x.tasks.take(n) =~= x.tasks.take(n + 1).take(n));
        if r.tasks.len() == n + 1 {
            assert(is_tried(r.table(), after, q));
            assert(are_bound(r.table(), after, paths, dirs, j, i as int)) by {
                assert forall|c: int, k: int|
                    #![trigger paths[c], dirs[k]]
                    1 <= c < paths.len() && 0 <= k < dirs.len() && (c < j || (c == j && k < i))
                        && path::starts_with(dirs[k], paths[0]) implies is_tried(
                    r.table(),
                    after,
                    paths[c] + dirs[k].skip(paths[0].len() as int),
                ) by {
                    if c == j && k == i - 1 {
                        assert(paths[c] + dirs[k].skip(paths[0].len() as int) == q);
                    }
                }
            }
        }
    } else {
        assert(x.tasks.last() == x.tasks[n]);
        assert(x.popped().tasks =~= x.tasks.take(n));
        reveal(LoopView::bind);
        lemma_widens(x.table(), x.table(), x.table());
        assert(after == refused);
        assert(r.tasks.take(n) =~= x.tasks.take(n));
        if rest.len() > 0 {
            assert(rest[0] == paths[j]);
            if i >= dirs.len() {
                assert(rest.drop_first() =~= paths.skip(j + 1));
                assert(are_bound(x.table(), refused, paths, dirs, j + 1, 0));
            } else {
                let dir = dirs[i as int];
                let q = paths[j] + dir.skip(paths[0].len() as int);
                assert(holds(x.table(), dir, FULL_MASK));
                let existing = x.table().handle_at(q);
                if let Some(handle) = existing {
                    lemma_has(handle.mask, FULL_MASK, 0);
                } else {
                    lemma_has(FULL_MASK, 0, 0);
                }
                if r.tasks.len() == n + 1 {
                    assert(are_bound(x.table(), refused, paths, dirs, j, i + 1)) by {
                        assert forall|c: int, k: int|
                            #![trigger paths[c], dirs[k]]
                            1 <= c < paths.len() && 0 <= k < dirs.len() && (c < j || (c == j && k
                                < i + 1)) && path::starts_with(
                                dirs[k],
                                paths[0],
                            ) implies is_tried(
                            x.table(),
                            refused,
                            paths[c] + dirs[k].skip(paths[0].len() as int),
                        ) by {
                            if c == j && k == i {
                                assert(paths[c] + dirs[k].skip(paths[0].len() as int) == q);
                            }
                        }
                    }
                } else {
                    assert(r.tasks.last() == r.tasks[n + 1]);
                    assert(is_adding(r, n + 1, q, FULL_MASK, false));
                }
            }
        }
    }
}

/// How an entry that appeared is watched by the task at `n`, and what comes of it.
spec fn is_entering(
    x: LoopView,
    n: int,
    entry: Seq<AddView>,
    walks: Seq<Walk>,
    refused: Set<Seq<Seq<u8>>>,
) -> bool {
    let paths = task::recursive_paths(entry);
    let all = task::single_adds(entry);
    let m = walks.len() as int;
    if x.tasks.len() <= n {
        x.tasks.len() == n && (task::table_full(x.outcome) || is_entry_tried(
            x.table(),
            walks,
            m,
            refused,
            entry,
        ))
    } else if x.tasks.len() > n + 1 && x.tasks[n + 1] is Bind {
        &&& is_binding(x, n + 1, paths, walks, refused)
        &&& match x.tasks[n] {
            Task::Single { single } => single == all,
            Task::Fail { error } => error.kind == ErrorKind::MaxFilesWatch,
            _ => false,
        }
    } else {
        match x.tasks[n] {
            Task::Entry { paths: p, single } => x.tasks.len() == n + 1 && p == paths && single
                == all,
            Task::EntryWalked { walked, paths: rest, single } => {
                &&& paths.len() > 0 && walked == paths[0] && rest == paths.drop_first()
                &&& single == all
                &&& is_touring(x, n + 1, walked, walks, refused)
            },
            Task::Single { single } => {
                let k = all.len() - single.len();
                &&& x.tasks.len() == n + 1
                &&& 0 <= k && single == all.skip(k)
                &&& is_tree_tried_by(x.table(), walks, m, refused, paths)
                &&& are_tried(x.table(), refused, all, k)
            },
            Task::SingleAdded { single } => {
                let k = all.len() - single.len();
                &&& 1 <= k && single == all.skip(k)
                &&& is_tree_tried_by(x.table(), walks, m, refused, paths)
                &&& are_tried(x.table(), refused, all, k - 1)
                &&& is_trying(
                    x,
                    n + 1,
                    all[k - 1].path,
                    all[k - 1].is_file_without_hardlinks,
                    refused,
                )
            },
            Task::Fail { error } => x.tasks.len() == n + 1 && error.kind
                == ErrorKind::MaxFilesWatch,
            _ => false,
        }
    }
}

/// Whether the first `k` of the paths that appeared are watched, or were refused.
spec fn are_tried(
    table: TableView,
    refused: Set<Seq<Seq<u8>>>,
    adds: Seq<AddView>,
    k: int,
) -> bool {
    forall|i: int| 0 <= i < k ==> is_single_tried(table, refused, #[trigger] adds[i])
}

/// Whether the last walk goes on.
spec fn is_on_tour(x: LoopView, n: int) -> bool {
    x.tasks.len() > n + 1 && x.tasks[n] is EntryWalked && !(x.tasks[n + 1] is Walk)
}

proof fn lemma_entering_step(
    x: LoopView,
    n: int,
    entry: Seq<AddView>,
    walks: Seq<Walk>,
    refused: Set<Seq<Seq<u8>>>,
    over: int,
    answer: AnswerView,
)
    requires
        n >= 0,
        is_entering(x, n, entry, walks, refused),
        x.tasks.len() > n,
        is_answered(x, answer),
        0 <= over <= walks.len(),
        is_on_tour(x, n) ==> over < walks.len(),
        walks.len() > 0 ==> walks.last().dirs.len() <= usize::MAX,
    ensures
        is_entering(
            x.step(answer).0,
            n,
            entry,
            followed(walks, x, answer),
            refusing(refused, x, answer),
        ),
        widens(x.table(), x.step(answer).0.table()),
        x.step(answer).0.tasks.len() >= n,
        x.step(answer).0.tasks.take(n) == x.tasks.take(n),
        x.step(answer).0.reading.reports == x.reading.reports,
        over <= followed(walks, x, answer).len(),
        followed(walks, x, answer).take(over) == walks.take(over),
        refused.subset_of(refusing(refused, x, answer)),
        is_on_tour(x.step(answer).0, n) ==> over < followed(walks, x, answer).len(),
{
    let r = x.step(answer).0;
    let paths = task::recursive_paths(entry);
    let all = task::single_adds(entry);
    let m = walks.len() as int;
    let after = refusing(refused, x, answer);
    let t = x.table();
    lemma_step(x, answer);
    lemma_widens(t, t, t);
    if x.tasks.len() > n + 1 {
        if x.tasks[n + 1] is Bind {
            lemma_binding_step(x, n + 1, paths, walks, refused, answer);
        } else if let Task::EntryWalked { walked, .. } = x.tasks[n] {
            lemma_touring_step(x, n + 1, walked, walks, refused, over, answer);
        } else {
            let k = all.len() - x.tasks[n]->SingleAdded_single.len();
            lemma_trying_step(
                x,
                n + 1,
                all[k - 1].path,
                all[k - 1].is_file_without_hardlinks,
                refused,
                walks,
                answer,
            );
            lemma_tree_tried_by(t, r.table(), walks, walks, m, refused, after, paths);
            assert forall|i: int| 0 <= i < k - 1 implies is_single_tried(
                r.table(),
                after,
                #[trigger] all[i],
            ) by {
                lemma_single_tried(t, r.table(), refused, after, all[i]);
            }
            if r.tasks.len() > n + 1 {
                assert(!(r.tasks[n + 1] is Bind));
            }
        }
        assert(r.tasks[n] == r.tasks.take(n + 1)[n]);
        assert(x.tasks[n] == x.tasks.take(n + 1)[n]);
        assert(r.tasks.take(n) =~= r.tasks.take(n + 1).take(n));
        assert(x.tasks.take(n) =~= x.tasks.take(n + 1).take(n));
        if x.tasks[n + 1] is Bind && r.tasks.len() == n + 1 {
            let dirs = watched_dirs(walks.last());
            assert(is_tree_tried(r.table(), walks[m - 1], after, paths));
            assert(all.skip(0) =~= all);
        }
        if x.tasks[n + 1] is Bind && r.tasks.len() > n + 1 {
            assert(r.tasks[n + 1] is Bind);
        }
    } else {
        assert(x.tasks.last() == x.tasks[n]);
        assert(x.popped().tasks =~= x.tasks.take(n));
        assert(after == refused);
        match x.tasks[n] {
            Task::Entry { .. } => {
                reveal(LoopView::entry);
                assert(all.skip(0) =~= all);
            },
            Task::EntryWalked { .. } => {
                reveal(LoopView::entry_walked);
                let rest = paths.drop_first();
                assert(rest =~= paths.skip(1));
                assert(are_bound(t, refused, paths, watched_dirs(walks.last()), 1, 0));
            },
            Task::Single { single } => {
                reveal(LoopView::single);
                let k = all.len() - single.len();
                if single.len() > 0 {
                    assert(single.drop_first() =~= all.skip(k + 1));
                    assert(single[0] == all[k]);
                    assert(r.tasks.last() == r.tasks[n + 1]);
                }
            },
            Task::SingleAdded { single } => {
                reveal(LoopView::single_added);
                let k = all.len() - single.len();
                if !task::table_full(x.outcome) {
                    assert(is_single_tried(t, refused, all[k - 1]));
                }
            },
            _ => {},
        }
        assert(r.tasks.take(n) =~= x.tasks.take(n));
    }
}

/// Whether a full watch table stopped the entries, and was reported.
pub open spec fn is_stopped(before: Seq<ReportView>, after: Seq<ReportView>) -> bool {
    &&& after.len() == before.len() + 1
    &&& after.take(before.len() as int) == before
    &&& after.last() matches ReportView::Error(error) && error.kind == ErrorKind::MaxFilesWatch
}

/// How the entries that appeared are watched: the first `d` are done, and the first `over` walks.
spec fn is_watching_entries(
    s: LoopView,
    entries: Seq<Seq<AddView>>,
    x: LoopView,
    walks: Seq<Walk>,
    refused: Set<Seq<Seq<u8>>>,
    d: int,
    over: int,
) -> bool {
    let t = s.tasks.len() as int;
    &&& 0 <= over <= walks.len() && 0 <= d <= entries.len()
    &&& forall|i: int|
        0 <= i < d ==> is_entry_tried(x.table(), walks, over, refused, #[trigger] entries[i])
    &&& if x.tasks.len() <= t {
        x.tasks.len() == t && (is_stopped(s.reading.reports, x.reading.reports) || (
        x.reading.reports == s.reading.reports && d == entries.len()))
    } else {
        &&& x.reading.reports == s.reading.reports
        &&& match x.tasks[t] {
            Task::AddAll { entries: rest } => x.tasks.len() == t + 1 && rest == entries.skip(d),
            Task::AddAllEnded { entries: rest } => {
                &&& d < entries.len() && rest == entries.skip(d + 1)
                &&& is_entering(x, t + 1, entries[d], walks, refused)
                &&& is_on_tour(x, t + 1) ==> over < walks.len()
            },
            _ => false,
        }
    }
}

proof fn lemma_watching_entries_step(
    s: LoopView,
    entries: Seq<Seq<AddView>>,
    x: LoopView,
    walks: Seq<Walk>,
    refused: Set<Seq<Seq<u8>>>,
    d: int,
    over: int,
    answer: AnswerView,
)
    requires
        is_watching_entries(s, entries, x, walks, refused, d, over),
        x.tasks.len() > s.tasks.len(),
        is_answered(x, answer),
        walks.len() > 0 ==> walks.last().dirs.len() <= usize::MAX,
    ensures
        exists|e: int, o: int| #[trigger]
            is_watching_entries(
                s,
                entries,
                x.step(answer).0,
                followed(walks, x, answer),
                refusing(refused, x, answer),
                e,
                o,
            ),
{
    let t = s.tasks.len() as int;
    let r = x.step(answer).0;
    let more = followed(walks, x, answer);
    let after = refusing(refused, x, answer);
    if x.tasks.len() > t + 1 {
        lemma_entering_step(x, t + 1, entries[d], walks, refused, over, answer);
        assert(r.tasks[t] == r.tasks.take(t + 1)[t]);
        assert(x.tasks[t] == x.tasks.take(t + 1)[t]);
        assert forall|i: int| 0 <= i < d implies is_entry_tried(
            r.table(),
            more,
            over,
            after,
            #[trigger] entries[i],
        ) by {
            lemma_entry_tried(
                x.table(),
                r.table(),
                walks,
                more,
                over,
                refused,
                after,
                entries[i],
            );
        }
        assert(is_watching_entries(s, entries, r, more, after, d, over));
    } else {
        assert(x.tasks.last() == x.tasks[t]);
        assert(x.popped().tasks =~= x.tasks.take(t));
        reveal(LoopView::add_all);
        reveal(LoopView::add_all_ended);
        assert(more == walks && after == refused);
        if let Task::AddAll { entries: rest } = x.tasks[t] {
            if rest.len() > 0 {
                assert(rest.drop_first() =~= entries.skip(d + 1));
                assert(rest[0] == entries[d]);
            }
            assert(is_watching_entries(s, entries, r, more, after, d, over));
        } else if task::table_full(x.outcome) {
            assert(r.reading.reports.take(s.reading.reports.len() as int)
                =~= s.reading.reports);
            assert(is_watching_entries(s, entries, r, more, after, d, over));
        } else {
            let o = walks.len() as int;
            let t = x.table();
            lemma_widens(t, t, t);
            assert forall|i: int| 0 <= i < d + 1 implies is_entry_tried(
                t,
                walks,
                o,
                refused,
                #[trigger] entries[i],
            ) by {
                if i < d {
                    let paths = task::recursive_paths(entries[i]);
                    assert(is_entry_tried(t, walks, over, refused, entries[i]));
                    if paths.len() > 0 {
                        let m = choose|m: int|
                            0 <= m < over && is_tree_tried(t, #[trigger] walks[m], refused, paths);
                        assert(is_tree_tried(t, walks[m], refused, paths));
                    }
                }
            }
            assert(is_watching_entries(s, entries, r, more, after, d + 1, o));
        }
    }
}

proof fn lemma_walk_is_short(s: LoopView, answers: Seq<AnswerView>)
    ensures
        forall|i: int|
            0 <= i < walks(s, answers).len() ==> (#[trigger] walks(s, answers)[i]).dirs.len()
                <= answers.len(),
    decreases answers.len(),
{
    if answers.len() > 0 {
        lemma_walk_is_short(s, answers.drop_last());
        let before = walks(s, answers.drop_last());
        let after = walks(s, answers);
        assert forall|i: int| 0 <= i < after.len() implies (#[trigger] after[i]).dirs.len()
            <= answers.len() by {
            if i < before.len() {
                assert(before[i].dirs.len() <= answers.len() - 1);
            }
        }
    }
}

proof fn lemma_watching_entries(
    s: LoopView,
    entries: Seq<Seq<AddView>>,
    answers: Seq<AnswerView>,
)
    requires
        is_busy(s.push(Task::AddAll { entries }), answers, s.tasks.len()),
        is_open(s.push(Task::AddAll { entries }), answers),
        answers.len() <= usize::MAX,
    ensures
        exists|d: int, over: int| #[trigger]
            is_watching_entries(
                s,
                entries,
                run(s.push(Task::AddAll { entries }), answers),
                walks(s.push(Task::AddAll { entries }), answers),
                refused(s.push(Task::AddAll { entries }), answers),
                d,
                over,
            ),
    decreases answers.len(),
{
    let start = s.push(Task::AddAll { entries });
    if answers.len() == 0 {
        assert(entries.skip(0) =~= entries);
        assert(is_watching_entries(
            s,
            entries,
            run(start, answers),
            walks(start, answers),
            refused(start, answers),
            0,
            0,
        ));
    } else {
        let before = answers.drop_last();
        lemma_busy(start, answers, s.tasks.len());
        lemma_open(start, answers);
        lemma_watching_entries(s, entries, before);
        lemma_walk_is_short(start, before);
        let x = run(start, before);
        let all = walks(start, before);
        let failed = refused(start, before);
        if all.len() > 0 {
            assert(all[all.len() - 1].dirs.len() <= before.len());
        }
        let (d, over) = choose|d: int, over: int| #[trigger]
            is_watching_entries(s, entries, x, all, failed, d, over);
        lemma_watching_entries_step(s, entries, x, all, failed, d, over, answers.last());
        assert(walks(start, answers) == followed(all, x, answers.last()));
        assert(refused(start, answers) == refusing(failed, x, answers.last()));
    }
}

/// Every entry that the events of a read queued is watched under each of its spellings, whatever
/// the system answers while inotify is open, unless the system refused the path or one at which the
/// walk of the tree was stopped. A full watch table is reported, and stops the entries that follow.
pub proof fn queued_entries_are_watched(
    s: LoopView,
    entries: Seq<Seq<AddView>>,
    answers: Seq<AnswerView>,
    i: int,
)
    requires
        ends(s.push(Task::AddAll { entries }), answers),
        is_open(s.push(Task::AddAll { entries }), answers),
        answers.len() <= usize::MAX,
        0 <= i < entries.len(),
    ensures
        ({
            let start = s.push(Task::AddAll { entries });
            let end = run(start, answers);
            is_stopped(s.reading.reports, end.reading.reports) || (end.reading.reports
                == s.reading.reports && is_entry_tried(
                end.table(),
                walks(start, answers),
                walks(start, answers).len() as int,
                refused(start, answers),
                entries[i],
            ))
        }),
{
    let start = s.push(Task::AddAll { entries });
    let end = run(start, answers);
    let all = walks(start, answers);
    let failed = refused(start, answers);
    assert(start.popped().tasks =~= s.tasks);
    lemma_watching_entries(s, entries, answers);
    let (d, over) = choose|d: int, over: int| #[trigger]
        is_watching_entries(s, entries, end, all, failed, d, over);
    if !is_stopped(s.reading.reports, end.reading.reports) {
        let paths = task::recursive_paths(entries[i]);
        assert(is_entry_tried(end.table(), all, over, failed, entries[i]));
        if paths.len() > 0 {
            let m = choose|m: int|
                0 <= m < over && is_tree_tried(end.table(), #[trigger] all[m], failed, paths);
            assert(is_tree_tried(end.table(), all[m], failed, paths));
        }
    }
}

} // verus!
