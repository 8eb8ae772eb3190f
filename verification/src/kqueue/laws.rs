//! What holds of the event loop as a whole.

use crate::config::WatchMode;
use crate::error::{ErrorKind, ErrorView, ENOENT};
use crate::event::{
    DataChange, EventKind, EventView, MetadataKind, ModifyKind, RemoveKind, RenameMode,
};
use crate::kqueue::step_laws;
use crate::kqueue::task;
use crate::kqueue::task::{AnswerView, LoopView, Request, RequestView, Task, TaskView, Vnode};
use crate::outcome::Outcome;
use crate::path;
use crate::path_map;
use crate::report::ReportView;
use crate::root;
use crate::root::{RootState, RootWatch};
use vstd::prelude::*;

verus! {

/// Whether a task leaves the roots and what is reported alone.
pub open spec fn is_quiet(task: TaskView) -> bool {
    task::is_handle_task(task) || task::is_arm_task(task) || task is UntrackEach
}

/// Whether a task leaves the paths that are watched, and their modes, alone.
pub open spec fn is_mild(task: TaskView) -> bool {
    is_quiet(task) || task::is_ancestor_task(task) || task::is_register_task(task)
}

/// Whether a task leaves what the batch found alone.
pub open spec fn is_preparing(task: TaskView) -> bool {
    is_mild(task) || task is StaleEach
}

/// Whether a task goes on with an arm that has begun: it closes no handle.
pub open spec fn is_arming(task: TaskView) -> bool {
    match task {
        Task::AddSingle { .. } => true,
        Task::AddSingleAnswered { .. } => true,
        Task::Watch { .. } => true,
        Task::DirAdded { .. } => true,
        Task::DirListed => true,
        Task::AddEach { .. } => true,
        Task::AddEachAdded { .. } => true,
        Task::WalkFound => true,
        Task::WalkAdded => true,
        Task::Chain { .. } => true,
        Task::ChainLooked { .. } => true,
        Task::ChainAdded { .. } => true,
        Task::ArmRoot { .. } => true,
        Task::ArmReached { .. } => true,
        Task::ArmLooked { .. } => true,
        Task::ArmAdded { .. } => true,
        _ => false,
    }
}

/// The tasks of `s` are still to be done.
pub open spec fn keeps_tasks(s: LoopView, r: LoopView) -> bool {
    s.tasks.len() <= r.tasks.len() && r.tasks.take(s.tasks.len() as int) == s.tasks
}

/// The tasks of `r` that `s` has not are all of a kind.
pub open spec fn adds_only(s: LoopView, r: LoopView, kind: spec_fn(TaskView) -> bool) -> bool {
    forall|i: int| s.tasks.len() <= i < r.tasks.len() ==> kind(#[trigger] r.tasks[i])
}

/// The same paths are watched, in the same modes.
pub open spec fn same_modes(
    a: Map<Seq<Seq<u8>>, RootWatch>,
    b: Map<Seq<Seq<u8>>, RootWatch>,
) -> bool {
    &&& a.dom() == b.dom()
    &&& forall|p: Seq<Seq<u8>>| #[trigger] a.contains_key(p) ==> a[p].mode == b[p].mode
}

/// What every step keeps.
pub open spec fn is_sound(s: LoopView, task: TaskView, r: LoopView) -> bool {
    &&& keeps_tasks(s, r)
    &&& is_quiet(task) ==> r.roots == s.roots && r.reports == s.reports && adds_only(
        s,
        r,
        |t: TaskView| is_quiet(t),
    )
    &&& is_mild(task) ==> same_modes(s.roots, r.roots) && adds_only(s, r, |t: TaskView| is_mild(t))
    &&& is_preparing(task) ==> r.batch == s.batch && adds_only(
        s,
        r,
        |t: TaskView| is_preparing(t),
    )
    &&& is_arming(task) ==> adds_only(s, r, |t: TaskView| is_arming(t)) && s.handles.dom().subset_of(
        r.handles.dom(),
    ) && (s.handles.dom().finite() ==> r.handles.dom().finite())
}

/// What a step does to the handles: one is held once the system has opened it, and no longer once
/// the system is asked to close it. Only the last task waits for one to be opened.
pub open spec fn is_followed(
    s: LoopView,
    task: TaskView,
    answer: AnswerView,
    r: LoopView,
    request: RequestView,
) -> bool {
    &&& forall|i: int|
        s.tasks.len() <= i < r.tasks.len() - 1 ==> !(#[trigger] r.tasks[i] is AddSingleAnswered)
    &&& r.tasks.len() > s.tasks.len() && r.tasks.last() is AddSingleAnswered ==> request is Add
    &&& request matches Request::Add(p) ==> {
        &&& r.tasks.len() > s.tasks.len()
        &&& r.tasks.last() matches Task::AddSingleAnswered { path, .. } && path == p
    }
    &&& r.handles.dom() == closed(opened_by(s.handles.dom(), task, answer), request)
}

/// The handles once the answer is known.
pub open spec fn opened_by(
    open: Set<Seq<Seq<u8>>>,
    task: TaskView,
    answer: AnswerView,
) -> Set<Seq<Seq<u8>>> {
    match task {
        Task::AddSingleAnswered { path, .. } => if answer.did() is Ok {
            open.insert(path)
        } else {
            open
        },
        _ => open,
    }
}

/// The handles that the request leaves open.
pub open spec fn closed(open: Set<Seq<Seq<u8>>>, request: RequestView) -> Set<Seq<Seq<u8>>> {
    match request {
        Request::Remove(p) => open.remove(p),
        _ => open,
    }
}

proof fn lemma_in_state(
    roots: Map<Seq<Seq<u8>>, RootWatch>,
    p: Seq<Seq<u8>>,
    state: RootState,
)
    ensures
        same_modes(roots, root::in_state(roots, p, state)),
{
    assert(root::in_state(roots, p, state).dom() =~= roots.dom());
}

proof fn lemma_all_vanished(s: LoopView, roots: Seq<Seq<Seq<u8>>>)
    ensures
        same_modes(s.roots, s.all_vanished(roots).roots),
        s.all_vanished(roots).tasks == s.tasks,
        s.all_vanished(roots).handles == s.handles,
        s.all_vanished(roots).batch == s.batch,
    decreases roots.len(),
{
    if roots.len() > 0 {
        let before = s.all_vanished(roots.drop_last());
        lemma_all_vanished(s, roots.drop_last());
        lemma_in_state(before.roots, roots.last(), RootState::Missing);
    }
}

proof fn lemma_handle(s: LoopView, task: TaskView, answer: AnswerView)
    requires
        task::is_handle_task(task),
    ensures
        is_sound(s, task, s.go_on_handle(task, answer).0),
        is_followed(
            s,
            task,
            answer,
            s.go_on_handle(task, answer).0,
            s.go_on_handle(task, answer).1,
        ),
{
    let (r, request) = s.go_on_handle(task, answer);
    match task {
        Task::Fail { .. } => {
        },
        Task::AddSingle { .. } => {
            reveal(LoopView::add_single);
        },
        Task::AddSingleAnswered { .. } => {
            reveal(LoopView::add_single_answered);
        },
        Task::RemoveSingle { .. } => {
            reveal(LoopView::remove_single);
        },
        Task::RemoveAnswered { .. } => {
            reveal(LoopView::remove_answered);
        },
        Task::RemoveEach { .. } => {
            reveal(LoopView::remove_each);
        },
        Task::ReleaseHandle { .. } => {
            reveal(LoopView::release_handle);
        },
        Task::ReleaseEach { .. } => {
            reveal(LoopView::release_each);
        },
        Task::Watch { .. } => {
            reveal(LoopView::watch);
        },
        Task::DirAdded { .. } => {
            reveal(LoopView::dir_added);
        },
        Task::DirListed => {
            reveal(LoopView::dir_listed);
        },
        Task::AddEach { .. } => {
            reveal(LoopView::add_each);
        },
        Task::AddEachAdded { .. } => {
            reveal(LoopView::add_each_added);
        },
        Task::WalkFound => {
            reveal(LoopView::walk_found);
        },
        Task::WalkAdded => {
            reveal(LoopView::walk_added);
        },
        _ => {},
    }
    assert(r.tasks.take(s.tasks.len() as int) =~= s.tasks);
    assert(r.handles.dom() =~= closed(opened_by(s.handles.dom(), task, answer), request));
}

proof fn lemma_arm(s: LoopView, task: TaskView, answer: AnswerView)
    requires
        task::is_arm_task(task),
    ensures
        is_sound(s, task, s.go_on_arm(task, answer).0),
        is_followed(
            s,
            task,
            answer,
            s.go_on_arm(task, answer).0,
            s.go_on_arm(task, answer).1,
        ),
{
    let (r, request) = s.go_on_arm(task, answer);
    match task {
        Task::Chain { .. } => {
            reveal(LoopView::chain);
        },
        Task::ChainLooked { .. } => {
            reveal(LoopView::chain_looked);
        },
        Task::ChainAdded { .. } => {
            reveal(LoopView::chain_added);
        },
        Task::ArmRoot { .. } => {
            reveal(LoopView::arm_root);
        },
        Task::ArmReached { .. } => {
            reveal(LoopView::arm_reached);
        },
        Task::ArmLooked { .. } => {
            reveal(LoopView::arm_looked);
        },
        Task::ArmAdded { .. } => {
            reveal(LoopView::arm_added);
        },
        Task::Arm { .. } => {
            reveal(LoopView::arm);
        },
        Task::ArmEnded { .. } => {
            reveal(LoopView::arm_ended);
        },
        Task::Restore { .. } => {
            reveal(LoopView::restore);
        },
        _ => {},
    }
    assert(r.tasks.take(s.tasks.len() as int) =~= s.tasks);
    assert(r.handles.dom() =~= closed(opened_by(s.handles.dom(), task, answer), request));
}

proof fn lemma_ancestor(s: LoopView, task: TaskView, answer: AnswerView)
    requires
        task::is_ancestor_task(task),
    ensures
        is_sound(s, task, s.go_on_ancestor(task, answer).0),
        is_followed(
            s,
            task,
            answer,
            s.go_on_ancestor(task, answer).0,
            s.go_on_ancestor(task, answer).1,
        ),
{
    let (r, request) = s.go_on_ancestor(task, answer);
    match task {
        Task::Rearm { .. } => {
            reveal(LoopView::rearm);
        },
        Task::RearmEnded { root } => {
            reveal(LoopView::rearm_ended);
            lemma_in_state(s.roots, root, s.outcome.state());
        },
        Task::RearmEach { .. } => {
            reveal(LoopView::rearm_each);
        },
        Task::RearmBelow { .. } => {
            reveal(LoopView::rearm_below);
        },
        Task::VanishBelow { path } => {
            reveal(LoopView::vanish_below);
            lemma_all_vanished(
                LoopView {
                    present: s.present.filter(|a: Seq<Seq<u8>>| !path::starts_with(a, path)),
                    ..s
                },
                root::tracked_roots_below(s.roots, path, false),
            );
        },
        Task::VanishEach { .. } => {
            reveal(LoopView::vanish_each);
        },
        Task::DropBelow { .. } => {
            reveal(LoopView::drop_below);
        },
        Task::DropEach { .. } => {
            reveal(LoopView::drop_each);
        },
        Task::CheckAncestor { .. } => {
            reveal(LoopView::check_ancestor);
        },
        Task::CheckLooked { .. } => {
            reveal(LoopView::check_looked);
        },
        Task::CheckEach { .. } => {
            reveal(LoopView::check_each);
        },
        Task::CheckChainEach { .. } => {
            reveal(LoopView::check_chain_each);
        },
        Task::Recheck { .. } => {
            reveal(LoopView::recheck);
        },
        Task::RecheckLooked { .. } => {
            reveal(LoopView::recheck_looked);
        },
        Task::RecheckEach { .. } => {
            reveal(LoopView::recheck_each);
        },
        _ => {},
    }
    assert(r.tasks.take(s.tasks.len() as int) =~= s.tasks);
    assert(r.handles.dom() =~= closed(opened_by(s.handles.dom(), task, answer), request));
}

proof fn lemma_register(s: LoopView, task: TaskView, answer: AnswerView)
    requires
        task::is_register_task(task),
    ensures
        is_sound(s, task, s.go_on_register(task, answer).0),
        is_followed(
            s,
            task,
            answer,
            s.go_on_register(task, answer).0,
            s.go_on_register(task, answer).1,
        ),
{
    let (r, request) = s.go_on_register(task, answer);
    match task {
        Task::Register => {
            reveal(LoopView::register);
        },
        Task::RegisterKevents => {
            reveal(LoopView::register_kevents);
        },
        Task::RegisterAnswered => {
            reveal(LoopView::register_answered);
        },
        Task::RegisterRearmed => {
            reveal(LoopView::register_rearmed);
        },
        Task::RegisterRound => {
            reveal(LoopView::register_round);
        },
        Task::Flush => {
            reveal(LoopView::flush);
        },
        _ => {},
    }
    assert(r.tasks.take(s.tasks.len() as int) =~= s.tasks);
    assert(r.handles.dom() =~= closed(opened_by(s.handles.dom(), task, answer), request));
}

proof fn lemma_root(s: LoopView, task: TaskView, answer: AnswerView)
    requires
        task::is_root_task(task),
    ensures
        is_sound(s, task, s.go_on_root(task, answer).0),
        is_followed(
            s,
            task,
            answer,
            s.go_on_root(task, answer).0,
            s.go_on_root(task, answer).1,
        ),
{
    let (r, request) = s.go_on_root(task, answer);
    match task {
        Task::AddRoot { .. } => {
            reveal(LoopView::add_root);
        },
        Task::AddRoots { .. } => {
            reveal(LoopView::add_roots);
        },
        Task::AddInnerEach { .. } => {
            reveal(LoopView::add_inner_each);
        },
        Task::AddInnerEnded { .. } => {
            reveal(LoopView::add_inner_ended);
        },
        Task::AddRegister => {
            reveal(LoopView::add_register);
        },
        Task::Fallback { .. } => {
            reveal(LoopView::fallback);
        },
        Task::AddInner { .. } => {
            reveal(LoopView::add_inner);
        },
        Task::AddRootArmed { .. } => {
            reveal(LoopView::add_root_armed);
        },
        Task::AddRootLooked { .. } => {
            reveal(LoopView::add_root_looked);
        },
        Task::AddRootAdded { .. } => {
            reveal(LoopView::add_root_added);
        },
        _ => {},
    }
    assert(r.tasks.take(s.tasks.len() as int) =~= s.tasks);
    assert(r.handles.dom() =~= closed(opened_by(s.handles.dom(), task, answer), request));
}

proof fn lemma_upgrade(s: LoopView, task: TaskView, answer: AnswerView)
    requires
        task::is_upgrade_task(task),
    ensures
        is_sound(s, task, s.go_on_upgrade(task, answer).0),
        is_followed(
            s,
            task,
            answer,
            s.go_on_upgrade(task, answer).0,
            s.go_on_upgrade(task, answer).1,
        ),
{
    let (r, request) = s.go_on_upgrade(task, answer);
    match task {
        Task::UpgradeReached { .. } => {
            reveal(LoopView::upgrade_reached);
        },
        Task::Upgrade { .. } => {
            reveal(LoopView::upgrade);
        },
        Task::UpgradeLooked { .. } => {
            reveal(LoopView::upgrade_looked);
        },
        Task::UpgradeAdded { .. } => {
            reveal(LoopView::upgrade_added);
        },
        Task::UpgradeArmed { .. } => {
            reveal(LoopView::upgrade_armed);
        },
        Task::UntrackEach { .. } => {
            reveal(LoopView::untrack_each);
        },
        Task::RemoveRoot { .. } => {
            reveal(LoopView::remove_root);
        },
        Task::RemoveRootReleased { .. } => {
            reveal(LoopView::remove_root_released);
        },
        _ => {},
    }
    assert(r.tasks.take(s.tasks.len() as int) =~= s.tasks);
    assert(r.handles.dom() =~= closed(opened_by(s.handles.dom(), task, answer), request));
}

proof fn lemma_batch(s: LoopView, task: TaskView, answer: AnswerView)
    requires
        !task::is_handle_task(task),
    ensures
        is_sound(s, task, s.go_on_batch(task, answer).0),
        is_followed(
            s,
            task,
            answer,
            s.go_on_batch(task, answer).0,
            s.go_on_batch(task, answer).1,
        ),
{
    let (r, request) = s.go_on_batch(task, answer);
    match task {
        Task::Happened { .. } => {
            reveal(LoopView::happened);
        },
        Task::DeleteLooked { .. } => {
            reveal(LoopView::delete_looked);
        },
        Task::WriteLooked { .. } => {
            reveal(LoopView::write_looked);
        },
        Task::Listed { .. } => {
            reveal(LoopView::listed);
        },
        Task::Scan { .. } => {
            reveal(LoopView::scan);
        },
        Task::ScanLooked { .. } => {
            reveal(LoopView::scan_looked);
        },
        Task::StaleEach { .. } => {
            reveal(LoopView::stale_each);
        },
        Task::AddAll { .. } => {
            reveal(LoopView::add_all);
        },
        Task::AddAllEnded { .. } => {
            reveal(LoopView::add_all_ended);
        },
        Task::BatchEnded => {
            reveal(LoopView::batch_ended);
        },
        _ => {},
    }
    assert(r.tasks.take(s.tasks.len() as int) =~= s.tasks);
    assert(r.handles.dom() =~= closed(opened_by(s.handles.dom(), task, answer), request));
}

/// What a step keeps, whatever the answer.
proof fn lemma_step(s: LoopView, answer: AnswerView)
    requires
        s.tasks.len() > 0,
    ensures
        is_sound(s.popped(), s.tasks.last(), s.step(answer).0),
        is_followed(
            s.popped(),
            s.tasks.last(),
            answer,
            s.step(answer).0,
            s.step(answer).1,
        ),
{
    let task = s.tasks.last();
    let rest = s.popped();
    if task::is_handle_task(task) {
        lemma_handle(rest, task, answer);
    } else if task::is_arm_task(task) {
        lemma_arm(rest, task, answer);
    } else if task::is_ancestor_task(task) {
        lemma_ancestor(rest, task, answer);
    } else if task::is_register_task(task) {
        lemma_register(rest, task, answer);
    } else if task::is_root_task(task) {
        lemma_root(rest, task, answer);
    } else if task::is_upgrade_task(task) {
        lemma_upgrade(rest, task, answer);
    } else {
        lemma_batch(rest, task, answer);
    }
}

/// A step leaves the tasks below the one it goes on with for later.
pub proof fn step_keeps_tasks(s: LoopView, answer: AnswerView)
    requires
        s.tasks.len() > 0,
    ensures
        keeps_tasks(s.popped(), s.step(answer).0),
{
    lemma_step(s, answer);
}

/// Where the loop stands after a step for each of the answers.
pub open spec fn run(s: LoopView, answers: Seq<AnswerView>) -> LoopView
    decreases answers.len(),
{
    if answers.len() == 0 {
        s
    } else {
        run(s, answers.drop_last()).step(answers.last()).0
    }
}

/// What was asked last.
pub open spec fn last_request(s: LoopView, answers: Seq<AnswerView>) -> RequestView {
    if answers.len() == 0 {
        Request::Again
    } else {
        run(s, answers.drop_last()).step(answers.last()).1
    }
}

/// The paths that the system holds open after the answers: those it opened when asked to, without
/// those it was asked to close.
pub open spec fn open_paths(s: LoopView, answers: Seq<AnswerView>) -> Set<Seq<Seq<u8>>>
    decreases answers.len(),
{
    if answers.len() == 0 {
        s.handles.dom()
    } else {
        let open = open_paths(s, answers.drop_last());
        closed(
            match last_request(s, answers.drop_last()) {
                Request::Add(p) => if answers.last().did() is Ok {
                    open.insert(p)
                } else {
                    open
                },
                _ => open,
            },
            last_request(s, answers),
        )
    }
}

/// Whether no task waits for a handle to be opened.
pub open spec fn waits_for_none(s: LoopView) -> bool {
    forall|i: int| 0 <= i < s.tasks.len() ==> !(#[trigger] s.tasks[i] is AddSingleAnswered)
}

/// The handles that are held are the ones that the system holds open: none is lost, and none is
/// held that the system does not know.
pub proof fn handles_are_the_open_paths(s: LoopView, answers: Seq<AnswerView>)
    requires
        waits_for_none(s),
    ensures
        run(s, answers).handles.dom() == open_paths(s, answers),
        waits_for_none(run(s, answers)) || last_request(s, answers) is Add,
{
    lemma_open(s, answers);
}

proof fn lemma_open(s: LoopView, answers: Seq<AnswerView>)
    requires
        waits_for_none(s),
    ensures
        ({
            let x = run(s, answers);
            &&& x.handles.dom() == open_paths(s, answers)
            &&& forall|i: int|
                0 <= i < x.tasks.len() - 1 ==> !(#[trigger] x.tasks[i] is AddSingleAnswered)
            &&& match last_request(s, answers) {
                Request::Add(p) => x.tasks.len() > 0 && (
                x.tasks.last() matches Task::AddSingleAnswered { path, .. } && path == p),
                _ => x.tasks.len() > 0 ==> !(x.tasks.last() is AddSingleAnswered),
            }
        }),
    decreases answers.len(),
{
    if answers.len() == 0 {
        if s.tasks.len() > 0 {
            assert(!(s.tasks[s.tasks.len() - 1] is AddSingleAnswered));
        }
    } else {
        lemma_open(s, answers.drop_last());
        let x = run(s, answers.drop_last());
        let r = run(s, answers);
        if x.tasks.len() > 0 {
            lemma_step(x, answers.last());
            let rest = x.popped();
            assert(r.tasks.take(rest.tasks.len() as int) == rest.tasks);
            assert forall|i: int| 0 <= i < rest.tasks.len() implies #[trigger] r.tasks[i]
                == x.tasks[i] by {
                assert(r.tasks[i] == r.tasks.take(rest.tasks.len() as int)[i]);
            }
            if r.tasks.len() > 0 {
                assert(r.tasks.last() == r.tasks[r.tasks.len() - 1]);
            }
        }
    }
}

/// Whether more than `n` tasks were left before each of the answers.
pub open spec fn is_busy(s: LoopView, answers: Seq<AnswerView>, n: nat) -> bool {
    forall|k: int|
        0 <= k < answers.len() ==> (#[trigger] run(s, answers.take(k))).tasks.len() > n
}

/// Whether the answers are those on which the task that `s` goes on with ends.
pub open spec fn ends(s: LoopView, answers: Seq<AnswerView>) -> bool {
    is_busy(s, answers, s.popped().tasks.len()) && run(s, answers).tasks.len()
        == s.popped().tasks.len()
}

proof fn lemma_busy(s: LoopView, answers: Seq<AnswerView>, n: nat)
    requires
        is_busy(s, answers, n),
        answers.len() > 0,
    ensures
        is_busy(s, answers.drop_last(), n),
        run(s, answers.drop_last()).tasks.len() > n,
{
    let before = answers.drop_last();
    assert(answers.take(answers.len() - 1) =~= before);
    assert forall|k: int| 0 <= k < before.len() implies (#[trigger] run(
        s,
        before.take(k),
    )).tasks.len() > n by {
        assert(before.take(k) =~= answers.take(k));
    }
}

/// All tasks of `x` from the one at `n` on are of a kind.
pub open spec fn are_from(x: LoopView, n: int, kind: spec_fn(TaskView) -> bool) -> bool {
    forall|i: int| n <= i < x.tasks.len() ==> kind(#[trigger] x.tasks[i])
}

pub open spec fn quiet() -> spec_fn(TaskView) -> bool {
    |t: TaskView| is_quiet(t)
}

pub open spec fn mild() -> spec_fn(TaskView) -> bool {
    |t: TaskView| is_mild(t)
}

pub open spec fn arming() -> spec_fn(TaskView) -> bool {
    |t: TaskView| is_arming(t)
}

/// A step on a task above the one at `n`.
proof fn lemma_step_above(
    x: LoopView,
    n: int,
    kind: spec_fn(TaskView) -> bool,
    answer: AnswerView,
)
    requires
        0 <= n < x.tasks.len() - 1,
        are_from(x, n + 1, kind),
        adds_only(x.popped(), x.step(answer).0, kind),
    ensures
        x.step(answer).0.tasks.len() > n,
        x.step(answer).0.tasks.take(n + 1) == x.tasks.take(n + 1),
        x.step(answer).0.tasks[n] == x.tasks[n],
        x.step(answer).0.tasks.take(n) == x.tasks.take(n),
        are_from(x.step(answer).0, n + 1, kind),
        kind(x.tasks.last()),
{
    let r = x.step(answer).0;
    let rest = x.popped();
    lemma_step(x, answer);
    assert(kind(x.tasks[x.tasks.len() - 1]));
    assert(r.tasks.take(n + 1) =~= r.tasks.take(rest.tasks.len() as int).take(n + 1));
    assert(x.tasks.take(n + 1) =~= rest.tasks.take(n + 1));
    assert(r.tasks.take(n) =~= r.tasks.take(n + 1).take(n));
    assert(x.tasks.take(n) =~= x.tasks.take(n + 1).take(n));
    assert(r.tasks[n] == r.tasks.take(n + 1)[n]);
    assert(x.tasks[n] == x.tasks.take(n + 1)[n]);
    assert forall|i: int| n + 1 <= i < r.tasks.len() implies kind(#[trigger] r.tasks[i]) by {
        if i < rest.tasks.len() {
            assert(r.tasks.take(rest.tasks.len() as int)[i] == rest.tasks[i]);
            assert(rest.tasks[i] == x.tasks[i]);
        }
    }
}

proof fn lemma_quiet_step(x: LoopView, n: int, answer: AnswerView)
    requires
        0 <= n < x.tasks.len() - 1,
        are_from(x, n + 1, quiet()),
    ensures
        x.step(answer).0.tasks.len() > n,
        x.step(answer).0.tasks[n] == x.tasks[n],
        x.step(answer).0.tasks.take(n) == x.tasks.take(n),
        are_from(x.step(answer).0, n + 1, quiet()),
        x.step(answer).0.roots == x.roots,
        x.step(answer).0.reports == x.reports,
{
    lemma_step(x, answer);
    let kind = quiet();
    assert(kind(x.tasks[x.tasks.len() - 1]));
    let other = |t: TaskView| is_quiet(t);
    assert forall|i: int| x.popped().tasks.len() <= i < x.step(answer).0.tasks.len() implies kind(
        #[trigger] x.step(answer).0.tasks[i],
    ) by {
        assert(other(x.step(answer).0.tasks[i]));
    }
    lemma_step_above(x, n, kind, answer);
}

proof fn lemma_mild_step(x: LoopView, n: int, answer: AnswerView)
    requires
        0 <= n < x.tasks.len() - 1,
        are_from(x, n + 1, mild()),
    ensures
        x.step(answer).0.tasks.len() > n,
        x.step(answer).0.tasks[n] == x.tasks[n],
        x.step(answer).0.tasks.take(n) == x.tasks.take(n),
        are_from(x.step(answer).0, n + 1, mild()),
        same_modes(x.roots, x.step(answer).0.roots),
{
    lemma_step(x, answer);
    let kind = mild();
    assert(kind(x.tasks[x.tasks.len() - 1]));
    let other = |t: TaskView| is_mild(t);
    assert forall|i: int| x.popped().tasks.len() <= i < x.step(answer).0.tasks.len() implies kind(
        #[trigger] x.step(answer).0.tasks[i],
    ) by {
        assert(other(x.step(answer).0.tasks[i]));
    }
    lemma_step_above(x, n, kind, answer);
}

/// How a watch of the new path `p` goes on: nothing is recorded before it has succeeded.
spec fn is_watching(s: LoopView, p: Seq<Seq<u8>>, mode: WatchMode, x: LoopView) -> bool {
    let n = s.tasks.len() as int;
    &&& x.reports == s.reports
    &&& if x.tasks.len() <= n {
        &&& x.tasks == s.tasks
        &&& (x.outcome is Failed && x.roots == s.roots) || (x.outcome is Done && exists|state|
            x.roots == s.roots.insert(p, RootWatch { mode, state }))
    } else {
        &&& x.tasks.take(n) == s.tasks
        &&& x.roots == s.roots
        &&& are_from(x, n + 1, quiet())
        &&& match x.tasks[n] {
            Task::AddInner { path, mode: m } => path == p && m == mode && x.tasks.len() == n + 1,
            Task::AddRootLooked { path, mode: m } => path == p && m == mode && x.tasks.len() == n
                + 1,
            Task::AddRootArmed { path, mode: m } => path == p && m == mode,
            Task::AddRootAdded { path, mode: m, .. } => path == p && m == mode,
            Task::Fail { .. } => true,
            _ => false,
        }
    }
}

proof fn lemma_watching_step(
    s: LoopView,
    p: Seq<Seq<u8>>,
    mode: WatchMode,
    x: LoopView,
    answer: AnswerView,
)
    requires
        is_watching(s, p, mode, x),
        x.tasks.len() > s.tasks.len(),
        !s.roots.contains_key(p),
    ensures
        is_watching(s, p, mode, x.step(answer).0),
{
    let n = s.tasks.len() as int;
    let r = x.step(answer).0;
    if x.tasks.len() > n + 1 {
        lemma_quiet_step(x, n, answer);
    } else {
        assert(x.tasks.last() == x.tasks[n]);
        assert(x.popped().tasks =~= s.tasks);
        reveal(LoopView::add_inner);
        reveal(LoopView::add_root_looked);
        reveal(LoopView::add_root_armed);
        reveal(LoopView::add_root_added);
        assert(r.tasks.len() >= n ==> r.tasks.take(n) =~= s.tasks);
    }
}

proof fn lemma_watching(
    s: LoopView,
    p: Seq<Seq<u8>>,
    mode: WatchMode,
    answers: Seq<AnswerView>,
)
    requires
        !s.roots.contains_key(p),
        is_busy(s.push(Task::AddInner { path: p, mode }), answers, s.tasks.len()),
    ensures
        is_watching(s, p, mode, run(s.push(Task::AddInner { path: p, mode }), answers)),
    decreases answers.len(),
{
    let start = s.push(Task::AddInner { path: p, mode });
    if answers.len() == 0 {
        assert(start.tasks.take(s.tasks.len() as int) =~= s.tasks);
    } else {
        lemma_busy(start, answers, s.tasks.len());
        lemma_watching(s, p, mode, answers.drop_last());
        lemma_watching_step(s, p, mode, run(start, answers.drop_last()), answers.last());
    }
}

/// Before the handles are registered, a path that was not watched is recorded in the mode asked for
/// when the watch succeeded, and is not when it failed, whatever the system answers. The other
/// roots stay as they are.
pub proof fn watch_is_recorded_or_refused(
    s: LoopView,
    p: Seq<Seq<u8>>,
    mode: WatchMode,
    answers: Seq<AnswerView>,
)
    requires
        !s.roots.contains_key(p),
        ends(s.push(Task::AddInner { path: p, mode }), answers),
    ensures
        ({
            let end = run(s.push(Task::AddInner { path: p, mode }), answers);
            &&& end.tasks == s.tasks
            &&& end.reports == s.reports
            &&& end.outcome is Failed || end.outcome is Done
            &&& end.outcome is Failed ==> end.roots == s.roots
            &&& end.outcome is Done ==> exists|state|
                end.roots == s.roots.insert(p, RootWatch { mode, state })
        }),
{
    assert(s.push(Task::AddInner { path: p, mode }).popped().tasks =~= s.tasks);
    lemma_watching(s, p, mode, answers);
}

/// How a registration goes on.
spec fn is_registering(s: LoopView, x: LoopView) -> bool {
    let n = s.tasks.len() as int;
    &&& same_modes(s.roots, x.roots)
    &&& if x.tasks.len() <= n {
        &&& x.tasks == s.tasks
        &&& x.pending.len() == 0
        &&& x.outcome is Failed || (x.outcome is Done && is_settled(x))
    } else if x.tasks.len() == n + 1 {
        &&& x.tasks.take(n) == s.tasks
        &&& x.tasks[n] is Register || (x.tasks[n] is Flush && (x.outcome is Failed || (
        x.outcome is Done && is_settled(x))))
    } else {
        &&& x.tasks.take(n) == s.tasks
        &&& x.tasks[n] is Flush
        &&& are_from(x, n + 2, mild())
        &&& match x.tasks[n + 1] {
            Task::RegisterKevents => x.tasks.len() == n + 2,
            Task::RegisterAnswered => x.tasks.len() == n + 2,
            Task::RegisterRearmed => true,
            Task::RegisterRound => true,
            _ => false,
        }
    }
}

/// Every handle is registered, and nothing waits to be looked at again.
pub open spec fn is_settled(x: LoopView) -> bool {
    !x.unregistered && x.unarmed.len() == 0 && x.reappeared.len() == 0
}

proof fn lemma_registering_step(s: LoopView, x: LoopView, answer: AnswerView)
    requires
        is_registering(s, x),
        x.tasks.len() > s.tasks.len(),
    ensures
        is_registering(s, x.step(answer).0),
{
    let n = s.tasks.len() as int;
    let r = x.step(answer).0;
    if x.tasks.len() > n + 2 {
        lemma_mild_step(x, n + 1, answer);
        assert(r.tasks.take(n) =~= r.tasks.take(n + 1).take(n));
        assert(x.tasks.take(n) =~= x.tasks.take(n + 1).take(n));
        assert(r.tasks[n] == r.tasks.take(n + 1)[n]);
        assert(x.tasks[n] == x.tasks.take(n + 1)[n]);
    } else {
        assert(x.tasks.last() == x.tasks[x.tasks.len() - 1]);
        reveal(LoopView::register);
        reveal(LoopView::register_kevents);
        reveal(LoopView::register_answered);
        reveal(LoopView::register_rearmed);
        reveal(LoopView::register_round);
        reveal(LoopView::flush);
        assert(r.tasks.len() >= n ==> r.tasks.take(n) =~= x.tasks.take(n));
        if x.tasks.len() == n + 1 {
            assert(x.popped().tasks =~= s.tasks);
        }
    }
}

proof fn lemma_registering(s: LoopView, answers: Seq<AnswerView>)
    requires
        is_busy(s.push(Task::Register), answers, s.tasks.len()),
    ensures
        is_registering(s, run(s.push(Task::Register), answers)),
    decreases answers.len(),
{
    let start = s.push(Task::Register);
    if answers.len() == 0 {
        assert(start.tasks.take(s.tasks.len() as int) =~= s.tasks);
    } else {
        lemma_busy(start, answers, s.tasks.len());
        lemma_registering(s, answers.drop_last());
        lemma_registering_step(s, run(start, answers.drop_last()), answers.last());
    }
}

/// A registration that succeeds leaves no handle unregistered and nothing to look at again,
/// whatever was found meanwhile. The roots found present are all reported, also when it fails. The
/// same paths stay watched, in the same modes.
pub proof fn registration_settles(s: LoopView, answers: Seq<AnswerView>)
    requires
        ends(s.push(Task::Register), answers),
    ensures
        ({
            let end = run(s.push(Task::Register), answers);
            &&& end.tasks == s.tasks
            &&& end.pending.len() == 0
            &&& same_modes(s.roots, end.roots)
            &&& end.outcome is Failed || end.outcome is Done
            &&& end.outcome is Done ==> is_settled(end)
        }),
{
    assert(s.push(Task::Register).popped().tasks =~= s.tasks);
    lemma_registering(s, answers);
}

/// How the unwatch of the root `p` goes on.
spec fn is_unwatching(s: LoopView, p: Seq<Seq<u8>>, x: LoopView) -> bool {
    let n = s.tasks.len() as int;
    if x.tasks.len() <= n {
        &&& x.tasks == s.tasks
        &&& same_modes(s.roots.remove(p), x.roots)
    } else {
        &&& x.tasks.take(n) == s.tasks
        &&& are_from(x, n + 1, mild())
        &&& match x.tasks[n] {
            Task::RemoveRoot { path } => path == p && x.tasks.len() == n + 1 && x.roots == s.roots,
            Task::RemoveRootReleased { .. } => same_modes(s.roots.remove(p), x.roots),
            Task::Fallback { .. } => same_modes(s.roots.remove(p), x.roots),
            Task::Register => same_modes(s.roots.remove(p), x.roots),
            Task::Flush => same_modes(s.roots.remove(p), x.roots),
            _ => false,
        }
    }
}

proof fn lemma_unwatching_step(s: LoopView, p: Seq<Seq<u8>>, x: LoopView, answer: AnswerView)
    requires
        is_unwatching(s, p, x),
        x.tasks.len() > s.tasks.len(),
        s.roots.contains_key(p),
    ensures
        is_unwatching(s, p, x.step(answer).0),
{
    let n = s.tasks.len() as int;
    let r = x.step(answer).0;
    if x.tasks.len() > n + 1 {
        lemma_mild_step(x, n, answer);
    } else {
        assert(x.tasks.last() == x.tasks[n]);
        assert(x.popped().tasks =~= s.tasks);
        reveal(LoopView::remove_root);
        reveal(LoopView::remove_root_released);
        reveal(LoopView::fallback);
        reveal(LoopView::register);
        reveal(LoopView::flush);
        assert(r.tasks.len() >= n ==> r.tasks.take(n) =~= s.tasks);
    }
}

proof fn lemma_unwatching(s: LoopView, p: Seq<Seq<u8>>, answers: Seq<AnswerView>)
    requires
        s.roots.contains_key(p),
        is_busy(s.push(Task::RemoveRoot { path: p }), answers, s.tasks.len()),
    ensures
        is_unwatching(s, p, run(s.push(Task::RemoveRoot { path: p }), answers)),
    decreases answers.len(),
{
    let start = s.push(Task::RemoveRoot { path: p });
    if answers.len() == 0 {
        assert(start.tasks.take(s.tasks.len() as int) =~= s.tasks);
    } else {
        lemma_busy(start, answers, s.tasks.len());
        lemma_unwatching(s, p, answers.drop_last());
        lemma_unwatching_step(s, p, run(start, answers.drop_last()), answers.last());
    }
}

/// Once the root is found, the unwatch forgets it, whatever the system answers. The other paths
/// stay watched, in the same modes.
pub proof fn unwatch_forgets_root(s: LoopView, p: Seq<Seq<u8>>, answers: Seq<AnswerView>)
    requires
        s.roots.contains_key(p),
        ends(s.push(Task::RemoveRoot { path: p }), answers),
    ensures
        ({
            let end = run(s.push(Task::RemoveRoot { path: p }), answers);
            end.tasks == s.tasks && same_modes(s.roots.remove(p), end.roots)
        }),
{
    assert(s.push(Task::RemoveRoot { path: p }).popped().tasks =~= s.tasks);
    lemma_unwatching(s, p, answers);
}

/// Whether a root reports through the handle at `q`, or is tracked below it.
pub open spec fn is_needed(roots: Map<Seq<Seq<u8>>, RootWatch>, q: Seq<Seq<u8>>) -> bool {
    root::is_watched_path(roots, q) || root::leads_to_root(roots, q)
}

/// Every handle of `before` that a root needs is one of `after`.
pub open spec fn keeps_needed(
    roots: Map<Seq<Seq<u8>>, RootWatch>,
    before: Map<Seq<Seq<u8>>, bool>,
    after: Map<Seq<Seq<u8>>, bool>,
) -> bool {
    forall|q: Seq<Seq<u8>>|
        before.contains_key(q) && is_needed(roots, q) ==> #[trigger] after.contains_key(q)
}

/// The tasks that close the handles no root needs.
spec fn releasing(roots: Map<Seq<Seq<u8>>, RootWatch>) -> spec_fn(TaskView) -> bool {
    |t: TaskView|
        match t {
            Task::ReleaseEach { .. } => true,
            Task::ReleaseHandle { .. } => true,
            Task::RemoveAnswered { .. } => true,
            Task::RemoveSingle { path } => !is_needed(roots, path),
            Task::UntrackEach { paths } => forall|i: int|
                0 <= i < paths.len() ==> !root::leads_to_root(roots, #[trigger] paths[i]),
            _ => false,
        }
}

proof fn lemma_untracked(roots: Map<Seq<Seq<u8>>, RootWatch>, p: Seq<Seq<u8>>, n: int)
    ensures
        forall|i: int|
            0 <= i < task::untracked(roots, p, n).len() ==> !root::leads_to_root(
                roots,
                #[trigger] task::untracked(roots, p, n)[i],
            ),
    decreases p.len() - n,
{
    if 0 <= n < p.len() {
        lemma_untracked(roots, p, n + 1);
        let nearer = task::untracked(roots, p, n + 1);
        let all = task::untracked(roots, p, n);
        assert forall|i: int| 0 <= i < all.len() implies !root::leads_to_root(
            roots,
            #[trigger] all[i],
        ) by {
            if i < nearer.len() {
                assert(all[i] == nearer[i]);
            }
        }
    }
}

proof fn lemma_releasing_step(x: LoopView, n: int, answer: AnswerView)
    requires
        0 <= n < x.tasks.len() - 1,
        are_from(x, n + 1, releasing(x.roots)),
    ensures
        x.step(answer).0.tasks.len() > n,
        x.step(answer).0.tasks.take(n + 1) == x.tasks.take(n + 1),
        are_from(x.step(answer).0, n + 1, releasing(x.roots)),
        x.step(answer).0.roots == x.roots,
        keeps_needed(x.roots, x.handles, x.step(answer).0.handles),
{
    let kind = releasing(x.roots);
    let r = x.step(answer).0;
    let task = x.tasks.last();
    assert(kind(x.tasks[x.tasks.len() - 1]));
    reveal(LoopView::release_each);
    reveal(LoopView::release_handle);
    reveal(LoopView::remove_answered);
    reveal(LoopView::remove_single);
    reveal(LoopView::untrack_each);
    assert forall|i: int| x.popped().tasks.len() <= i < r.tasks.len() implies kind(
        #[trigger] r.tasks[i],
    ) by {
        if let Task::UntrackEach { paths } = task {
            let rest = paths.drop_first();
            assert(!root::leads_to_root(x.roots, paths[0]));
            assert forall|k: int| 0 <= k < rest.len() implies !root::leads_to_root(
                x.roots,
                #[trigger] rest[k],
            ) by {
                assert(rest[k] == paths[k + 1]);
            }
        }
    }
    lemma_step_above(x, n, kind, answer);
}

/// How the unwatch of the root `p` goes on before the handles are registered.
spec fn is_keeping(s: LoopView, p: Seq<Seq<u8>>, x: LoopView) -> bool {
    let n = s.tasks.len() as int;
    let roots = s.roots.remove(p);
    &&& x.tasks.len() > n
    &&& if x.tasks[n] is RemoveRoot {
        x == s.push(Task::RemoveRoot { path: p })
    } else {
        &&& x.roots == roots
        &&& keeps_needed(roots, s.handles, x.handles)
        &&& match x.tasks[n] {
            Task::RemoveRootReleased { .. } => are_from(x, n + 1, releasing(roots)),
            Task::Register => are_from(x, n + 1, releasing(roots)),
            Task::Fallback { .. } => x.tasks.len() > n + 1 && x.tasks[n + 1] is Register
                && are_from(x, n + 2, releasing(roots)),
            _ => false,
        }
    }
}

proof fn lemma_keeping_step(s: LoopView, p: Seq<Seq<u8>>, x: LoopView, answer: AnswerView)
    requires
        is_keeping(s, p, x),
        s.roots.contains_key(p),
        !(x.tasks.last() is Register),
    ensures
        is_keeping(s, p, x.step(answer).0),
{
    let n = s.tasks.len() as int;
    let roots = s.roots.remove(p);
    let r = x.step(answer).0;
    if x.tasks.len() == n + 1 {
        assert(x.tasks.last() == x.tasks[n]);
        reveal(LoopView::remove_root);
        reveal(LoopView::remove_root_released);
        if let Task::RemoveRootReleased { path, .. } = x.tasks[n] {
            lemma_untracked(roots, path, path::floor(path));
        }
    } else if x.tasks[n] is Fallback {
        assert(x.tasks.len() > n + 2) by {
            assert(x.tasks.last() == x.tasks[x.tasks.len() - 1]);
        }
        lemma_releasing_step(x, n + 1, answer);
        assert(r.tasks[n] == r.tasks.take(n + 2)[n]);
        assert(r.tasks[n + 1] == r.tasks.take(n + 2)[n + 1]);
        assert(x.tasks[n] == x.tasks.take(n + 2)[n]);
        assert(x.tasks[n + 1] == x.tasks.take(n + 2)[n + 1]);
    } else {
        lemma_releasing_step(x, n, answer);
        assert(r.tasks[n] == r.tasks.take(n + 1)[n]);
        assert(x.tasks[n] == x.tasks.take(n + 1)[n]);
    }
    assert forall|q: Seq<Seq<u8>>| s.handles.contains_key(q) && is_needed(
        roots,
        q,
    ) implies #[trigger] r.handles.contains_key(q) by {
        assert(x.handles.contains_key(q));
    }
}

/// Whether no registration has begun on the answers.
pub open spec fn is_unregistered(s: LoopView, answers: Seq<AnswerView>) -> bool {
    forall|k: int|
        0 <= k < answers.len() ==> !((#[trigger] run(s, answers.take(k))).tasks.last() is Register)
}

/// Before the handles are registered, the unwatch of a root keeps every handle that another root
/// reports through or is tracked below, whatever the system answers.
pub proof fn unwatch_keeps_needed_handles(
    s: LoopView,
    p: Seq<Seq<u8>>,
    answers: Seq<AnswerView>,
)
    requires
        s.roots.contains_key(p),
        is_unregistered(s.push(Task::RemoveRoot { path: p }), answers),
    ensures
        keeps_needed(
            s.roots.remove(p),
            s.handles,
            run(s.push(Task::RemoveRoot { path: p }), answers).handles,
        ),
{
    lemma_keeping(s, p, answers);
}

proof fn lemma_keeping(s: LoopView, p: Seq<Seq<u8>>, answers: Seq<AnswerView>)
    requires
        s.roots.contains_key(p),
        is_unregistered(s.push(Task::RemoveRoot { path: p }), answers),
    ensures
        is_keeping(s, p, run(s.push(Task::RemoveRoot { path: p }), answers)),
    decreases answers.len(),
{
    let start = s.push(Task::RemoveRoot { path: p });
    if answers.len() > 0 {
        let before = answers.drop_last();
        assert(answers.take(answers.len() - 1) =~= before);
        assert forall|k: int| 0 <= k < before.len() implies !((#[trigger] run(
            start,
            before.take(k),
        )).tasks.last() is Register) by {
            assert(before.take(k) =~= answers.take(k));
        }
        lemma_keeping(s, p, before);
        lemma_keeping_step(s, p, run(start, before), answers.last());
    }
}

proof fn lemma_chosen(
    list: Seq<Seq<Seq<u8>>>,
    wanted: spec_fn(Seq<Seq<u8>>) -> bool,
    q: Seq<Seq<u8>>,
)
    ensures
        path::chosen(list, wanted).contains(q) <==> list.contains(q) && wanted(q),
    decreases list.len(),
{
    if list.len() > 0 {
        let shorter = list.drop_last();
        let chosen = path::chosen(list, wanted);
        let before = path::chosen(shorter, wanted);
        lemma_chosen(shorter, wanted, q);
        assert(list[list.len() - 1] == list.last());
        if list.contains(q) && wanted(q) {
            let i = list.index_of(q);
            if i < shorter.len() {
                assert(shorter[i] == q);
                let k = before.index_of(q);
                assert(chosen[k] == q);
            } else {
                assert(chosen[before.len() as int] == q);
            }
        }
        if chosen.contains(q) {
            let k = chosen.index_of(q);
            if k < before.len() {
                assert(before[k] == q);
                let i = shorter.index_of(q);
                assert(list[i] == q);
            }
        }
    }
}

/// The handles at and below `root`, and that of its parent, are what they were.
pub open spec fn is_undone(
    before: Map<Seq<Seq<u8>>, bool>,
    root: Seq<Seq<u8>>,
    after: Map<Seq<Seq<u8>>, bool>,
) -> bool {
    &&& forall|q: Seq<Seq<u8>>|
        path::starts_with(q, root) ==> (#[trigger] after.contains_key(q) <==> before.contains_key(
            q,
        ))
    &&& forall|q: Seq<Seq<u8>>|
        (path::starts_with(q, root) || path::parent(root) == Some(q))
            && #[trigger] before.contains_key(q) ==> after.contains_key(q) && after[q] == before[q]
}

/// How the arm of a root goes on.
spec fn is_rolling(s: LoopView, root: Seq<Seq<u8>>, x: LoopView) -> bool {
    let n = s.tasks.len() as int;
    let before = task::noted(s.handles, root);
    if x.tasks.len() <= n {
        &&& x.tasks == s.tasks
        &&& x.outcome is Failed ==> is_undone(s.handles, root, x.handles)
    } else {
        &&& x.tasks.take(n) == s.tasks
        &&& match x.tasks[n] {
            Task::Arm { root: r, .. } => r == root && x.tasks.len() == n + 1 && x.handles
                == s.handles,
            Task::ArmEnded { root: r, before: b } => {
                &&& r == root && b == before
                &&& are_from(x, n + 1, arming())
                &&& s.handles.dom().subset_of(x.handles.dom())
                &&& x.handles.dom().finite()
            },
            Task::Fail { .. } => is_dropping(s, root, x),
            _ => false,
        }
    }
}

/// How the rollback of a failed arm goes on: the task at `n` hands the error on.
spec fn is_dropping(s: LoopView, root: Seq<Seq<u8>>, x: LoopView) -> bool {
    let n = s.tasks.len() as int;
    let before = task::noted(s.handles, root);
    if x.tasks.len() == n + 1 {
        is_undone(s.handles, root, x.handles)
    } else {
        &&& x.tasks[n + 1] matches Task::Restore { before: b } && b == before
        &&& before.dom().subset_of(x.handles.dom())
        &&& if x.tasks.len() == n + 2 {
            forall|q: Seq<Seq<u8>>| #[trigger]
                x.handles.contains_key(q) && path::starts_with(q, root) ==> before.contains_key(q)
        } else {
            &&& x.tasks.len() <= n + 4
            &&& x.tasks[n + 2] matches Task::RemoveEach { paths } && forall|q: Seq<Seq<u8>>|
                #[trigger] paths.contains(q) ==> !before.contains_key(q)
            &&& x.tasks.len() == n + 4 ==> (x.tasks[n + 3] is RemoveAnswered || (
            x.tasks[n + 3] matches Task::RemoveSingle { path } && !before.contains_key(path)))
            &&& forall|q: Seq<Seq<u8>>| #[trigger]
                x.handles.contains_key(q) && path::starts_with(q, root) ==> before.contains_key(q)
                    || is_to_drop(x, n, q)
        }
    }
}

/// Whether `q` is still to be closed by the tasks above the one at `n`.
spec fn is_to_drop(x: LoopView, n: int, q: Seq<Seq<u8>>) -> bool {
    ||| x.tasks[n + 2] matches Task::RemoveEach { paths } && paths.contains(q)
    ||| x.tasks.len() == n + 4 && (x.tasks[n + 3] matches Task::RemoveSingle { path } && path == q)
}

proof fn lemma_arming_step(s: LoopView, root: Seq<Seq<u8>>, x: LoopView, answer: AnswerView)
    requires
        is_rolling(s, root, x),
        x.tasks.len() > s.tasks.len() + 1,
        x.tasks[s.tasks.len() as int] is ArmEnded,
    ensures
        is_rolling(s, root, x.step(answer).0),
{
    let n = s.tasks.len() as int;
    lemma_step(x, answer);
    let kind = arming();
    assert(kind(x.tasks[x.tasks.len() - 1]));
    let other = |t: TaskView| is_arming(t);
    assert forall|i: int| x.popped().tasks.len() <= i < x.step(answer).0.tasks.len() implies kind(
        #[trigger] x.step(answer).0.tasks[i],
    ) by {
        assert(other(x.step(answer).0.tasks[i]));
    }
    lemma_step_above(x, n, kind, answer);
}

proof fn lemma_dropping_step(s: LoopView, root: Seq<Seq<u8>>, x: LoopView, answer: AnswerView)
    requires
        is_rolling(s, root, x),
        x.tasks.len() > s.tasks.len() + 1,
        x.tasks[s.tasks.len() as int] is Fail,
    ensures
        is_rolling(s, root, x.step(answer).0),
{
    let n = s.tasks.len() as int;
    let r = x.step(answer).0;
    let rest = x.popped();
    let before = task::noted(s.handles, root);
    lemma_step(x, answer);
    assert(x.tasks.last() == x.tasks[x.tasks.len() - 1]);
    assert(r.tasks.take(n) =~= r.tasks.take(rest.tasks.len() as int).take(n));
    assert(x.tasks.take(n) =~= rest.tasks.take(n));
    assert(r.tasks[n] == r.tasks.take(rest.tasks.len() as int)[n]);
    assert(rest.tasks[n] == x.tasks[n]);
    if x.tasks.len() == n + 2 {
        reveal(LoopView::restore);
        assert(r.handles =~= task::restored(x.handles, before));
        assert(is_undone(s.handles, root, r.handles));
    } else {
        assert(r.tasks[n + 1] == r.tasks.take(rest.tasks.len() as int)[n + 1]);
        assert(rest.tasks[n + 1] == x.tasks[n + 1]);
        if x.tasks.len() == n + 3 {
            reveal(LoopView::remove_each);
            let paths = x.tasks[n + 2]->RemoveEach_paths;
            if paths.len() > 0 {
                assert(paths.contains(paths[0]));
                let left = paths.drop_first();
                assert forall|q: Seq<Seq<u8>>| #[trigger] left.contains(q) implies
                    !before.contains_key(q) by {
                    let i = left.index_of(q);
                    assert(paths[i + 1] == q);
                    assert(paths.contains(q));
                }
                assert forall|q: Seq<Seq<u8>>| #[trigger]
                    r.handles.contains_key(q) && path::starts_with(q, root) implies
                    before.contains_key(q) || is_to_drop(r, n, q) by {
                    assert(x.handles.contains_key(q));
                    if paths.contains(q) {
                        let i = paths.index_of(q);
                        if i > 0 {
                            assert(left[i - 1] == q);
                        }
                    }
                }
            } else {
                assert forall|q: Seq<Seq<u8>>| #[trigger]
                    r.handles.contains_key(q) && path::starts_with(q, root) implies
                    before.contains_key(q) by {
                    assert(x.handles.contains_key(q));
                }
            }
        } else {
            reveal(LoopView::remove_single);
            reveal(LoopView::remove_answered);
            assert(r.tasks[n + 2] == r.tasks.take(rest.tasks.len() as int)[n + 2]);
            assert(rest.tasks[n + 2] == x.tasks[n + 2]);
            assert forall|q: Seq<Seq<u8>>| #[trigger]
                r.handles.contains_key(q) && path::starts_with(q, root) implies
                before.contains_key(q) || is_to_drop(r, n, q) by {
                assert(x.handles.contains_key(q));
            }
        }
    }
}

proof fn lemma_rolling_step(s: LoopView, root: Seq<Seq<u8>>, x: LoopView, answer: AnswerView)
    requires
        is_rolling(s, root, x),
        x.tasks.len() > s.tasks.len(),
        s.handles.dom().finite(),
    ensures
        is_rolling(s, root, x.step(answer).0),
{
    let n = s.tasks.len() as int;
    let r = x.step(answer).0;
    if x.tasks.len() > n + 1 {
        if x.tasks[n] is ArmEnded {
            lemma_arming_step(s, root, x, answer);
        } else {
            lemma_dropping_step(s, root, x, answer);
        }
    } else {
        assert(x.tasks.last() == x.tasks[n]);
        assert(x.popped().tasks =~= s.tasks);
        reveal(LoopView::arm);
        reveal(LoopView::arm_ended);
        assert(r.tasks.len() >= n ==> r.tasks.take(n) =~= s.tasks);
        if x.tasks[n] is ArmEnded && x.outcome is Failed {
            let before = task::noted(s.handles, root);
            let below = path_map::at_and_below(x.handles.dom(), root);
            let paths = path::chosen(below, task::is_new(before));
            assert forall|q: Seq<Seq<u8>>| #[trigger] paths.contains(q) implies
                !before.contains_key(q) by {
                lemma_chosen(below, task::is_new(before), q);
            }
            assert forall|q: Seq<Seq<u8>>| #[trigger]
                r.handles.contains_key(q) && path::starts_with(q, root) implies
                before.contains_key(q) || is_to_drop(r, n, q) by {
                path_map::lemma_listed(x.handles.dom(), root, q);
                lemma_chosen(below, task::is_new(before), q);
            }
        }
    }
}

proof fn lemma_rolling(
    s: LoopView,
    root: Seq<Seq<u8>>,
    recursive: bool,
    answers: Seq<AnswerView>,
)
    requires
        s.handles.dom().finite(),
        is_busy(s.push(Task::Arm { root, recursive }), answers, s.tasks.len()),
    ensures
        is_rolling(s, root, run(s.push(Task::Arm { root, recursive }), answers)),
    decreases answers.len(),
{
    let start = s.push(Task::Arm { root, recursive });
    if answers.len() == 0 {
        assert(start.tasks.take(s.tasks.len() as int) =~= s.tasks);
    } else {
        lemma_busy(start, answers, s.tasks.len());
        lemma_rolling(s, root, recursive, answers.drop_last());
        lemma_rolling_step(s, root, run(start, answers.drop_last()), answers.last());
    }
}

/// The arm of a root that fails halfway is undone: the handles at and below the root are the ones
/// that were there, chain handles if they were, and so is that of the parent if it had one. That
/// holds whatever the system answers.
pub proof fn failed_arm_is_undone(
    s: LoopView,
    root: Seq<Seq<u8>>,
    recursive: bool,
    answers: Seq<AnswerView>,
)
    requires
        s.handles.dom().finite(),
        ends(s.push(Task::Arm { root, recursive }), answers),
        run(s.push(Task::Arm { root, recursive }), answers).outcome is Failed,
    ensures
        is_undone(
            s.handles,
            root,
            run(s.push(Task::Arm { root, recursive }), answers).handles,
        ),
{
    assert(s.push(Task::Arm { root, recursive }).popped().tasks =~= s.tasks);
    lemma_rolling(s, root, recursive, answers);
}

/// Whether the handle at `q` was there for the root `p`: those at and below a recursive root, those
/// at another one and its entries, and those on the ancestors of a tracked one.
pub open spec fn is_there_for(mode: WatchMode, p: Seq<Seq<u8>>, q: Seq<Seq<u8>>) -> bool {
    ||| mode.is_recursive() && path::starts_with(q, p)
    ||| q == p
    ||| path::parent(q) == Some(p)
    ||| mode.tracks_path() && path::lies_below(p, q)
}

/// Whether a task of the unwatch of `p` looks at the handle at `q` yet.
spec fn is_to_close(task: TaskView, q: Seq<Seq<u8>>) -> bool {
    match task {
        Task::ReleaseEach { paths } => paths.contains(q),
        Task::ReleaseHandle { path } => path == q,
        Task::RemoveSingle { path } => path == q,
        Task::UntrackEach { paths } => paths.contains(q),
        Task::RemoveRootReleased { path, tracks } => tracks && path::lies_below(path, q),
        _ => false,
    }
}

/// Whether one of the tasks from the one at `n` on looks at the handle at `q` yet.
spec fn are_to_close(x: LoopView, n: int, q: Seq<Seq<u8>>) -> bool {
    exists|i: int| n <= i < x.tasks.len() && is_to_close(#[trigger] x.tasks[i], q)
}

/// How the unwatch of the root `p` closes the handles that no root needs any more.
spec fn is_closing(s: LoopView, p: Seq<Seq<u8>>, x: LoopView) -> bool {
    let n = s.tasks.len() as int;
    x.tasks.len() > n && (x.tasks[n] is RemoveRoot || forall|q: Seq<Seq<u8>>| #[trigger]
        x.handles.contains_key(q) && is_there_for(s.roots[p].mode, p, q) ==> is_needed(
            s.roots.remove(p),
            q,
        ) || are_to_close(x, n, q))
}

proof fn lemma_untracked_ancestor(
    roots: Map<Seq<Seq<u8>>, RootWatch>,
    p: Seq<Seq<u8>>,
    n: int,
    k: int,
)
    requires
        0 <= n <= k < p.len(),
        !root::leads_to_root(roots, p.take(k)),
    ensures
        task::untracked(roots, p, n).contains(p.take(k)),
    decreases p.len() - n,
{
    let nearer = task::untracked(roots, p, n + 1);
    let all = task::untracked(roots, p, n);
    if n < k {
        lemma_untracked_ancestor(roots, p, n + 1, k);
        let i = nearer.index_of(p.take(k));
        assert(all[i] == p.take(k));
    } else {
        assert(all[nearer.len() as int] == p.take(k));
    }
}

proof fn lemma_closing_begins(s: LoopView, p: Seq<Seq<u8>>, answer: AnswerView)
    requires
        s.roots.contains_key(p),
        s.handles.dom().finite(),
    ensures
        is_closing(s, p, s.push(Task::RemoveRoot { path: p }).step(answer).0),
{
    let n = s.tasks.len() as int;
    let start = s.push(Task::RemoveRoot { path: p });
    let r = start.step(answer).0;
    let mode = s.roots[p].mode;
    let below = path_map::at_and_below(s.handles.dom(), p);
    reveal(LoopView::remove_root);
    assert(start.popped().tasks =~= s.tasks);
    assert forall|q: Seq<Seq<u8>>| #[trigger]
        r.handles.contains_key(q) && is_there_for(mode, p, q) implies is_needed(
        s.roots.remove(p),
        q,
    ) || are_to_close(r, n, q) by {
        path_map::lemma_listed(s.handles.dom(), p, q);
        assert(p.take(p.len() as int) =~= p);
        if path::parent(q) == Some(p) {
            assert(q.take(p.len() as int) =~= p);
        }
        if mode.is_recursive() && path::starts_with(q, p) {
            assert(is_to_close(r.tasks[n + 1], q));
        } else if q == p {
            assert(is_to_close(r.tasks[n + 1], q));
        } else if path::parent(q) == Some(p) {
            lemma_chosen(below, task::is_entry_of(p), q);
            assert(is_to_close(r.tasks[n + 2], q));
        } else {
            assert(is_to_close(r.tasks[n], q));
        }
    }
}

/// A step on the last task, which closes handles.
proof fn lemma_closed(
    x: LoopView,
    roots: Map<Seq<Seq<u8>>, RootWatch>,
    answer: AnswerView,
    q: Seq<Seq<u8>>,
)
    requires
        x.tasks.len() > 0,
        x.roots == roots,
        releasing(roots)(x.tasks.last()) || x.tasks.last() is RemoveRootReleased,
        x.step(answer).0.handles.contains_key(q),
        is_to_close(x.tasks.last(), q),
    ensures
        is_needed(roots, q) || are_to_close(x.step(answer).0, x.tasks.len() - 1, q),
{
    let r = x.step(answer).0;
    let n = x.tasks.len() - 1;
    match x.tasks.last() {
        Task::ReleaseEach { paths } => {
            reveal(LoopView::release_each);
            let i = paths.index_of(q);
            if i == 0 {
                assert(is_to_close(r.tasks[n + 1], q));
            } else {
                assert(paths.drop_first()[i - 1] == q);
                assert(is_to_close(r.tasks[n], q));
            }
        },
        Task::ReleaseHandle { .. } => {
            reveal(LoopView::release_handle);
            if !is_needed(roots, q) {
                assert(is_to_close(r.tasks[n], q));
            }
        },
        Task::RemoveSingle { .. } => {
            reveal(LoopView::remove_single);
        },
        Task::UntrackEach { paths } => {
            reveal(LoopView::untrack_each);
            let i = paths.index_of(q);
            if i == 0 {
                if !root::is_watched_path(roots, q) {
                    assert(is_to_close(r.tasks[n + 1], q));
                }
            } else {
                assert(paths.drop_first()[i - 1] == q);
                assert(is_to_close(r.tasks[n], q));
            }
        },
        Task::RemoveRootReleased { path, .. } => {
            reveal(LoopView::remove_root_released);
            if !root::leads_to_root(roots, q) {
                lemma_untracked_ancestor(roots, path, path::floor(path), q.len() as int);
                assert(is_to_close(r.tasks[r.tasks.len() - 1], q));
            }
        },
        _ => {},
    }
}

proof fn lemma_closing_step(s: LoopView, p: Seq<Seq<u8>>, x: LoopView, answer: AnswerView)
    requires
        is_keeping(s, p, x),
        is_closing(s, p, x),
        s.roots.contains_key(p),
        s.handles.dom().finite(),
        !(x.tasks.last() is Register),
    ensures
        is_closing(s, p, x.step(answer).0),
{
    let n = s.tasks.len() as int;
    let roots = s.roots.remove(p);
    let r = x.step(answer).0;
    let rest = x.popped();
    let task = x.tasks.last();
    if x.tasks[n] is RemoveRoot {
        lemma_closing_begins(s, p, answer);
    } else {
        assert(task == x.tasks[x.tasks.len() - 1]);
        lemma_keeping_step(s, p, x, answer);
        lemma_step(x, answer);
        let kind = releasing(roots);
        assert(kind(task) || task is RemoveRootReleased);
        assert forall|i: int| 0 <= i < rest.tasks.len() implies #[trigger] r.tasks[i]
            == x.tasks[i] by {
            assert(r.tasks[i] == r.tasks.take(rest.tasks.len() as int)[i]);
        }
        assert forall|q: Seq<Seq<u8>>| #[trigger]
            r.handles.contains_key(q) && is_there_for(s.roots[p].mode, p, q) implies is_needed(
            roots,
            q,
        ) || are_to_close(r, n, q) by {
            reveal(LoopView::release_each);
            reveal(LoopView::release_handle);
            reveal(LoopView::remove_answered);
            reveal(LoopView::remove_single);
            reveal(LoopView::untrack_each);
            reveal(LoopView::remove_root_released);
            assert(x.handles.contains_key(q));
            if !is_needed(roots, q) {
                let i = choose|i: int|
                    n <= i < x.tasks.len() && is_to_close(#[trigger] x.tasks[i], q);
                if i < rest.tasks.len() {
                    assert(is_to_close(r.tasks[i], q));
                } else {
                    lemma_closed(x, roots, answer, q);
                    let j = choose|j: int|
                        x.tasks.len() - 1 <= j < r.tasks.len() && is_to_close(
                            #[trigger] r.tasks[j],
                            q,
                        );
                    assert(is_to_close(r.tasks[j], q));
                }
            }
        }
    }
}

proof fn lemma_closing(s: LoopView, p: Seq<Seq<u8>>, answers: Seq<AnswerView>)
    requires
        s.roots.contains_key(p),
        s.handles.dom().finite(),
        is_unregistered(s.push(Task::RemoveRoot { path: p }), answers),
    ensures
        is_closing(s, p, run(s.push(Task::RemoveRoot { path: p }), answers)),
    decreases answers.len(),
{
    let start = s.push(Task::RemoveRoot { path: p });
    if answers.len() > 0 {
        let before = answers.drop_last();
        assert(answers.take(answers.len() - 1) =~= before);
        assert forall|k: int| 0 <= k < before.len() implies !((#[trigger] run(
            start,
            before.take(k),
        )).tasks.last() is Register) by {
            assert(before.take(k) =~= answers.take(k));
        }
        assert(!(run(start, answers.take(answers.len() - 1)).tasks.last() is Register));
        lemma_keeping(s, p, before);
        lemma_closing(s, p, before);
        lemma_closing_step(s, p, run(start, before), answers.last());
    }
}

/// When the unwatch of a root comes to the registration of the handles, what only the root needed
/// is closed, whatever the system answered: of what was there for the root, only the handles are
/// left that another root reports through or is tracked below.
pub proof fn unwatch_drops_unneeded_handles(
    s: LoopView,
    p: Seq<Seq<u8>>,
    answers: Seq<AnswerView>,
    q: Seq<Seq<u8>>,
)
    requires
        s.roots.contains_key(p),
        s.handles.dom().finite(),
        is_unregistered(s.push(Task::RemoveRoot { path: p }), answers),
        run(s.push(Task::RemoveRoot { path: p }), answers).tasks.last() is Register,
        run(s.push(Task::RemoveRoot { path: p }), answers).handles.contains_key(q),
        is_there_for(s.roots[p].mode, p, q),
    ensures
        is_needed(s.roots.remove(p), q),
{
    let n = s.tasks.len() as int;
    let end = run(s.push(Task::RemoveRoot { path: p }), answers);
    lemma_keeping(s, p, answers);
    lemma_closing(s, p, answers);
    assert(end.tasks.last() == end.tasks[end.tasks.len() - 1]);
    let kind = releasing(s.roots.remove(p));
    assert(!kind(end.tasks.last()));
}

/// Whether there is a handle at the directory that `root` is in, if it is in one.
pub open spec fn is_linked(x: LoopView, root: Seq<Seq<u8>>) -> bool {
    path::has_parent(root) ==> x.handles.contains_key(root.drop_last())
}

/// How a handle at `q` is opened by the task at `n`, and what comes of it.
spec fn is_adding(x: LoopView, n: int, q: Seq<Seq<u8>>) -> bool {
    if x.tasks.len() <= n {
        x.tasks.len() == n && (x.outcome is Failed || x.handles.contains_key(q))
    } else {
        &&& x.tasks.len() == n + 1
        &&& match x.tasks[n] {
            Task::AddSingle { path, .. } => path == q,
            Task::AddSingleAnswered { path, .. } => path == q,
            _ => false,
        }
    }
}

/// How the ancestors of `root` are watched by the task at `n`, and what comes of it.
spec fn is_chaining(x: LoopView, n: int, root: Seq<Seq<u8>>) -> bool {
    if x.tasks.len() <= n {
        &&& x.tasks.len() == n
        &&& x.outcome is Failed || (x.outcome matches Outcome::Reached(reached) && (reached
            ==> is_linked(x, root)))
    } else {
        match x.tasks[n] {
            Task::Chain { root: r, n: k } => {
                &&& r == root && x.tasks.len() == n + 1
                &&& path::floor(root) <= k <= root.len()
                &&& k == root.len() ==> is_linked(x, root)
            },
            Task::ChainLooked { root: r, n: k } => {
                &&& r == root && x.tasks.len() == n + 1
                &&& path::floor(root) <= k < root.len()
            },
            Task::ChainAdded { root: r, n: k } => {
                &&& r == root && path::floor(root) <= k < root.len()
                &&& is_adding(x, n + 1, root.take(k as int))
            },
            _ => false,
        }
    }
}

/// What the system was asked to name, and what it named: the entries of a directory, or with `deep`
/// all that is at and below a path.
#[verifier::ext_equal]
pub struct Look {
    pub path: Seq<Seq<u8>>,
    pub deep: bool,
    pub found: Seq<Seq<Seq<u8>>>,
    /// Whether there is nothing else.
    pub over: bool,
}

/// The looks, with the one that a step asks for, or with what was answered to the last one.
pub open spec fn followed(looks: Seq<Look>, x: LoopView, answer: AnswerView) -> Seq<Look> {
    match x.step(answer).1 {
        Request::Walk(p) => looks.push(
            Look { path: p, deep: true, found: Seq::empty(), over: false },
        ),
        Request::List(p) => looks.push(
            Look { path: p, deep: false, found: Seq::empty(), over: false },
        ),
        _ => if looks.len() > 0 && x.tasks.len() > 0 {
            let look = looks.last();
            looks.drop_last().push(
                match x.tasks.last() {
                    Task::WalkFound => match answer.walked() {
                        None => Look { over: true, ..look },
                        Some(Ok(q)) => Look { found: look.found.push(q), ..look },
                        Some(Err(_)) => look,
                    },
                    Task::DirListed => match answer.list() {
                        Ok(paths) => Look { found: paths, over: true, ..look },
                        Err(_) => Look { over: true, ..look },
                    },
                    _ => look,
                },
            )
        } else {
            looks
        },
    }
}

/// The looks that were asked for on the answers, and what was answered to them.
pub open spec fn looks(s: LoopView, answers: Seq<AnswerView>) -> Seq<Look>
    decreases answers.len(),
{
    if answers.len() == 0 {
        Seq::empty()
    } else {
        followed(looks(s, answers.drop_last()), run(s, answers.drop_last()), answers.last())
    }
}

/// Whether there is a handle at each of the paths.
pub open spec fn are_held(handles: Map<Seq<Seq<u8>>, bool>, paths: Seq<Seq<Seq<u8>>>) -> bool {
    forall|i: int| 0 <= i < paths.len() ==> handles.contains_key(#[trigger] paths[i])
}

/// Whether the last look is that at `p`, went on until nothing was left, and there is a handle at
/// all that was named.
pub open spec fn is_looked_at(
    handles: Map<Seq<Seq<u8>>, bool>,
    looks: Seq<Look>,
    p: Seq<Seq<u8>>,
    deep: bool,
) -> bool {
    &&& looks.len() > 0
    &&& looks.last().path == p && looks.last().deep == deep
    &&& looks.last().over
    &&& are_held(handles, looks.last().found)
}

/// Whether there are handles at what is watched of `p`: at all that the walk of the tree named, at
/// a directory and the entries that the listing of it named, or at the path alone.
pub open spec fn is_covered(
    handles: Map<Seq<Seq<u8>>, bool>,
    looks: Seq<Look>,
    p: Seq<Seq<u8>>,
    recursive: bool,
    is_dir: bool,
) -> bool {
    if recursive {
        is_looked_at(handles, looks, p, true)
    } else {
        handles.contains_key(p) && (is_dir ==> is_looked_at(handles, looks, p, false))
    }
}

/// How a path is watched by the task at `n`, and what comes of it.
spec fn is_covering(
    x: LoopView,
    n: int,
    p: Seq<Seq<u8>>,
    recursive: bool,
    is_dir: bool,
    looks: Seq<Look>,
) -> bool {
    let look = looks.last();
    let begun = looks.len() > 0 && look.path == p && look.deep == recursive;
    if x.tasks.len() <= n {
        x.tasks.len() == n && (x.outcome is Failed || is_covered(
            x.handles,
            looks,
            p,
            recursive,
            is_dir,
        ))
    } else {
        match x.tasks[n] {
            Task::Watch { path, recursive: v, is_dir: d } => x.tasks.len() == n + 1 && path == p
                && v == recursive && d == is_dir,
            Task::AddSingle { .. } => !recursive && !is_dir && is_adding(x, n, p),
            Task::AddSingleAnswered { .. } => !recursive && !is_dir && is_adding(x, n, p),
            Task::DirAdded { path } => !recursive && path == p && is_adding(x, n + 1, p),
            Task::DirListed => !recursive && x.tasks.len() == n + 1 && x.handles.contains_key(p)
                && begun && look.found.len() == 0,
            Task::AddEach { paths } => {
                let k = look.found.len() - paths.len();
                &&& !recursive && x.tasks.len() == n + 1 && x.handles.contains_key(p)
                &&& begun && look.over
                &&& 0 <= k && paths == look.found.skip(k)
                &&& are_held(x.handles, look.found.take(k))
            },
            Task::AddEachAdded { paths } => {
                let k = look.found.len() - paths.len();
                &&& !recursive && x.handles.contains_key(p)
                &&& begun && look.over
                &&& 1 <= k && paths == look.found.skip(k)
                &&& are_held(x.handles, look.found.take(k - 1))
                &&& is_adding(x, n + 1, look.found[k - 1])
            },
            Task::WalkFound => recursive && x.tasks.len() == n + 1 && begun && are_held(
                x.handles,
                look.found,
            ),
            Task::WalkAdded => recursive && begun && look.found.len() > 0 && are_held(
                x.handles,
                look.found.drop_last(),
            ) && is_adding(x, n + 1, look.found.last()),
            _ => false,
        }
    }
}

/// Whether the handles that a root is reported through are there, if the root is: what is watched
/// of it, and that of the directory it is in if it is tracked.
pub open spec fn is_set_up(
    x: LoopView,
    looks: Seq<Look>,
    root: Seq<Seq<u8>>,
    tracks: bool,
    recursive: bool,
    state: RootState,
) -> bool {
    let is_dir = state == RootState::Directory;
    state != RootState::Missing ==> {
        &&& tracks ==> is_linked(x, root)
        &&& is_covered(x.handles, looks, root, recursive && is_dir, is_dir)
    }
}

/// What comes of the arm of a root: the handles it needs are there.
pub open spec fn is_armed(
    x: LoopView,
    looks: Seq<Look>,
    root: Seq<Seq<u8>>,
    recursive: bool,
) -> bool {
    match x.outcome {
        Outcome::Failed(_) => true,
        Outcome::Armed(state) => is_set_up(x, looks, root, true, recursive, state),
        _ => false,
    }
}

/// How the arm of a root goes on.
spec fn is_arm(
    s: LoopView,
    root: Seq<Seq<u8>>,
    recursive: bool,
    x: LoopView,
    looks: Seq<Look>,
) -> bool {
    let n = s.tasks.len() as int;
    if x.tasks.len() <= n {
        x.tasks == s.tasks && is_armed(x, looks, root, recursive)
    } else {
        &&& x.tasks.take(n) == s.tasks
        &&& match x.tasks[n] {
            Task::ArmRoot { root: r, recursive: v } => r == root && v == recursive
                && x.tasks.len() == n + 1,
            Task::ArmReached { root: r, recursive: v } => r == root && v == recursive
                && is_chaining(x, n + 1, root),
            Task::ArmLooked { root: r, recursive: v } => r == root && v == recursive
                && x.tasks.len() == n + 1 && is_linked(x, root),
            Task::ArmAdded { state } => {
                let is_dir = state == RootState::Directory;
                &&& state != RootState::Missing && is_linked(x, root)
                &&& is_covering(x, n + 1, root, recursive && is_dir, is_dir, looks)
            },
            _ => false,
        }
    }
}

proof fn lemma_adding_step(x: LoopView, n: int, q: Seq<Seq<u8>>, answer: AnswerView)
    requires
        n >= 0,
        is_adding(x, n, q),
        x.tasks.len() == n + 1,
    ensures
        is_adding(x.step(answer).0, n, q),
        x.handles.dom().subset_of(x.step(answer).0.handles.dom()),
        x.step(answer).0.tasks.take(n) == x.tasks.take(n),
{
    assert(x.tasks.last() == x.tasks[n]);
    reveal(LoopView::add_single);
    reveal(LoopView::add_single_answered);
    let r = x.step(answer).0;
    assert(x.popped().tasks =~= x.tasks.take(n));
    assert(r.tasks.take(n) =~= x.tasks.take(n));
}

proof fn lemma_chaining_step(x: LoopView, n: int, root: Seq<Seq<u8>>, answer: AnswerView)
    requires
        n >= 0,
        is_chaining(x, n, root),
        x.tasks.len() > n,
        root.len() <= usize::MAX,
    ensures
        is_chaining(x.step(answer).0, n, root),
        x.step(answer).0.tasks.len() >= n,
        x.step(answer).0.tasks.take(n) == x.tasks.take(n),
{
    let r = x.step(answer).0;
    if x.tasks.len() > n + 1 {
        let k = x.tasks[n]->ChainAdded_n;
        lemma_adding_step(x, n + 1, root.take(k as int), answer);
        assert(r.tasks[n] == r.tasks.take(n + 1)[n]);
        assert(x.tasks[n] == x.tasks.take(n + 1)[n]);
        assert(r.tasks.take(n) =~= r.tasks.take(n + 1).take(n));
        assert(x.tasks.take(n) =~= x.tasks.take(n + 1).take(n));
    } else {
        assert(x.tasks.last() == x.tasks[n]);
        assert(x.popped().tasks =~= x.tasks.take(n));
        reveal(LoopView::chain);
        reveal(LoopView::chain_looked);
        reveal(LoopView::chain_added);
        if let Task::ChainAdded { root: _, n: k } = x.tasks[n] {
            if k + 1 == root.len() {
                assert(root.take(k as int) =~= root.drop_last());
            }
        }
        assert(r.tasks.take(n) =~= x.tasks.take(n));
    }
}

proof fn lemma_held(
    a: Map<Seq<Seq<u8>>, bool>,
    b: Map<Seq<Seq<u8>>, bool>,
    paths: Seq<Seq<Seq<u8>>>,
)
    requires
        a.dom().subset_of(b.dom()),
        are_held(a, paths),
    ensures
        are_held(b, paths),
{
    assert forall|i: int| 0 <= i < paths.len() implies b.contains_key(#[trigger] paths[i]) by {
        assert(a.dom().contains(paths[i]));
        assert(b.dom().contains(paths[i]));
    }
}

proof fn lemma_covering_step(
    x: LoopView,
    n: int,
    p: Seq<Seq<u8>>,
    recursive: bool,
    is_dir: bool,
    looks: Seq<Look>,
    answer: AnswerView,
)
    requires
        n >= 0,
        is_covering(x, n, p, recursive, is_dir, looks),
        x.tasks.len() > n,
    ensures
        is_covering(
            x.step(answer).0,
            n,
            p,
            recursive,
            is_dir,
            followed(looks, x, answer),
        ),
        x.step(answer).0.tasks.len() >= n,
        x.handles.dom().subset_of(x.step(answer).0.handles.dom()),
        x.step(answer).0.tasks.take(n) == x.tasks.take(n),
{
    let r = x.step(answer).0;
    let look = looks.last();
    let after = followed(looks, x, answer);
    if x.tasks.len() > n + 1 {
        let q = match x.tasks[n] {
            Task::DirAdded { .. } => p,
            Task::AddEachAdded { paths } => look.found[look.found.len() - paths.len() - 1],
            _ => look.found.last(),
        };
        lemma_adding_step(x, n + 1, q, answer);
        assert(x.tasks.last() == x.tasks[n + 1]);
        reveal(LoopView::add_single);
        reveal(LoopView::add_single_answered);
        assert(r.tasks[n] == r.tasks.take(n + 1)[n]);
        assert(x.tasks[n] == x.tasks.take(n + 1)[n]);
        assert(r.tasks.take(n) =~= r.tasks.take(n + 1).take(n));
        assert(x.tasks.take(n) =~= x.tasks.take(n + 1).take(n));
        if looks.len() > 0 {
            assert(after =~= looks.drop_last().push(look));
        }
        match x.tasks[n] {
            Task::AddEachAdded { paths } => {
                let k = look.found.len() - paths.len();
                lemma_held(x.handles, r.handles, look.found.take(k - 1));
            },
            Task::WalkAdded => {
                lemma_held(x.handles, r.handles, look.found.drop_last());
            },
            _ => {},
        }
    } else {
        assert(x.tasks.last() == x.tasks[n]);
        assert(x.popped().tasks =~= x.tasks.take(n));
        match x.tasks[n] {
            Task::Watch { .. } => {
                reveal(LoopView::watch);
            },
            Task::AddSingle { .. } => {
                lemma_adding_step(x, n, p, answer);
                reveal(LoopView::add_single);
            },
            Task::AddSingleAnswered { .. } => {
                lemma_adding_step(x, n, p, answer);
                reveal(LoopView::add_single_answered);
            },
            Task::DirAdded { .. } => {
                reveal(LoopView::dir_added);
            },
            Task::DirListed => {
                reveal(LoopView::dir_listed);
                if let Ok(paths) = answer.list() {
                    assert(after.last().found.skip(0) =~= paths);
                }
            },
            Task::AddEach { paths } => {
                reveal(LoopView::add_each);
                let k = look.found.len() - paths.len();
                assert(after.last() == look);
                if paths.len() == 0 {
                    assert(look.found.take(k) =~= look.found);
                } else {
                    assert(paths.drop_first() =~= look.found.skip(k + 1));
                    assert(paths[0] == look.found[k]);
                }
            },
            Task::AddEachAdded { paths } => {
                reveal(LoopView::add_each_added);
                let k = look.found.len() - paths.len();
                assert(after.last() == look);
                if !(x.outcome is Failed) {
                    let first = look.found.take(k);
                    assert forall|i: int| 0 <= i < first.len() implies x.handles.contains_key(
                        #[trigger] first[i],
                    ) by {
                        if i < k - 1 {
                            assert(first[i] == look.found.take(k - 1)[i]);
                        }
                    }
                }
            },
            Task::WalkFound => {
                reveal(LoopView::walk_found);
                if let Some(Ok(q)) = answer.walked() {
                    assert(after.last().found.drop_last() =~= look.found);
                }
            },
            Task::WalkAdded => {
                reveal(LoopView::walk_added);
                assert(after.last() == look);
                if !(x.outcome is Failed) {
                    assert forall|i: int| 0 <= i < look.found.len() implies x.handles.contains_key(
                        #[trigger] look.found[i],
                    ) by {
                        if i < look.found.len() - 1 {
                            assert(look.found[i] == look.found.drop_last()[i]);
                        }
                    }
                }
            },
            _ => {},
        }
        assert(r.tasks.take(n) =~= x.tasks.take(n));
    }
}

proof fn lemma_arm_step(
    s: LoopView,
    root: Seq<Seq<u8>>,
    recursive: bool,
    x: LoopView,
    looks: Seq<Look>,
    answer: AnswerView,
)
    requires
        is_arm(s, root, recursive, x, looks),
        x.tasks.len() > s.tasks.len(),
        root.len() <= usize::MAX,
    ensures
        is_arm(s, root, recursive, x.step(answer).0, followed(looks, x, answer)),
{
    let n = s.tasks.len() as int;
    let r = x.step(answer).0;
    if x.tasks.len() > n + 1 {
        match x.tasks[n] {
            Task::ArmReached { .. } => {
                lemma_chaining_step(x, n + 1, root, answer);
            },
            Task::ArmAdded { state } => {
                let is_dir = state == RootState::Directory;
                lemma_covering_step(x, n + 1, root, recursive && is_dir, is_dir, looks, answer);
            },
            _ => {},
        }
        assert(r.tasks[n] == r.tasks.take(n + 1)[n]);
        assert(x.tasks[n] == x.tasks.take(n + 1)[n]);
        assert(r.tasks.take(n) =~= r.tasks.take(n + 1).take(n));
        assert(x.tasks.take(n) =~= x.tasks.take(n + 1).take(n));
    } else {
        assert(x.tasks.last() == x.tasks[n]);
        assert(x.popped().tasks =~= s.tasks);
        reveal(LoopView::arm_root);
        reveal(LoopView::arm_reached);
        reveal(LoopView::arm_looked);
        reveal(LoopView::arm_added);
        assert(r.tasks.len() >= n ==> r.tasks.take(n) =~= s.tasks);
        if looks.len() > 0 {
            assert(looks.drop_last().push(looks.last()) =~= looks);
        }
    }
}

proof fn lemma_arm_goes_on(
    s: LoopView,
    root: Seq<Seq<u8>>,
    recursive: bool,
    answers: Seq<AnswerView>,
)
    requires
        is_busy(s.push(Task::ArmRoot { root, recursive }), answers, s.tasks.len()),
        root.len() <= usize::MAX,
    ensures
        is_arm(
            s,
            root,
            recursive,
            run(s.push(Task::ArmRoot { root, recursive }), answers),
            looks(s.push(Task::ArmRoot { root, recursive }), answers),
        ),
    decreases answers.len(),
{
    let start = s.push(Task::ArmRoot { root, recursive });
    if answers.len() == 0 {
        assert(start.tasks.take(s.tasks.len() as int) =~= s.tasks);
    } else {
        let before = answers.drop_last();
        lemma_busy(start, answers, s.tasks.len());
        lemma_arm_goes_on(s, root, recursive, before);
        let x = run(start, before);
        lemma_arm_step(s, root, recursive, x, looks(start, before), answers.last());
    }
}

/// Once a root that is there is armed, there are handles at the directory it is in and at what is
/// watched of the root, whatever the system answers: at all that the walk of a tree named, at a
/// directory and the entries that the listing of it named, or at the root alone.
pub proof fn armed_root_has_handles(
    s: LoopView,
    root: Seq<Seq<u8>>,
    recursive: bool,
    answers: Seq<AnswerView>,
)
    requires
        ends(s.push(Task::ArmRoot { root, recursive }), answers),
        root.len() <= usize::MAX,
    ensures
        is_armed(
            run(s.push(Task::ArmRoot { root, recursive }), answers),
            looks(s.push(Task::ArmRoot { root, recursive }), answers),
            root,
            recursive,
        ),
{
    assert(s.push(Task::ArmRoot { root, recursive }).popped().tasks =~= s.tasks);
    lemma_arm_goes_on(s, root, recursive, answers);
}

/// How the arm of the root `p` goes on above the task at `n`, which waits for it.
spec fn is_arm_above(
    x: LoopView,
    n: int,
    p: Seq<Seq<u8>>,
    recursive: bool,
    looks: Seq<Look>,
) -> bool {
    if x.tasks.len() == n + 1 {
        is_armed(x, looks, p, recursive)
    } else {
        match x.tasks[n + 1] {
            Task::Arm { root, recursive: v } => root == p && v == recursive && x.tasks.len() == n
                + 2,
            Task::ArmEnded { root, .. } => root == p && is_arm(
                LoopView { tasks: x.tasks.take(n + 2), ..x },
                p,
                recursive,
                x,
                looks,
            ),
            Task::Fail { .. } => are_from(x, n + 2, quiet()),
            _ => false,
        }
    }
}

proof fn lemma_arm_above_step(
    x: LoopView,
    n: int,
    p: Seq<Seq<u8>>,
    recursive: bool,
    looks: Seq<Look>,
    answer: AnswerView,
)
    requires
        n >= 0,
        is_arm_above(x, n, p, recursive, looks),
        x.tasks.len() > n + 1,
        p.len() <= usize::MAX,
    ensures
        is_arm_above(x.step(answer).0, n, p, recursive, followed(looks, x, answer)),
        x.step(answer).0.tasks.len() > n,
        x.step(answer).0.tasks[n] == x.tasks[n],
        x.step(answer).0.tasks.take(n) == x.tasks.take(n),
{
    let r = x.step(answer).0;
    let rest = x.popped();
    lemma_step(x, answer);
    if x.tasks.len() == n + 2 {
        assert(x.tasks.last() == x.tasks[n + 1]);
        reveal(LoopView::arm);
        reveal(LoopView::arm_ended);
        assert(r.tasks.take(n) =~= r.tasks.take(rest.tasks.len() as int).take(n));
        assert(x.tasks.take(n) =~= rest.tasks.take(n));
        assert(r.tasks[n] == r.tasks.take(rest.tasks.len() as int)[n]);
        assert(rest.tasks[n] == x.tasks[n]);
        assert(rest.tasks.len() == n + 1);
        if looks.len() > 0 {
            assert(looks.drop_last().push(looks.last()) =~= looks);
        }
    } else {
        assert(r.tasks.take(n + 2) =~= r.tasks.take(rest.tasks.len() as int).take(n + 2));
        assert(x.tasks.take(n + 2) =~= rest.tasks.take(n + 2));
        if x.tasks[n + 1] is Fail {
            lemma_quiet_step(x, n + 1, answer);
        } else {
            let base = LoopView { tasks: x.tasks.take(n + 2), ..x };
            lemma_arm_step(base, p, recursive, x, looks, answer);
        }
        assert(r.tasks[n] == r.tasks.take(n + 2)[n]);
        assert(x.tasks[n] == x.tasks.take(n + 2)[n]);
        assert(r.tasks[n + 1] == r.tasks.take(n + 2)[n + 1]);
        assert(x.tasks[n + 1] == x.tasks.take(n + 2)[n + 1]);
        assert(r.tasks.take(n) =~= r.tasks.take(n + 2).take(n));
        assert(x.tasks.take(n) =~= x.tasks.take(n + 2).take(n));
    }
}

/// How the watch of the new path `p` goes on.
spec fn is_settling(
    s: LoopView,
    p: Seq<Seq<u8>>,
    mode: WatchMode,
    x: LoopView,
    looks: Seq<Look>,
) -> bool {
    let n = s.tasks.len() as int;
    let recursive = mode.is_recursive();
    if x.tasks.len() <= n {
        ||| x.outcome is Failed
        ||| x.roots.contains_key(p) && is_set_up(
            x,
            looks,
            p,
            mode.tracks_path(),
            recursive,
            x.roots[p].state,
        )
    } else {
        &&& x.tasks.take(n) == s.tasks
        &&& match x.tasks[n] {
            Task::AddInner { path, mode: m } => path == p && m == mode && x.tasks.len() == n + 1
                && !x.roots.contains_key(p),
            Task::AddRootArmed { path, mode: m } => path == p && m == mode && mode.tracks_path()
                && is_arm_above(x, n, p, recursive, looks),
            Task::AddRootLooked { path, mode: m } => path == p && m == mode && x.tasks.len() == n
                + 1 && !mode.tracks_path(),
            Task::AddRootAdded { path, mode: m, state } => {
                let is_dir = state == RootState::Directory;
                &&& path == p && m == mode && !mode.tracks_path() && state != RootState::Missing
                &&& is_covering(x, n + 1, p, recursive && is_dir, is_dir, looks)
            },
            Task::Fail { .. } => are_from(x, n + 1, quiet()),
            _ => false,
        }
    }
}

proof fn lemma_settling_step(
    s: LoopView,
    p: Seq<Seq<u8>>,
    mode: WatchMode,
    x: LoopView,
    looks: Seq<Look>,
    answer: AnswerView,
)
    requires
        is_settling(s, p, mode, x, looks),
        x.tasks.len() > s.tasks.len(),
        p.len() <= usize::MAX,
    ensures
        is_settling(s, p, mode, x.step(answer).0, followed(looks, x, answer)),
{
    let n = s.tasks.len() as int;
    let r = x.step(answer).0;
    if x.tasks.len() == n + 1 {
        assert(x.tasks.last() == x.tasks[n]);
        assert(x.popped().tasks =~= s.tasks);
        reveal(LoopView::add_inner);
        reveal(LoopView::add_root_armed);
        reveal(LoopView::add_root_looked);
        reveal(LoopView::add_root_added);
        assert(r.tasks.len() >= n ==> r.tasks.take(n) =~= s.tasks);
        if looks.len() > 0 {
            assert(looks.drop_last().push(looks.last()) =~= looks);
        }
    } else if x.tasks[n] is Fail {
        lemma_quiet_step(x, n, answer);
    } else if let Task::AddRootAdded { state, .. } = x.tasks[n] {
        let is_dir = state == RootState::Directory;
        lemma_covering_step(
            x,
            n + 1,
            p,
            mode.is_recursive() && is_dir,
            is_dir,
            looks,
            answer,
        );
        assert(r.tasks[n] == r.tasks.take(n + 1)[n]);
        assert(x.tasks[n] == x.tasks.take(n + 1)[n]);
        assert(r.tasks.take(n) =~= r.tasks.take(n + 1).take(n));
        assert(x.tasks.take(n) =~= x.tasks.take(n + 1).take(n));
    } else {
        lemma_arm_above_step(x, n, p, mode.is_recursive(), looks, answer);
    }
}

proof fn lemma_settling(
    s: LoopView,
    p: Seq<Seq<u8>>,
    mode: WatchMode,
    answers: Seq<AnswerView>,
)
    requires
        !s.roots.contains_key(p),
        is_busy(s.push(Task::AddInner { path: p, mode }), answers, s.tasks.len()),
        p.len() <= usize::MAX,
    ensures
        is_settling(
            s,
            p,
            mode,
            run(s.push(Task::AddInner { path: p, mode }), answers),
            looks(s.push(Task::AddInner { path: p, mode }), answers),
        ),
    decreases answers.len(),
{
    let start = s.push(Task::AddInner { path: p, mode });
    if answers.len() == 0 {
        assert(start.tasks.take(s.tasks.len() as int) =~= s.tasks);
    } else {
        let before = answers.drop_last();
        lemma_busy(start, answers, s.tasks.len());
        lemma_settling(s, p, mode, before);
        lemma_settling_step(s, p, mode, run(start, before), looks(start, before), answers.last());
    }
}

/// Once a path that is there is watched, and before the handles are registered, the handles that it
/// is reported through are there, whatever the system answers: at all that the walk of a tree
/// named, at a directory and the entries that the listing of it named, or at the path alone, and at
/// the directory it is in if the path is tracked.
pub proof fn watch_is_set_up(
    s: LoopView,
    p: Seq<Seq<u8>>,
    mode: WatchMode,
    answers: Seq<AnswerView>,
)
    requires
        !s.roots.contains_key(p),
        ends(s.push(Task::AddInner { path: p, mode }), answers),
        p.len() <= usize::MAX,
    ensures
        ({
            let start = s.push(Task::AddInner { path: p, mode });
            let end = run(start, answers);
            end.outcome is Failed || (end.roots.contains_key(p) && is_set_up(
                end,
                looks(start, answers),
                p,
                mode.tracks_path(),
                mode.is_recursive(),
                end.roots[p].state,
            ))
        }),
{
    assert(s.push(Task::AddInner { path: p, mode }).popped().tasks =~= s.tasks);
    lemma_settling(s, p, mode, answers);
}

/// Whether the look at a root that is to be watched recursively found something else than a
/// directory.
pub open spec fn found_no_directory(s: LoopView, answers: Seq<AnswerView>) -> bool {
    exists|k: int|
        0 <= k < answers.len() && {
            let x = #[trigger] run(s, answers.take(k));
            &&& x.tasks.len() > 0 && x.tasks.last() is UpgradeLooked
            &&& answers[k].stat() matches Ok(stat) && !stat.is_dir
        }
}

/// Whether the look at an ancestor of a root that is to be tracked found no directory.
pub open spec fn found_cut_off(s: LoopView, answers: Seq<AnswerView>) -> bool {
    exists|k: int|
        0 <= k < answers.len() && is_cut_off(#[trigger] run(s, answers.take(k)), answers[k])
}

/// Whether the answer says that an ancestor is no directory.
pub open spec fn is_cut_off(x: LoopView, answer: AnswerView) -> bool {
    &&& x.tasks.len() > 0 && x.tasks.last() is ChainLooked
    &&& !(answer.stat() matches Ok(stat) && stat.is_dir)
}

/// Whether a root that is there is tracked from now on.
pub open spec fn gets_tracked(root: RootWatch, mode: WatchMode) -> bool {
    mode.tracks_path() && !root.mode.tracks_path() && root.state != RootState::Missing
}

/// Whether a root that is there is watched recursively from now on.
pub open spec fn recurses(root: RootWatch, mode: WatchMode) -> bool {
    mode.is_recursive() && !root.mode.is_recursive() && root.state != RootState::Missing
}

/// What is there once the root `p`, which was `root`, was watched again in `mode`: it is watched in
/// both modes, there is a handle at all that the walk of a tree named that is watched recursively
/// now, unless the root is no directory, at the directory that a root is in which is tracked now,
/// unless it is cut off, and at what a missing root that is found there is reported through.
pub open spec fn is_set_up_again(
    x: LoopView,
    looks: Seq<Look>,
    p: Seq<Seq<u8>>,
    root: RootWatch,
    mode: WatchMode,
    no_directory: bool,
    cut_off: bool,
) -> bool {
    let both = WatchMode::both(root.mode, mode);
    &&& x.roots.contains_key(p) && x.roots[p].mode == both
    &&& gets_tracked(root, mode) ==> is_linked(x, p) || cut_off
    &&& recurses(root, mode) ==> is_looked_at(x.handles, looks, p, true) || no_directory
    &&& root.state == RootState::Missing ==> is_set_up(
        x,
        looks,
        p,
        true,
        both.is_recursive(),
        x.roots[p].state,
    )
}

/// How a watch of the path `p`, which is watched already, sets up what it needs.
spec fn is_settling_again(
    s: LoopView,
    p: Seq<Seq<u8>>,
    mode: WatchMode,
    x: LoopView,
    looks: Seq<Look>,
    no_directory: bool,
    cut_off: bool,
) -> bool {
    let n = s.tasks.len() as int;
    let root = s.roots[p];
    let linked = gets_tracked(root, mode) ==> is_linked(x, p) || cut_off;
    let both = WatchMode::both(root.mode, mode);
    let recurse = mode.is_recursive() && !root.mode.is_recursive();
    if x.tasks.len() <= n {
        x.outcome is Failed || is_set_up_again(x, looks, p, root, mode, no_directory, cut_off)
    } else {
        &&& x.tasks.take(n) == s.tasks
        &&& x.roots.contains_key(p) && x.roots[p].state == root.state
        &&& WatchMode::both(x.roots[p].mode, mode) == both
        &&& match x.tasks[n] {
            Task::AddInner { path, mode: m } => path == p && m == mode && x.roots == s.roots
                && x.tasks.len() == n + 1,
            Task::UpgradeReached { path, mode: m, recurse: v } => {
                &&& path == p && m == mode && v == recurse && mode.tracks_path()
                &&& are_from(x, n + 1, quiet()) && is_chaining(x, n + 1, p)
                &&& x.tasks.len() == n + 1 && x.outcome == Outcome::<ErrorView>::Reached(false)
                    ==> cut_off
            },
            Task::Upgrade { path, mode: m, recurse: v } => path == p && m == mode && v == recurse
                && linked && x.tasks.len() == n + 1,
            Task::UpgradeLooked { path, mode: m } => path == p && m == mode && linked && root.state
                != RootState::Missing && x.tasks.len() == n + 1,
            Task::UpgradeAdded { path, mode: m } => path == p && m == mode && linked && root.state
                != RootState::Missing && are_from(x, n + 1, quiet()) && is_covering(
                x,
                n + 1,
                p,
                true,
                true,
                looks,
            ),
            Task::UpgradeArmed { path } => path == p && root.state == RootState::Missing
                && x.roots[p].mode == both && are_from(x, n + 1, quiet()) && is_arm_above(
                x,
                n,
                p,
                both.is_recursive(),
                looks,
            ),
            Task::Fail { .. } => are_from(x, n + 1, quiet()),
            _ => false,
        }
    }
}

proof fn lemma_settling_again_step(
    s: LoopView,
    p: Seq<Seq<u8>>,
    mode: WatchMode,
    x: LoopView,
    looks: Seq<Look>,
    before: bool,
    after: bool,
    was_cut_off: bool,
    cut_off: bool,
    answer: AnswerView,
)
    requires
        s.roots.contains_key(p),
        is_settling_again(s, p, mode, x, looks, before, was_cut_off),
        x.tasks.len() > s.tasks.len(),
        p.len() <= usize::MAX,
        before ==> after,
        x.tasks.last() is UpgradeLooked && (answer.stat() matches Ok(stat) && !stat.is_dir)
            ==> after,
        was_cut_off ==> cut_off,
        is_cut_off(x, answer) ==> cut_off,
    ensures
        is_settling_again(
            s,
            p,
            mode,
            x.step(answer).0,
            followed(looks, x, answer),
            after,
            cut_off,
        ),
{
    let n = s.tasks.len() as int;
    let r = x.step(answer).0;
    if x.tasks.len() == n + 1 {
        assert(x.tasks.last() == x.tasks[n]);
        assert(x.popped().tasks =~= s.tasks);
        if looks.len() > 0 {
            assert(looks.drop_last().push(looks.last()) =~= looks);
        }
        reveal(LoopView::add_inner);
        reveal(LoopView::upgrade_reached);
        reveal(LoopView::upgrade);
        reveal(LoopView::upgrade_looked);
        reveal(LoopView::upgrade_added);
        reveal(LoopView::upgrade_armed);
        assert(r.tasks.len() >= n ==> r.tasks.take(n) =~= s.tasks);
    } else {
        lemma_quiet_step(x, n, answer);
        if x.tasks[n] is UpgradeReached {
            lemma_chaining_step(x, n + 1, p, answer);
            if x.tasks.len() == n + 2 {
                assert(x.tasks.last() == x.tasks[n + 1]);
                reveal(LoopView::chain);
                reveal(LoopView::chain_looked);
                reveal(LoopView::chain_added);
            } else {
                lemma_step(x, answer);
            }
        } else if x.tasks[n] is UpgradeAdded {
            lemma_covering_step(x, n + 1, p, true, true, looks, answer);
            if is_linked(x, p) && path::has_parent(p) {
                assert(x.handles.dom().contains(p.drop_last()));
            }
        } else if x.tasks[n] is UpgradeArmed {
            let both = WatchMode::both(s.roots[p].mode, mode);
            lemma_arm_above_step(x, n, p, both.is_recursive(), looks, answer);
        }
    }
}

proof fn lemma_settling_again(
    s: LoopView,
    p: Seq<Seq<u8>>,
    mode: WatchMode,
    answers: Seq<AnswerView>,
)
    requires
        s.roots.contains_key(p),
        is_busy(s.push(Task::AddInner { path: p, mode }), answers, s.tasks.len()),
        p.len() <= usize::MAX,
    ensures
        is_settling_again(
            s,
            p,
            mode,
            run(s.push(Task::AddInner { path: p, mode }), answers),
            looks(s.push(Task::AddInner { path: p, mode }), answers),
            found_no_directory(s.push(Task::AddInner { path: p, mode }), answers),
            found_cut_off(s.push(Task::AddInner { path: p, mode }), answers),
        ),
    decreases answers.len(),
{
    let start = s.push(Task::AddInner { path: p, mode });
    if answers.len() == 0 {
        assert(start.tasks.take(s.tasks.len() as int) =~= s.tasks);
    } else {
        let before = answers.drop_last();
        let x = run(start, before);
        lemma_busy(start, answers, s.tasks.len());
        lemma_settling_again(s, p, mode, before);
        if found_no_directory(start, before) {
            let k = choose|k: int|
                0 <= k < before.len() && {
                    let x = #[trigger] run(start, before.take(k));
                    &&& x.tasks.len() > 0 && x.tasks.last() is UpgradeLooked
                    &&& before[k].stat() matches Ok(stat) && !stat.is_dir
                };
            assert(answers.take(k) =~= before.take(k));
            assert(answers[k] == before[k]);
            assert(run(start, answers.take(k)).tasks.last() is UpgradeLooked);
        }
        assert(answers.take(answers.len() - 1) =~= before);
        assert(answers[answers.len() - 1] == answers.last());
        if x.tasks.last() is UpgradeLooked && (answers.last().stat() matches Ok(stat)
            && !stat.is_dir) {
            assert(run(start, answers.take(answers.len() - 1)).tasks.last() is UpgradeLooked);
        }
        if found_cut_off(start, before) {
            let k = choose|k: int|
                0 <= k < before.len() && is_cut_off(
                    #[trigger] run(start, before.take(k)),
                    before[k],
                );
            assert(answers.take(k) =~= before.take(k));
            assert(is_cut_off(run(start, answers.take(k)), answers[k]));
        }
        if is_cut_off(x, answers.last()) {
            let k = answers.len() - 1;
            assert(is_cut_off(run(start, answers.take(k)), answers[k]));
        }
        lemma_settling_again_step(
            s,
            p,
            mode,
            x,
            looks(start, before),
            found_no_directory(start, before),
            found_no_directory(start, answers),
            found_cut_off(start, before),
            found_cut_off(start, answers),
            answers.last(),
        );
    }
}

/// Once a path that is watched already was watched again, and before the handles are registered, it
/// is watched in both modes, whatever the system answers. If it is watched recursively only now,
/// there is a handle at all that the walk of it named, unless it is no directory. If it is tracked
/// only now, there is one at the directory it is in, unless it is cut off. If it was missing and is
/// found there, there are handles at what it is reported through.
pub proof fn watched_again_is_set_up(
    s: LoopView,
    p: Seq<Seq<u8>>,
    mode: WatchMode,
    answers: Seq<AnswerView>,
)
    requires
        s.roots.contains_key(p),
        ends(s.push(Task::AddInner { path: p, mode }), answers),
        p.len() <= usize::MAX,
    ensures
        ({
            let start = s.push(Task::AddInner { path: p, mode });
            let end = run(start, answers);
            end.outcome is Failed || is_set_up_again(
                end,
                looks(start, answers),
                p,
                s.roots[p],
                mode,
                found_no_directory(start, answers),
                found_cut_off(start, answers),
            )
        }),
{
    assert(s.push(Task::AddInner { path: p, mode }).popped().tasks =~= s.tasks);
    lemma_settling_again(s, p, mode, answers);
}

/// The paths found new whose watch failed on the answers, with the error.
pub open spec fn refused(s: LoopView, answers: Seq<AnswerView>) -> Map<Seq<Seq<u8>>, ErrorView>
    decreases answers.len(),
{
    if answers.len() == 0 {
        Map::empty()
    } else {
        refusing(refused(s, answers.drop_last()), run(s, answers.drop_last()))
    }
}

/// The paths whose watch failed, with the one that `x` is about to look at.
pub open spec fn refusing(
    refused: Map<Seq<Seq<u8>>, ErrorView>,
    x: LoopView,
) -> Map<Seq<Seq<u8>>, ErrorView> {
    if x.tasks.len() == 0 {
        refused
    } else {
        match (x.tasks.last(), x.outcome) {
            (Task::AddAllEnded { path, .. }, Outcome::Failed(error)) => refused.insert(path, error),
            _ => refused,
        }
    }
}

/// What a path is reported as that was gone before it could be watched.
pub open spec fn gone_again(p: Seq<Seq<u8>>) -> ReportView {
    ReportView::Event(EventView::new(EventKind::Remove(RemoveKind::Any)).with_path(p))
}

/// What comes of a path that was found new: one of the first `n` looks was at it, and what is
/// watched of it has handles; or the watch failed, and the path is reported removed if it was gone.
pub open spec fn is_taken_care_of(
    x: LoopView,
    looks: Seq<Look>,
    refused: Map<Seq<Seq<u8>>, ErrorView>,
    n: int,
    p: Seq<Seq<u8>>,
    found: task::Found,
) -> bool {
    ||| exists|m: int|
        0 <= m <= n && #[trigger] is_covered(
            x.handles,
            looks.take(m),
            p,
            found.is_recursive,
            found.is_dir,
        )
    ||| refused.contains_key(p) && (refused[p].kind == ErrorKind::Io(ENOENT)
        && refused[p].paths.contains(p) ==> x.reports.contains(gone_again(p)))
}

/// The same of the first `d` paths of a list.
spec fn are_taken_care_of(
    x: LoopView,
    looks: Seq<Look>,
    refused: Map<Seq<Seq<u8>>, ErrorView>,
    n: int,
    list: Seq<Seq<Seq<u8>>>,
    d: int,
) -> bool {
    forall|i: int|
        0 <= i < d && x.batch.add.contains_key(list[i]) ==> is_taken_care_of(
            x,
            looks,
            refused,
            n,
            #[trigger] list[i],
            x.batch.add[list[i]],
        )
}

/// Whether a task waits for what is answered to a look.
spec fn is_looking(task: TaskView) -> bool {
    task is DirListed || task is AddEach || task is AddEachAdded || task is WalkFound
        || task is WalkAdded
}

/// What stays so: the looks before the last one are over, nothing is closed, and reports stay.
proof fn lemma_taken_care_of(
    x: LoopView,
    r: LoopView,
    before: Seq<Look>,
    after: Seq<Look>,
    refused: Map<Seq<Seq<u8>>, ErrorView>,
    n: int,
    list: Seq<Seq<Seq<u8>>>,
    d: int,
)
    requires
        are_taken_care_of(x, before, refused, n, list, d),
        0 <= n <= before.len(),
        n <= after.len(),
        after.take(n) == before.take(n),
        x.handles.dom().subset_of(r.handles.dom()),
        r.batch == x.batch,
        x.reports.len() <= r.reports.len(),
        r.reports.take(x.reports.len() as int) == x.reports,
    ensures
        are_taken_care_of(r, after, refused, n, list, d),
{
    assert forall|i: int| 0 <= i < d && r.batch.add.contains_key(list[i]) implies is_taken_care_of(
        r,
        after,
        refused,
        n,
        #[trigger] list[i],
        r.batch.add[list[i]],
    ) by {
        let p = list[i];
        let found = x.batch.add[p];
        assert(is_taken_care_of(x, before, refused, n, p, found));
        if exists|m: int|
            0 <= m <= n && #[trigger] is_covered(
                x.handles,
                before.take(m),
                p,
                found.is_recursive,
                found.is_dir,
            ) {
            let m = choose|m: int|
                0 <= m <= n && #[trigger] is_covered(
                    x.handles,
                    before.take(m),
                    p,
                    found.is_recursive,
                    found.is_dir,
                );
            assert(after.take(m) =~= after.take(n).take(m));
            assert(before.take(m) =~= before.take(n).take(m));
            if m > 0 {
                if found.is_recursive || found.is_dir {
                    lemma_held(x.handles, r.handles, before.take(m).last().found);
                }
            }
            assert(x.handles.contains_key(p) ==> r.handles.contains_key(p)) by {
                assert(x.handles.dom().contains(p) ==> r.handles.dom().contains(p));
            }
            assert(is_covered(
                r.handles,
                after.take(m),
                p,
                found.is_recursive,
                found.is_dir,
            ));
        } else if x.reports.contains(gone_again(p)) {
            let k = x.reports.index_of(gone_again(p));
            assert(r.reports[k] == r.reports.take(x.reports.len() as int)[k]);
        }
    }
}

/// How the path at `d` of the list is watched; the first `n` looks are over.
spec fn is_adding_one(
    s: LoopView,
    list: Seq<Seq<Seq<u8>>>,
    x: LoopView,
    looks: Seq<Look>,
    refused: Map<Seq<Seq<u8>>, ErrorView>,
    d: int,
    n: int,
) -> bool {
    let t = s.tasks.len() as int;
    &&& 0 <= n <= looks.len() && 0 <= d <= list.len()
    &&& are_taken_care_of(x, looks, refused, n, list, d)
    &&& if x.tasks.len() <= t {
        d == list.len()
    } else {
        match x.tasks[t] {
            Task::AddAll { paths } => x.tasks.len() == t + 1 && paths == list.skip(d),
            Task::AddAllEnded { path, paths } => {
                &&& d < list.len() && path == list[d] && paths == list.skip(d + 1)
                &&& x.batch.add.contains_key(path)
                &&& is_covering(
                    x,
                    t + 1,
                    path,
                    x.batch.add[path].is_recursive,
                    x.batch.add[path].is_dir,
                    looks,
                )
                &&& x.tasks.len() > t + 1 && is_looking(x.tasks[t + 1]) ==> n < looks.len()
            },
            _ => false,
        }
    }
}

/// How the paths of a list, which were found new, are watched.
spec fn is_adding_all(
    s: LoopView,
    list: Seq<Seq<Seq<u8>>>,
    x: LoopView,
    looks: Seq<Look>,
    refused: Map<Seq<Seq<u8>>, ErrorView>,
) -> bool {
    &&& x.batch == s.batch
    &&& x.tasks.len() >= s.tasks.len()
    &&& exists|d: int, n: int| #[trigger] is_adding_one(s, list, x, looks, refused, d, n)
}

proof fn lemma_adding_all_step(
    s: LoopView,
    list: Seq<Seq<Seq<u8>>>,
    x: LoopView,
    looks: Seq<Look>,
    refused: Map<Seq<Seq<u8>>, ErrorView>,
    answer: AnswerView,
)
    requires
        is_adding_all(s, list, x, looks, refused),
        x.tasks.len() > s.tasks.len(),
    ensures
        is_adding_all(
            s,
            list,
            x.step(answer).0,
            followed(looks, x, answer),
            refusing(refused, x),
        ),
{
    let t = s.tasks.len() as int;
    let r = x.step(answer).0;
    let after = followed(looks, x, answer);
    let more = refusing(refused, x);
    let (d, n) = choose|d: int, n: int| #[trigger]
        is_adding_one(s, list, x, looks, refused, d, n);
    if x.tasks.len() > t + 1 {
        let p = x.tasks[t]->AddAllEnded_path;
        let found = x.batch.add[p];
        lemma_covering_step(x, t + 1, p, found.is_recursive, found.is_dir, looks, answer);
        lemma_covering_quiet(x, t + 1, p, found.is_recursive, found.is_dir, looks, n, answer);
        assert(r.tasks[t] == r.tasks.take(t + 1)[t]);
        assert(x.tasks[t] == x.tasks.take(t + 1)[t]);
        assert(r.reports.take(x.reports.len() as int) =~= x.reports);
        lemma_taken_care_of(x, r, looks, after, refused, n, list, d);
        assert(is_adding_one(s, list, r, after, more, d, n));
    } else {
        assert(x.tasks.last() == x.tasks[t]);
        assert(x.popped().tasks =~= x.tasks.take(t));
        reveal(LoopView::add_all);
        reveal(LoopView::add_all_ended);
        if looks.len() > 0 {
            assert(looks.drop_last().push(looks.last()) =~= looks);
        }
        assert(after == looks);
        assert(r.reports.take(x.reports.len() as int) =~= x.reports);
        lemma_taken_care_of(x, r, looks, after, refused, n, list, d);
        if let Task::AddAll { paths } = x.tasks[t] {
            if paths.len() == 0 {
                assert(is_adding_one(s, list, r, after, more, d, n));
            } else {
                assert(paths.drop_first() =~= list.skip(d + 1));
                assert(paths[0] == list[d]);
                if x.batch.add.contains_key(paths[0]) {
                    assert(is_adding_one(s, list, r, after, more, d, n));
                } else {
                    assert(is_adding_one(s, list, r, after, more, d + 1, n));
                }
            }
        } else {
            let p = list[d];
            let m = looks.len() as int;
            assert(looks.take(m) =~= looks);
            assert forall|i: int| 0 <= i < d + 1 && r.batch.add.contains_key(
                list[i],
            ) implies is_taken_care_of(
                r,
                after,
                more,
                m,
                #[trigger] list[i],
                r.batch.add[list[i]],
            ) by {
                let q = list[i];
                let found = r.batch.add[q];
                if q == p {
                    if x.outcome is Failed {
                        assert(more.contains_key(p));
                        let told = x.reports.len() as int;
                        assert(r.reports.len() > told ==> r.reports[told] == gone_again(p));
                    } else {
                        assert(is_covered(
                            r.handles,
                            after.take(m),
                            q,
                            found.is_recursive,
                            found.is_dir,
                        ));
                    }
                } else {
                    assert(is_taken_care_of(r, after, refused, n, q, found));
                }
            }
            assert(is_adding_one(s, list, r, after, more, d + 1, m));
        }
    }
}

/// While a path is watched, nothing is reported, the batch stays, and so do the looks that are
/// over.
proof fn lemma_covering_quiet(
    x: LoopView,
    n: int,
    p: Seq<Seq<u8>>,
    recursive: bool,
    is_dir: bool,
    looks: Seq<Look>,
    over: int,
    answer: AnswerView,
)
    requires
        n >= 0,
        is_covering(x, n, p, recursive, is_dir, looks),
        x.tasks.len() > n,
        0 <= over <= looks.len(),
        is_looking(x.tasks[n]) ==> over < looks.len(),
    ensures
        x.step(answer).0.batch == x.batch,
        x.step(answer).0.reports == x.reports,
        over <= followed(looks, x, answer).len(),
        followed(looks, x, answer).take(over) == looks.take(over),
        x.step(answer).0.tasks.len() > n && is_looking(x.step(answer).0.tasks[n]) ==> over
            < followed(looks, x, answer).len(),
        !(x.tasks.last() is AddAllEnded),
{
    let r = x.step(answer).0;
    let after = followed(looks, x, answer);
    reveal(LoopView::add_single);
    reveal(LoopView::add_single_answered);
    if x.tasks.len() > n + 1 {
        assert(x.tasks.last() == x.tasks[n + 1]);
        assert(r.tasks[n] == x.tasks[n]);
    } else {
        assert(x.tasks.last() == x.tasks[n]);
        reveal(LoopView::watch);
        reveal(LoopView::dir_added);
        reveal(LoopView::dir_listed);
        reveal(LoopView::add_each);
        reveal(LoopView::add_each_added);
        reveal(LoopView::walk_found);
        reveal(LoopView::walk_added);
    }
    if looks.len() > 0 {
        assert(looks.drop_last().push(looks.last()) =~= looks);
    }
    assert(after.take(over) =~= looks.take(over));
}

proof fn lemma_adding_all(s: LoopView, list: Seq<Seq<Seq<u8>>>, answers: Seq<AnswerView>)
    requires
        is_busy(s.push(Task::AddAll { paths: list }), answers, s.tasks.len()),
    ensures
        is_adding_all(
            s,
            list,
            run(s.push(Task::AddAll { paths: list }), answers),
            looks(s.push(Task::AddAll { paths: list }), answers),
            refused(s.push(Task::AddAll { paths: list }), answers),
        ),
    decreases answers.len(),
{
    let start = s.push(Task::AddAll { paths: list });
    if answers.len() == 0 {
        assert(list.skip(0) =~= list);
        assert(is_adding_one(s, list, start, Seq::empty(), Map::empty(), 0, 0));
    } else {
        let before = answers.drop_last();
        lemma_busy(start, answers, s.tasks.len());
        lemma_adding_all(s, list, before);
        lemma_adding_all_step(
            s,
            list,
            run(start, before),
            looks(start, before),
            refused(start, before),
            answers.last(),
        );
    }
}

/// Every path that a batch found new is watched, whatever the system answers: there are handles at
/// all that the walk of a tree named, at a directory and the entries that the listing of it named,
/// or at the path alone. Otherwise its watch failed, and the path is reported removed if it was
/// gone by that time.
pub proof fn found_paths_are_watched(
    s: LoopView,
    paths: Seq<Seq<Seq<u8>>>,
    answers: Seq<AnswerView>,
    p: Seq<Seq<u8>>,
)
    requires
        ends(s.push(Task::AddAll { paths }), answers),
        paths.contains(p),
        s.batch.add.contains_key(p),
    ensures
        ({
            let start = s.push(Task::AddAll { paths });
            is_taken_care_of(
                run(start, answers),
                looks(start, answers),
                refused(start, answers),
                looks(start, answers).len() as int,
                p,
                s.batch.add[p],
            )
        }),
{
    let start = s.push(Task::AddAll { paths });
    let end = run(start, answers);
    assert(start.popped().tasks =~= s.tasks);
    lemma_adding_all(s, paths, answers);
    let all = looks(start, answers);
    let failed = refused(start, answers);
    let (d, n) = choose|d: int, n: int| #[trigger]
        is_adding_one(s, paths, end, all, failed, d, n);
    let i = paths.index_of(p);
    assert(is_taken_care_of(end, all, failed, n, paths[i], end.batch.add[p]));
}

/// How a batch that is read goes on until what it found new is to be watched.
spec fn is_getting_ready(s: LoopView, x: LoopView) -> bool {
    let n = s.tasks.len() as int;
    &&& x.batch == s.batch
    &&& x.tasks.len() >= n + 3 && x.tasks.take(n + 3) == s.process().tasks.take(n + 3)
    &&& are_from(x, n + 3, preparing())
}

pub open spec fn preparing() -> spec_fn(TaskView) -> bool {
    |t: TaskView| is_preparing(t)
}

proof fn lemma_getting_ready(s: LoopView, answers: Seq<AnswerView>)
    requires
        is_busy(s.process(), answers, s.tasks.len() + 3),
    ensures
        is_getting_ready(s, run(s.process(), answers)),
    decreases answers.len(),
{
    let start = s.process();
    let n = s.tasks.len() as int;
    if answers.len() > 0 {
        lemma_busy(start, answers, s.tasks.len() + 3);
        lemma_getting_ready(s, answers.drop_last());
        let x = run(start, answers.drop_last());
        let kind = preparing();
        let other = |t: TaskView| is_preparing(t);
        let r = x.step(answers.last()).0;
        lemma_step(x, answers.last());
        assert(kind(x.tasks[x.tasks.len() - 1]));
        assert forall|i: int| x.popped().tasks.len() <= i < r.tasks.len() implies kind(
            #[trigger] r.tasks[i],
        ) by {
            assert(other(r.tasks[i]));
        }
        lemma_step_above(x, n + 2, kind, answers.last());
    }
}

/// When a batch that is read comes to watch what it found new, every path that it found is among
/// those to be watched, whatever the system answered.
pub proof fn found_paths_are_to_be_watched(
    s: LoopView,
    answers: Seq<AnswerView>,
    p: Seq<Seq<u8>>,
)
    requires
        s.batch.add.dom().finite(),
        s.batch.add.contains_key(p),
        is_busy(s.process(), answers, s.tasks.len() + 3),
        run(s.process(), answers).tasks.len() == s.tasks.len() + 3,
    ensures
        ({
            let x = run(s.process(), answers);
            let paths = task::listed(s.batch.add.dom());
            &&& x.tasks.last() matches Task::AddAll { paths: wanted } && wanted == paths
            &&& paths.contains(p)
            &&& x.batch == s.batch
        }),
{
    let x = run(s.process(), answers);
    let n = s.tasks.len() as int;
    let all: TaskView = Task::AddAll { paths: task::listed(s.batch.add.dom()) };
    path_map::lemma_listed(s.batch.add.dom(), Seq::empty(), p);
    assert(p.take(0) =~= Seq::empty());
    lemma_getting_ready(s, answers);
    assert(s.process().tasks[n + 2] == all);
    assert(x.tasks.take(n + 3)[n + 2] == s.process().tasks.take(n + 3)[n + 2]);
}

/// The unwatch of a path that is not watched is refused at once, and changes nothing.
pub proof fn unknown_path_is_refused(s: LoopView, p: Seq<Seq<u8>>, answer: AnswerView)
    requires
        !s.roots.contains_key(p),
    ensures
        s.push(Task::RemoveRoot { path: p }).step(answer).0 == (LoopView {
            outcome: Outcome::Failed(ErrorView::new(ErrorKind::WatchNotFound)),
            ..s
        }),
{
    reveal(LoopView::remove_root);
    assert(s.push(Task::RemoveRoot { path: p }).popped() =~= s);
}

/// A NoTrack root ends with the entity it was bound to; a tracked one is missing from now on.
pub proof fn gone_root_is_forgotten_or_missing(s: LoopView, vnode: Vnode, p: Seq<Seq<u8>>)
    requires
        s.roots.contains_key(p),
        vnode == Vnode::Delete || vnode == Vnode::Rename || vnode == Vnode::Revoke,
    ensures
        s.roots[p].mode.tracks_path() ==> s.happened(vnode, p).0.roots == root::in_state(
            s.roots,
            p,
            RootState::Missing,
        ),
        !s.roots[p].mode.tracks_path() ==> s.happened(vnode, p).0.roots == s.roots.remove(p),
{
    reveal(LoopView::happened);
    assert(root::in_state(s.roots, p, RootState::Missing).remove(p) =~= s.roots.remove(p));
}

/// An entry that an earlier event of the batch found new is passed over, and not reported again.
pub proof fn entry_is_reported_once(
    s: LoopView,
    p: Seq<Seq<u8>>,
    files: Seq<Seq<Seq<u8>>>,
    found: bool,
)
    requires
        files.len() > 0,
        s.batch.add.contains_key(files[0]),
    ensures
        s.scan(p, files, found).0 == s.push(
            Task::Scan { path: p, files: files.drop_first(), found: true },
        ),
{
    reveal(LoopView::scan);
}

/// What happened to the entity at a path, but for a write, which has to be looked at.
pub open spec fn kind_of(vnode: Vnode) -> EventKind {
    match vnode {
        Vnode::Delete | Vnode::Revoke => EventKind::Remove(RemoveKind::Any),
        Vnode::Write => EventKind::Modify(ModifyKind::Data(DataChange::Any)),
        Vnode::Extend | Vnode::Truncate => EventKind::Modify(ModifyKind::Data(DataChange::Size)),
        Vnode::Attrib => EventKind::Modify(ModifyKind::Metadata(MetadataKind::Any)),
        Vnode::Link => EventKind::Modify(ModifyKind::Any),
        Vnode::Rename => EventKind::Modify(ModifyKind::Name(RenameMode::Any)),
        Vnode::Other => EventKind::Other,
    }
}

proof fn lemma_watched_in_state(
    roots: Map<Seq<Seq<u8>>, RootWatch>,
    p: Seq<Seq<u8>>,
    state: RootState,
    q: Seq<Seq<u8>>,
)
    ensures
        root::is_watched_path(root::in_state(roots, p, state), q) == root::is_watched_path(
            roots,
            q,
        ),
{
    let after = root::in_state(roots, p, state);
    if root::is_below_recursive_root(roots, q) {
        let t = choose|t: Seq<Seq<u8>>| #[trigger]
            roots.contains_key(t) && roots[t].mode.is_recursive() && path::lies_below(q, t);
        assert(after.contains_key(t) && after[t].mode.is_recursive());
    }
    if root::is_below_recursive_root(after, q) {
        let t = choose|t: Seq<Seq<u8>>| #[trigger]
            after.contains_key(t) && after[t].mode.is_recursive() && path::lies_below(q, t);
        assert(roots.contains_key(t) && roots[t].mode.is_recursive());
    }
}

/// What happens to the entity at a path is reported at once if a root reports through the handle
/// there, and not at all otherwise.
pub proof fn change_is_reported_if_watched(
    s: LoopView,
    vnode: Vnode,
    p: Seq<Seq<u8>>,
    answer: AnswerView,
)
    requires
        vnode != Vnode::Write,
        vnode != Vnode::Other,
    ensures
        s.push(Task::Happened { vnode, path: p }).step(answer).0.reports == (
        if root::is_watched_path(s.roots, p) {
            s.reports.push(ReportView::Event(EventView::new(kind_of(vnode)).with_path(p)))
        } else {
            s.reports
        }),
{
    reveal(LoopView::happened);
    lemma_watched_in_state(s.roots, p, RootState::Missing, p);
}

/// A write to a file is reported at once if a root reports through the handle there.
pub proof fn write_is_reported_if_watched(
    s: LoopView,
    p: Seq<Seq<u8>>,
    first: AnswerView,
    second: AnswerView,
)
    requires
        !task::is_dir_at(second.stat()),
    ensures
        s.push(Task::Happened { vnode: Vnode::Write, path: p }).step(first).0.step(
            second,
        ).0.reports == (if root::is_watched_path(s.roots, p) {
            s.reports.push(ReportView::Event(EventView::new(kind_of(Vnode::Write)).with_path(p)))
        } else {
            s.reports
        }),
{
    reveal(LoopView::happened);
    reveal(LoopView::write_looked);
}

/// What a root that was there is reported as once it is out of reach.
proof fn lemma_vanished(s: LoopView, roots: Seq<Seq<Seq<u8>>>, root: Seq<Seq<u8>>)
    requires
        s.roots.contains_key(root),
    ensures
        !roots.contains(root) ==> s.all_vanished(roots).roots.contains_key(root)
            && s.all_vanished(roots).roots[root] == s.roots[root],
        roots.contains(root) ==> s.all_vanished(roots).roots[root].state == RootState::Missing,
        roots.contains(root) ==> s.all_vanished(roots).reports.contains(
            step_laws::removal_of(root, s.roots[root].state),
        ),
        s.all_vanished(roots).roots.contains_key(root),
    decreases roots.len(),
{
    if roots.len() > 0 {
        let shorter = roots.drop_last();
        let before = s.all_vanished(shorter);
        let after = s.all_vanished(roots);
        let report = step_laws::removal_of(root, s.roots[root].state);
        assert(Seq::<Seq<Seq<u8>>>::empty().push(root) =~= seq![root]);
        lemma_vanished(s, shorter, root);
        assert(roots[roots.len() - 1] == roots.last());
        assert(after.reports[before.reports.len() as int] == after.reports.last());
        if shorter.contains(root) {
            let i = shorter.index_of(root);
            assert(roots[i] == root);
            let k = before.reports.index_of(report);
            assert(after.reports[k] == report);
        } else if roots.contains(root) {
            let i = roots.index_of(root);
            if i < shorter.len() {
                assert(shorter[i] == root);
            }
        }
    }
}

/// What else stays when roots are out of reach.
proof fn lemma_vanished_keeps(
    s: LoopView,
    roots: Seq<Seq<Seq<u8>>>,
    root: Seq<Seq<u8>>,
    report: ReportView,
)
    requires
        s.roots.contains_key(root),
    ensures
        ({
            let after = s.all_vanished(roots);
            &&& after.roots.dom() == s.roots.dom()
            &&& after.roots[root].mode == s.roots[root].mode
            &&& s.reports.contains(report) ==> after.reports.contains(report)
            &&& after.tasks == s.tasks
        }),
    decreases roots.len(),
{
    if roots.len() > 0 {
        let before = s.all_vanished(roots.drop_last());
        let after = s.all_vanished(roots);
        lemma_vanished_keeps(s, roots.drop_last(), root, report);
        assert(after.roots.dom() =~= before.roots.dom());
        if before.reports.contains(report) {
            let k = before.reports.index_of(report);
            assert(after.reports[k] == report);
        }
    }
}

/// Whether `root` lies below one of the paths.
pub open spec fn lies_below_one(root: Seq<Seq<u8>>, paths: Seq<Seq<Seq<u8>>>) -> bool {
    exists|i: int|
        0 <= i < paths.len() && path::starts_with(root, #[trigger] paths[i]) && root != paths[i]
}

/// Whether a task is about to cut the root off.
spec fn is_to_cut_off(task: TaskView, root: Seq<Seq<u8>>) -> bool {
    match task {
        Task::VanishEach { paths } => lies_below_one(root, paths),
        Task::VanishBelow { path } => path::starts_with(root, path) && root != path,
        _ => false,
    }
}

/// Whether the root is missing, and was reported removed when it was in the state.
pub open spec fn is_told_missing(x: LoopView, root: Seq<Seq<u8>>, state: RootState) -> bool {
    &&& x.roots.contains_key(root) && x.roots[root].state == RootState::Missing
    &&& x.reports.contains(step_laws::removal_of(root, state))
}

/// How a tracked root gets out of reach by the tasks from the one at `n` on.
spec fn is_vanishing(s: LoopView, n: int, root: Seq<Seq<u8>>, x: LoopView) -> bool {
    &&& x.tasks.len() >= n
    &&& x.roots.dom().finite() && x.roots.contains_key(root) && x.roots[root].mode.tracks_path()
    &&& forall|i: int|
        n <= i < x.tasks.len() ==> is_quiet(#[trigger] x.tasks[i]) || x.tasks[i] is VanishEach
            || x.tasks[i] is VanishBelow || x.tasks[i] is DropBelow
    &&& is_told_missing(x, root, s.roots[root].state) || (x.roots[root] == s.roots[root] && exists|
        i: int,
    | n <= i < x.tasks.len() && is_to_cut_off(#[trigger] x.tasks[i], root))
}

proof fn lemma_vanishing_step(
    s: LoopView,
    n: int,
    root: Seq<Seq<u8>>,
    x: LoopView,
    answer: AnswerView,
)
    requires
        n >= 0,
        s.roots.contains_key(root),
        s.roots[root].state != RootState::Missing,
        is_vanishing(s, n, root, x),
        x.tasks.len() > n,
    ensures
        is_vanishing(s, n, root, x.step(answer).0),
{
    let r = x.step(answer).0;
    let rest = x.popped();
    let task = x.tasks.last();
    let state = s.roots[root].state;
    let last = x.tasks.len() - 1;
    assert(task == x.tasks[last]);
    lemma_step(x, answer);
    assert forall|i: int| 0 <= i < last implies #[trigger] r.tasks[i] == x.tasks[i] by {
        assert(r.tasks[i] == r.tasks.take(rest.tasks.len() as int)[i]);
    }
    match task {
        Task::VanishEach { paths } => {
            reveal(LoopView::vanish_each);
            if lies_below_one(root, paths) {
                let i = choose|i: int|
                    0 <= i < paths.len() && path::starts_with(root, #[trigger] paths[i]) && root
                        != paths[i];
                if i == 0 {
                    assert(is_to_cut_off(r.tasks[last + 1], root));
                } else {
                    assert(paths.drop_first()[i - 1] == paths[i]);
                    assert(is_to_cut_off(r.tasks[last], root));
                }
            }
        },
        Task::VanishBelow { path } => {
            reveal(LoopView::vanish_below);
            let list = root::tracked_roots_below(x.roots, path, false);
            let before = LoopView {
                present: x.present.filter(|a: Seq<Seq<u8>>| !path::starts_with(a, path)),
                ..rest
            };
            let report = step_laws::removal_of(root, state);
            lemma_vanished(before, list, root);
            lemma_vanished_keeps(before, list, root, report);
            path_map::lemma_listed(x.roots.dom(), path, root);
            lemma_chosen(
                path_map::at_and_below(x.roots.dom(), path),
                root::is_tracked_below(x.roots, path, false),
                root,
            );
        },
        Task::DropBelow { .. } => {
            reveal(LoopView::drop_below);
        },
        _ => {
            let kind = |t: TaskView| is_quiet(t);
            assert forall|i: int| last <= i < r.tasks.len() implies is_quiet(
                #[trigger] r.tasks[i],
            ) by {
                assert(kind(r.tasks[i]));
            }
        },
    }
    if !is_told_missing(x, root, state) {
        let i = choose|i: int| n <= i < x.tasks.len() && is_to_cut_off(#[trigger] x.tasks[i], root);
        if i < last {
            assert(is_to_cut_off(r.tasks[i], root));
        }
    }
}

proof fn lemma_vanishing(
    s: LoopView,
    task: TaskView,
    root: Seq<Seq<u8>>,
    answers: Seq<AnswerView>,
)
    requires
        s.roots.dom().finite(),
        s.roots.contains_key(root),
        s.roots[root].mode.tracks_path(),
        s.roots[root].state != RootState::Missing,
        is_to_cut_off(task, root),
        is_busy(s.push(task), answers, s.tasks.len()),
    ensures
        is_vanishing(s, s.tasks.len() as int, root, run(s.push(task), answers)),
    decreases answers.len(),
{
    let n = s.tasks.len() as int;
    let start = s.push(task);
    if answers.len() == 0 {
        assert(is_to_cut_off(start.tasks[n], root));
    } else {
        lemma_busy(start, answers, s.tasks.len());
        lemma_vanishing(s, task, root, answers.drop_last());
        lemma_vanishing_step(s, n, root, run(start, answers.drop_last()), answers.last());
    }
}

/// Once an ancestor that was looked at is gone, every tracked root below it that was there is
/// reported removed, and is missing, whatever the system answers.
pub proof fn roots_below_missing_ancestor_are_reported(
    s: LoopView,
    p: Seq<Seq<u8>>,
    root: Seq<Seq<u8>>,
    answers: Seq<AnswerView>,
)
    requires
        s.roots.dom().finite(),
        s.roots.contains_key(root),
        s.roots[root].mode.tracks_path(),
        s.roots[root].state != RootState::Missing,
        path::starts_with(root, p),
        root != p,
        ends(s.push(Task::VanishBelow { path: p }), answers),
    ensures
        is_told_missing(
            run(s.push(Task::VanishBelow { path: p }), answers),
            root,
            s.roots[root].state,
        ),
{
    assert(s.push(Task::VanishBelow { path: p }).popped().tasks =~= s.tasks);
    lemma_vanishing(s, Task::VanishBelow { path: p }, root, answers);
}

/// Once ancestors went in a batch, every tracked root below one of them that was there is reported
/// removed, and is missing, whatever the system answers.
pub proof fn roots_below_gone_ancestor_are_reported(
    s: LoopView,
    paths: Seq<Seq<Seq<u8>>>,
    root: Seq<Seq<u8>>,
    answers: Seq<AnswerView>,
)
    requires
        s.roots.dom().finite(),
        s.roots.contains_key(root),
        s.roots[root].mode.tracks_path(),
        s.roots[root].state != RootState::Missing,
        lies_below_one(root, paths),
        ends(s.push(Task::VanishEach { paths }), answers),
    ensures
        is_told_missing(
            run(s.push(Task::VanishEach { paths }), answers),
            root,
            s.roots[root].state,
        ),
{
    assert(s.push(Task::VanishEach { paths }).popped().tasks =~= s.tasks);
    lemma_vanishing(s, Task::VanishEach { paths }, root, answers);
}

/// A missing root that an arm found there is recorded, and waits to be reported; one that could not
/// be armed is reported with the error, and stays missing.
pub proof fn armed_root_is_reported(s: LoopView, root: Seq<Seq<u8>>, answer: AnswerView)
    requires
        s.roots.contains_key(root),
        s.outcome is Failed || s.outcome is Armed,
    ensures
        ({
            let r = s.push(Task::RearmEnded { root }).step(answer).0;
            match s.outcome {
                Outcome::Failed(error) => {
                    &&& r.reports == s.reports.push(ReportView::Error(error))
                    &&& r.roots == s.roots
                    &&& r.pending == s.pending
                },
                Outcome::Armed(state) => {
                    &&& r.reports == s.reports
                    &&& if state == RootState::Missing {
                        r.roots == s.roots && r.pending == s.pending
                    } else {
                        &&& r.roots == root::in_state(s.roots, root, state)
                        &&& r.pending == s.pending.push(step_laws::creation_of(root, state))
                    }
                },
                _ => true,
            }
        }),
{
    reveal(LoopView::rearm_ended);
    assert(Seq::<Seq<Seq<u8>>>::empty().push(root) =~= seq![root]);
}

/// What waits to be reported is, in its order, once the handles are registered.
pub proof fn pending_is_reported(s: LoopView, answer: AnswerView, i: int)
    requires
        0 <= i < s.pending.len(),
    ensures
        ({
            let r = s.push(Task::Flush).step(answer).0;
            &&& r.pending.len() == 0
            &&& r.reports.len() == s.reports.len() + s.pending.len()
            &&& r.reports[s.reports.len() + i] == ReportView::Event(s.pending[i])
        }),
{
    reveal(LoopView::flush);
}

} // verus!
