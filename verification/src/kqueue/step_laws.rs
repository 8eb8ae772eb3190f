//! What single steps of the event loop come to: what they report, what they record, and what they
//! ask of the system.

use crate::config::{RecursiveMode, TargetMode, WatchMode};
use crate::error::{ErrorKind, ErrorView};
use crate::event::{CreateKind, EventAttributes, EventKind, EventView, RemoveKind};
use crate::kqueue::event_laws;
use crate::kqueue::task;
use crate::kqueue::task::{
    Answer, AnswerView, BatchView, LoopView, PathStat, RequestView, Task, WalkError, WantedView,
};
use crate::outcome::Outcome;
use crate::path;
use crate::path_map;
use crate::report;
use crate::report::ReportView;
use crate::root;
use crate::root::{RootState, RootWatch};
use vstd::prelude::*;

verus! {

/// The event that a root is there again.
pub open spec fn creation_of(root: Seq<Seq<u8>>, state: RootState) -> EventView {
    EventView {
        kind: EventKind::Create(
            if state == RootState::Directory {
                CreateKind::Folder
            } else {
                CreateKind::File
            },
        ),
        paths: seq![root],
        attrs: EventAttributes { tracker: None, flag: None, info: None, process_id: None },
    }
}

/// The report that a root which was there is out of reach.
pub open spec fn removal_of(root: Seq<Seq<u8>>, state: RootState) -> ReportView {
    report::told(
        EventKind::Remove(
            if state == RootState::Directory {
                RemoveKind::Folder
            } else {
                RemoveKind::File
            },
        ),
        seq![root],
        None,
    )
}

/// A missing root that an arm found there is recorded as what it is, and its creation is to be
/// reported once its handles are registered. One that was not found stays as it is. The error of
/// one that could not be armed is reported.
pub proof fn returned_root_is_noted(s: LoopView, root: Seq<Seq<u8>>, answer: AnswerView)
    ensures
        ({
            let (r, request) = s.push(Task::RearmEnded { root }).step(answer);
            &&& request == RequestView::Again
            &&& r == match s.outcome {
                Outcome::Armed(state) => if state == RootState::Missing {
                    LoopView { outcome: Outcome::Done, ..s }
                } else {
                    LoopView {
                        roots: event_laws::with_state(s.roots, root, state),
                        pending: s.pending.push(creation_of(root, state)),
                        outcome: Outcome::Done,
                        ..s
                    }
                },
                Outcome::Failed(error) => LoopView {
                    reports: s.reports.push(ReportView::Error(error)),
                    outcome: Outcome::Done,
                    ..s
                },
                _ => LoopView { outcome: Outcome::Done, ..s },
            }
        }),
        ({
            let (r, request) = s.push(Task::UpgradeArmed { path: root }).step(answer);
            &&& request == RequestView::Again
            &&& r == match s.outcome {
                Outcome::Armed(state) => if state == RootState::Missing {
                    LoopView { outcome: Outcome::Done, ..s }
                } else {
                    LoopView {
                        roots: event_laws::with_state(s.roots, root, state),
                        pending: s.pending.push(creation_of(root, state)),
                        outcome: Outcome::Done,
                        ..s
                    }
                },
                Outcome::Failed(error) => s,
                _ => LoopView { outcome: Outcome::Done, ..s },
            }
        }),
{
    reveal(LoopView::rearm_ended);
    reveal(LoopView::upgrade_armed);
    assert(s.push(Task::RearmEnded { root }).popped() =~= s);
    assert(s.push(Task::UpgradeArmed { path: root }).popped() =~= s);
    assert(Seq::<Seq<Seq<u8>>>::empty().push(root) =~= seq![root]);
}

/// The creations that are to be reported are, each once and in their order, once the handles are
/// registered.
pub proof fn noted_creations_are_reported(s: LoopView, answer: AnswerView)
    ensures
        ({
            let (r, request) = s.push(Task::Flush).step(answer);
            &&& request == RequestView::Again
            &&& r == LoopView { reports: r.reports, pending: seq![], ..s }
            &&& r.reports.len() == s.reports.len() + s.pending.len()
            &&& forall|i: int|
                0 <= i < s.reports.len() ==> #[trigger] r.reports[i] == s.reports[i]
            &&& forall|i: int|
                0 <= i < s.pending.len() ==> r.reports[s.reports.len() + i] == ReportView::Event(
                    #[trigger] s.pending[i],
                )
        }),
{
    reveal(LoopView::flush);
    assert(s.push(Task::Flush).popped() =~= s);
}

proof fn lemma_vanished(s: LoopView, roots: Seq<Seq<Seq<u8>>>)
    requires
        roots.no_duplicates(),
        forall|q: Seq<Seq<u8>>| #[trigger] roots.contains(q) ==> s.roots.contains_key(q),
    ensures
        ({
            let r = s.all_vanished(roots);
            &&& r.reports == s.reports + Seq::new(
                roots.len(),
                |i: int| removal_of(roots[i], s.roots[roots[i]].state),
            )
            &&& r == LoopView { roots: r.roots, reports: r.reports, ..s }
            &&& forall|q: Seq<Seq<u8>>| #[trigger]
                r.roots.contains_key(q) <==> s.roots.contains_key(q)
            &&& forall|q: Seq<Seq<u8>>| #[trigger]
                r.roots.contains_key(q) ==> r.roots[q].mode == s.roots[q].mode && r.roots[q].state
                    == if roots.contains(q) {
                    RootState::Missing
                } else {
                    s.roots[q].state
                }
        }),
    decreases roots.len(),
{
    let r = s.all_vanished(roots);
    let told = Seq::new(roots.len(), |i: int| removal_of(roots[i], s.roots[roots[i]].state));
    if roots.len() == 0 {
        assert(r.reports =~= s.reports + told);
    } else {
        let shorter = roots.drop_last();
        let last = roots.last();
        assert(roots[roots.len() - 1] == last);
        assert(roots.contains(last));
        assert forall|q: Seq<Seq<u8>>| #[trigger] roots.contains(q) <==> shorter.contains(q) || q
            == last by {
            if roots.contains(q) {
                let i = roots.index_of(q);
                if i < shorter.len() {
                    assert(shorter[i] == q);
                }
            }
            if shorter.contains(q) {
                assert(roots[shorter.index_of(q)] == q);
            }
        }
        assert(!shorter.contains(last)) by {
            if shorter.contains(last) {
                let i = shorter.index_of(last);
                assert(roots[i] == roots[roots.len() - 1]);
            }
        }
        assert forall|q: Seq<Seq<u8>>| #[trigger]
            shorter.contains(q) implies s.roots.contains_key(q) by {
            assert(roots.contains(q));
        }
        lemma_vanished(s, shorter);
        let before = s.all_vanished(shorter);
        assert(before.roots.contains_key(last));
        assert(before.roots[last].state == s.roots[last].state);
        assert(Seq::<Seq<Seq<u8>>>::empty().push(last) =~= seq![last]);
        assert(r.reports == before.reports.push(removal_of(last, s.roots[last].state)));
        assert(r.reports =~= s.reports + told);
    }
}

/// Once the way to roots is gone, every tracked root below that was there is reported removed, once
/// and in their order, as the folder or the file that it was, and is missing from then on. No other
/// root is. The path and what is below it are directories no longer, and are let go.
pub proof fn cut_off_roots_are_reported(s: LoopView, p: Seq<Seq<u8>>, answer: AnswerView)
    requires
        s.roots.dom().finite(),
    ensures
        ({
            let (r, request) = s.push(Task::VanishBelow { path: p }).step(answer);
            &&& request == RequestView::Again
            &&& r == LoopView {
                roots: r.roots,
                present: r.present,
                reports: r.reports,
                tasks: s.tasks.push(Task::DropBelow { path: p }),
                ..s
            }
            &&& forall|q: Seq<Seq<u8>>| #[trigger]
                r.present.contains(q) <==> s.present.contains(q) && !(q.len() >= p.len() && q.take(
                    p.len() as int,
                ) == p)
            &&& exists|gone: Seq<Seq<Seq<u8>>>|
                {
                    &&& #[trigger] root::lists_tracked(s.roots, p, false, gone)
                    &&& r.reports == s.reports + Seq::new(
                        gone.len(),
                        |i: int| removal_of(gone[i], s.roots[gone[i]].state),
                    )
                    &&& forall|q: Seq<Seq<u8>>| #[trigger]
                        r.roots.contains_key(q) ==> r.roots[q].mode == s.roots[q].mode
                            && r.roots[q].state == if gone.contains(q) {
                            RootState::Missing
                        } else {
                            s.roots[q].state
                        }
                }
            &&& forall|q: Seq<Seq<u8>>| #[trigger]
                r.roots.contains_key(q) <==> s.roots.contains_key(q)
        }),
{
    reveal(LoopView::vanish_below);
    assert(s.push(Task::VanishBelow { path: p }).popped() =~= s);
    let gone = root::tracked_roots_below(s.roots, p, false);
    root::tracked_below_are_listed(s.roots, p, false);
    assert(root::lists_tracked(s.roots, p, false, gone));
    let away = LoopView {
        present: s.present.filter(|a: Seq<Seq<u8>>| !path::starts_with(a, p)),
        ..s
    };
    lemma_vanished(away, gone);
}

/// Once a directory on the way to roots is there again, that is noted, and every tracked root below
/// that is missing is armed, in their order.
pub proof fn missing_roots_are_armed(s: LoopView, p: Seq<Seq<u8>>, answer: AnswerView)
    requires
        s.roots.dom().finite(),
    ensures
        ({
            let (r, request) = s.push(Task::RearmBelow { path: p }).step(answer);
            &&& request == RequestView::Again
            &&& r == LoopView { present: s.present.insert(p), tasks: r.tasks, ..s }
            &&& exists|roots: Seq<Seq<Seq<u8>>>| #[trigger]
                root::lists_tracked(s.roots, p, true, roots) && r.tasks == s.tasks.push(
                    Task::RearmEach { roots },
                )
        }),
{
    reveal(LoopView::rearm_below);
    assert(s.push(Task::RearmBelow { path: p }).popped() =~= s);
    let roots = root::tracked_roots_below(s.roots, p, true);
    root::tracked_below_are_listed(s.roots, p, true);
    assert(root::lists_tracked(s.roots, p, true, roots));
}

/// A root is armed again, as its mode asks, where it is tracked and missing.
pub proof fn missing_root_is_armed(s: LoopView, root: Seq<Seq<u8>>, answer: AnswerView)
    ensures
        ({
            let (r, request) = s.push(Task::Rearm { root }).step(answer);
            &&& request == RequestView::Again
            &&& r == if s.roots.contains_key(root) && s.roots[root].mode.target_mode
                == TargetMode::TrackPath && s.roots[root].state == RootState::Missing {
                LoopView {
                    tasks: s.tasks.push(Task::RearmEnded { root }).push(
                        Task::Arm {
                            root,
                            recursive: s.roots[root].mode.recursive_mode
                                == RecursiveMode::Recursive,
                        },
                    ),
                    ..s
                }
            } else {
                LoopView { outcome: Outcome::Done, ..s }
            }
        }),
{
    reveal(LoopView::rearm);
    assert(s.push(Task::Rearm { root }).popped() =~= s);
}

/// Whether the error number says that nothing is there: no such entry, or no such directory.
pub open spec fn says_absent(errno: i32) -> bool {
    errno == 2 || errno == 20
}

/// The look at an ancestor of tracked roots: one that was away and is a directory again lets the
/// roots below it be armed, and one that was there and is no directory cuts them off. A look that
/// says nothing of whether it is there changes nothing.
pub proof fn looked_at_ancestor_is_followed(
    s: LoopView,
    p: Seq<Seq<u8>>,
    stat: Result<PathStat, i32>,
)
    ensures
        ({
            let (r, request) = s.push(Task::CheckLooked { path: p }).step(Answer::Stat(stat));
            let is_dir = stat matches Ok(stat) && stat.is_dir;
            let is_none = (stat matches Ok(stat) && !stat.is_dir) || (stat matches Err(errno)
                && says_absent(errno));
            let was_there = s.present.contains(p);
            &&& request == RequestView::Again
            &&& r == if is_dir && !was_there {
                LoopView { tasks: s.tasks.push(Task::RearmBelow { path: p }), ..s }
            } else if is_none && was_there {
                LoopView { tasks: s.tasks.push(Task::VanishBelow { path: p }), ..s }
            } else {
                LoopView { outcome: Outcome::Done, ..s }
            }
        }),
        ({
            let (r, request) = s.push(Task::RecheckLooked { path: p }).step(Answer::Stat(stat));
            let is_dir = stat matches Ok(stat) && stat.is_dir;
            let is_none = (stat matches Ok(stat) && !stat.is_dir) || (stat matches Err(errno)
                && says_absent(errno));
            &&& request == RequestView::Again
            &&& r == if is_dir {
                LoopView { tasks: s.tasks.push(Task::RearmBelow { path: p }), ..s }
            } else if is_none {
                LoopView { tasks: s.tasks.push(Task::VanishBelow { path: p }), ..s }
            } else {
                LoopView { outcome: Outcome::Done, ..s }
            }
        }),
        ({
            let (r, request) = s.push(Task::Recheck { path: p }).step(Answer::Stat(stat));
            &&& root::is_on_the_way(s.roots, p) ==> request == RequestView::Stat(p) && r
                == LoopView { tasks: s.tasks.push(Task::RecheckLooked { path: p }), ..s }
            &&& !root::is_on_the_way(s.roots, p) ==> request == RequestView::Again && r
                == LoopView { outcome: Outcome::Done, ..s }
        }),
        s.push(Task::CheckAncestor { path: p }).step(Answer::Stat(stat)) == (
            LoopView { tasks: s.tasks.push(Task::CheckLooked { path: p }), ..s },
            RequestView::Stat(p),
        ),
{
    reveal(LoopView::check_looked);
    reveal(LoopView::recheck_looked);
    reveal(LoopView::recheck);
    reveal(LoopView::check_ancestor);
    assert(s.push(Task::CheckLooked { path: p }).popped() =~= s);
    assert(s.push(Task::RecheckLooked { path: p }).popped() =~= s);
    assert(s.push(Task::Recheck { path: p }).popped() =~= s);
    assert(s.push(Task::CheckAncestor { path: p }).popped() =~= s);
    root::watched_is_reached(s.roots, p);
}

/// A handle is opened at a path that has none, and is recorded once it is open. At a path that has
/// one it stays one on the way to roots only if that is all it is opened for. An add that fails
/// fails with an error that names the path.
pub proof fn handle_is_opened(
    s: LoopView,
    p: Seq<Seq<u8>>,
    chain: bool,
    did: Result<(), i32>,
)
    ensures
        ({
            let (r, request) = s.push(Task::AddSingle { path: p, chain }).step(Answer::Did(did));
            if s.handles.contains_key(p) {
                &&& request == RequestView::Again
                &&& r == LoopView {
                    handles: s.handles.insert(p, s.handles[p] && chain),
                    outcome: Outcome::Done,
                    ..s
                }
            } else {
                &&& request == RequestView::Add(p)
                &&& r == LoopView {
                    tasks: s.tasks.push(Task::AddSingleAnswered { path: p, chain }),
                    ..s
                }
            }
        }),
        ({
            let (r, request) = s.push(Task::AddSingleAnswered { path: p, chain }).step(
                Answer::Did(did),
            );
            &&& request == RequestView::Again
            &&& r == match did {
                Ok(_) => LoopView {
                    handles: s.handles.insert(p, chain),
                    unregistered: true,
                    outcome: Outcome::Done,
                    ..s
                },
                Err(errno) => LoopView {
                    outcome: Outcome::Failed(
                        ErrorView { kind: ErrorKind::Io(errno), paths: seq![p] },
                    ),
                    ..s
                },
            }
        }),
{
    reveal(LoopView::add_single);
    reveal(LoopView::add_single_answered);
    assert(s.push(Task::AddSingle { path: p, chain }).popped() =~= s);
    assert(s.push(Task::AddSingleAnswered { path: p, chain }).popped() =~= s);
}

/// The handle of a path is forgotten and closed, if it has one. A close that fails fails with an
/// error that names the path.
pub proof fn handle_is_closed(s: LoopView, p: Seq<Seq<u8>>, did: Result<(), i32>)
    ensures
        ({
            let (r, request) = s.push(Task::RemoveSingle { path: p }).step(Answer::Did(did));
            if s.handles.contains_key(p) {
                &&& request == RequestView::Remove(p)
                &&& r == LoopView {
                    handles: s.handles.remove(p),
                    tasks: s.tasks.push(Task::RemoveAnswered { path: p }),
                    ..s
                }
            } else {
                request == RequestView::Again && r == LoopView { outcome: Outcome::Done, ..s }
            }
        }),
        ({
            let (r, request) = s.push(Task::RemoveAnswered { path: p }).step(Answer::Did(did));
            &&& request == RequestView::Again
            &&& r == match did {
                Ok(_) => LoopView { outcome: Outcome::Done, ..s },
                Err(errno) => LoopView {
                    outcome: Outcome::Failed(
                        ErrorView { kind: ErrorKind::Io(errno), paths: seq![p] },
                    ),
                    ..s
                },
            }
        }),
{
    reveal(LoopView::remove_single);
    reveal(LoopView::remove_answered);
    assert(s.push(Task::RemoveSingle { path: p }).popped() =~= s);
    assert(s.push(Task::RemoveAnswered { path: p }).popped() =~= s);
}

/// A handle that is released stays where the watch of a root reaches it. On the way to tracked
/// roots it stays too, only for the way unless a root lies in it. Else it is closed.
pub proof fn handle_is_released(s: LoopView, p: Seq<Seq<u8>>, answer: AnswerView)
    ensures
        ({
            let (r, request) = s.push(Task::ReleaseHandle { path: p }).step(answer);
            let has_root = exists|q: Seq<Seq<u8>>| #[trigger]
                s.roots.contains_key(q) && q.len() == p.len() + 1 && q.drop_last() == p && (p.len()
                    > 0 || q[0] != seq![47u8]);
            &&& request == RequestView::Again
            &&& r == if root::is_reached(s.roots, p) {
                LoopView { outcome: Outcome::Done, ..s }
            } else if root::is_on_the_way(s.roots, p) {
                LoopView {
                    handles: if !has_root && s.handles.contains_key(p) {
                        s.handles.insert(p, true)
                    } else {
                        s.handles
                    },
                    outcome: Outcome::Done,
                    ..s
                }
            } else {
                LoopView { tasks: s.tasks.push(Task::RemoveSingle { path: p }), ..s }
            }
        }),
{
    reveal(LoopView::release_handle);
    assert(s.push(Task::ReleaseHandle { path: p }).popped() =~= s);
    root::watched_is_reached(s.roots, p);
    assert(path::root_dir() =~= seq![47u8]);
    if root::is_parent_of_root(s.roots, p) {
        let q = choose|q: Seq<Seq<u8>>| #[trigger]
            s.roots.contains_key(q) && path::parent(q) == Some(p);
        assert(q.drop_last() == p);
    }
    assert forall|q: Seq<Seq<u8>>| #[trigger]
        s.roots.contains_key(q) && q.len() == p.len() + 1 && q.drop_last() == p && (p.len() > 0
            || q[0] != seq![47u8]) implies path::parent(q) == Some(p) by {
        assert(path::has_parent(q));
    }
}

/// What is watched of a path: everything at and below it, the directory and its entries, or the
/// path alone. Every path that a walk names and every entry that a listing names gets a handle,
/// until one cannot be opened. A directory that cannot be listed is watched without its entries.
pub proof fn paths_are_watched(
    s: LoopView,
    p: Seq<Seq<u8>>,
    recursive: bool,
    is_dir: bool,
    paths: Seq<Seq<Seq<u8>>>,
    errno: i32,
    answer: AnswerView,
)
    ensures
        ({
            let (r, request) = s.push(Task::Watch { path: p, recursive, is_dir }).step(answer);
            let single = Task::AddSingle { path: p, chain: false };
            &&& recursive ==> request == RequestView::Walk(p) && r == LoopView {
                tasks: s.tasks.push(Task::WalkFound),
                ..s
            }
            &&& !recursive ==> request == RequestView::Again && r == LoopView {
                tasks: if is_dir {
                    s.tasks.push(Task::DirAdded { path: p }).push(single)
                } else {
                    s.tasks.push(single)
                },
                ..s
            }
        }),
        ({
            let (r, request) = s.push(Task::DirAdded { path: p }).step(answer);
            if s.outcome is Failed {
                request == RequestView::Again && r == s
            } else {
                request == RequestView::List(p) && r == LoopView {
                    tasks: s.tasks.push(Task::DirListed),
                    ..s
                }
            }
        }),
        s.push(Task::DirListed).step(Answer::List(Ok(paths))) == (
            LoopView { tasks: s.tasks.push(Task::AddEach { paths }), ..s },
            RequestView::Again,
        ),
        s.push(Task::DirListed).step(Answer::List(Err(errno))) == (
            LoopView { outcome: Outcome::Done, ..s },
            RequestView::Again,
        ),
        ({
            let (r, request) = s.push(Task::AddEach { paths }).step(answer);
            &&& request == RequestView::Again
            &&& r == if paths.len() == 0 {
                LoopView { outcome: Outcome::Done, ..s }
            } else {
                LoopView {
                    tasks: s.tasks.push(Task::AddEachAdded { paths: paths.drop_first() }).push(
                        Task::AddSingle { path: paths[0], chain: false },
                    ),
                    ..s
                }
            }
        }),
        ({
            let (r, request) = s.push(Task::AddEachAdded { paths }).step(answer);
            &&& request == RequestView::Again
            &&& r == if s.outcome is Failed {
                s
            } else {
                LoopView { tasks: s.tasks.push(Task::AddEach { paths }), ..s }
            }
        }),
        s.push(Task::WalkFound).step(Answer::Walked(Some(Ok(p)))) == (
            LoopView {
                tasks: s.tasks.push(Task::WalkAdded).push(
                    Task::AddSingle { path: p, chain: false },
                ),
                ..s
            },
            RequestView::Again,
        ),
        s.push(Task::WalkFound).step(Answer::Walked(None)) == (
            LoopView { outcome: Outcome::Done, ..s },
            RequestView::Again,
        ),
        ({
            let (r, request) = s.push(Task::WalkAdded).step(answer);
            if s.outcome is Failed {
                request == RequestView::Again && r == s
            } else {
                request == RequestView::Next && r == LoopView {
                    tasks: s.tasks.push(Task::WalkFound),
                    ..s
                }
            }
        }),
{
    reveal(LoopView::watch);
    reveal(LoopView::dir_added);
    reveal(LoopView::dir_listed);
    reveal(LoopView::add_each);
    reveal(LoopView::add_each_added);
    reveal(LoopView::walk_found);
    reveal(LoopView::walk_added);
    assert(s.push(Task::Watch { path: p, recursive, is_dir }).popped() =~= s);
    assert(s.push(Task::DirAdded { path: p }).popped() =~= s);
    assert(s.push(Task::DirListed).popped() =~= s);
    assert(s.push(Task::AddEach { paths }).popped() =~= s);
    assert(s.push(Task::AddEachAdded { paths }).popped() =~= s);
    assert(s.push(Task::WalkFound).popped() =~= s);
    assert(s.push(Task::WalkAdded).popped() =~= s);
}

/// The error of a walk: what the system said, at the path where one is known, or in words that a
/// link leads back.
pub proof fn walk_error_is_handed_on(s: LoopView, e: WalkError<Seq<Seq<u8>>>)
    ensures
        ({
            let (r, request) = s.push(Task::WalkFound).step(Answer::Walked(Some(Err(e))));
            &&& request == RequestView::Again
            &&& r == LoopView {
                outcome: Outcome::Failed(
                    match e {
                        WalkError::Io { errno, path } => ErrorView {
                            kind: ErrorKind::Io(errno),
                            paths: match path {
                                Some(p) => seq![p],
                                None => seq![],
                            },
                        },
                        WalkError::Loop { message } => ErrorView {
                            kind: ErrorKind::Generic(message),
                            paths: seq![],
                        },
                    },
                ),
                ..s
            }
        }),
{
    reveal(LoopView::walk_found);
    assert(s.push(Task::WalkFound).popped() =~= s);
    assert(Seq::<Seq<Seq<u8>>>::empty() =~= seq![]);
}

/// What a path that is there is.
pub open spec fn found(stat: PathStat) -> RootState {
    if stat.is_dir {
        RootState::Directory
    } else {
        RootState::File
    }
}

/// The task that watches a path that is there.
pub open spec fn watching(p: Seq<Seq<u8>>, stat: PathStat, recursive: bool) -> task::TaskView {
    Task::Watch { path: p, recursive: recursive && stat.is_dir, is_dir: stat.is_dir }
}

/// The look at an ancestor of a root that is armed: a directory gets a handle, for the way alone
/// unless it is the parent, and is noted as one. Where it was not noted before it is looked at
/// again later if another tracked root lies below it. Where no directory is there the root is out
/// of reach, and another error of the look fails.
pub proof fn ancestor_of_armed_root_is_watched(
    s: LoopView,
    root: Seq<Seq<u8>>,
    n: usize,
    stat: Result<PathStat, i32>,
)
    requires
        n < root.len(),
    ensures
        ({
            let (r, request) = s.push(Task::ChainLooked { root, n }).step(Answer::Stat(stat));
            let ancestor = root.take(n as int);
            let is_new = !s.present.contains(ancestor);
            &&& request == RequestView::Again
            &&& r == match stat {
                Ok(stat) => if stat.is_dir {
                    LoopView {
                        present: s.present.insert(ancestor),
                        reappeared: if is_new && root::is_on_the_way(
                            s.roots.remove(root),
                            ancestor,
                        ) {
                            s.reappeared.push(ancestor)
                        } else {
                            s.reappeared
                        },
                        tasks: s.tasks.push(Task::ChainAdded { root, n }).push(
                            Task::AddSingle { path: ancestor, chain: n + 1 < root.len() },
                        ),
                        ..s
                    }
                } else {
                    LoopView { outcome: Outcome::Reached(false), ..s }
                },
                Err(errno) => LoopView {
                    outcome: if says_absent(errno) {
                        Outcome::Reached(false)
                    } else {
                        Outcome::Failed(
                            ErrorView { kind: ErrorKind::Io(errno), paths: seq![ancestor] },
                        )
                    },
                    ..s
                },
            }
        }),
{
    reveal(LoopView::chain_looked);
    assert(s.push(Task::ChainLooked { root, n }).popped() =~= s);
    let ancestor = root.take(n as int);
    root::watched_is_reached(s.roots.remove(root), ancestor);
    if s.present.contains(ancestor) {
        assert(s.present.insert(ancestor) =~= s.present);
    }
}

/// The way to a root is followed from the top down. Only the parent has to be watched: an ancestor
/// further up that cannot be is passed over.
pub proof fn way_to_root_is_followed(
    s: LoopView,
    root: Seq<Seq<u8>>,
    n: usize,
    answer: AnswerView,
)
    requires
        n < root.len(),
    ensures
        s.push(Task::Chain { root, n }).step(answer) == (
            LoopView { tasks: s.tasks.push(Task::ChainLooked { root, n }), ..s },
            RequestView::Stat(root.take(n as int)),
        ),
        s.push(Task::ChainAdded { root, n }).step(answer) == (
            if s.outcome is Failed && n + 1 == root.len() {
                s
            } else {
                LoopView { tasks: s.tasks.push(Task::Chain { root, n: (n + 1) as usize }), ..s }
            },
            RequestView::Again,
        ),
{
    reveal(LoopView::chain);
    reveal(LoopView::chain_added);
    assert(s.push(Task::Chain { root, n }).popped() =~= s);
    assert(s.push(Task::ChainAdded { root, n }).popped() =~= s);
}

/// The look at a root that is armed: a root that is there is watched and recorded as what it is.
/// One that is not is missing, and is looked at again once the handles are registered. Another
/// error of the look fails the arm.
pub proof fn looked_at_root_is_armed(
    s: LoopView,
    root: Seq<Seq<u8>>,
    recursive: bool,
    stat: Result<PathStat, i32>,
)
    ensures
        ({
            let (r, request) = s.push(Task::ArmLooked { root, recursive }).step(
                Answer::Stat(stat),
            );
            &&& request == RequestView::Again
            &&& r == match stat {
                Ok(stat) => LoopView {
                    tasks: s.tasks.push(Task::ArmAdded { state: found(stat) }).push(
                        watching(root, stat, recursive),
                    ),
                    ..s
                },
                Err(errno) => if errno == 2 {
                    LoopView {
                        unarmed: s.unarmed.push(root),
                        outcome: Outcome::Armed(RootState::Missing),
                        ..s
                    }
                } else {
                    LoopView {
                        outcome: Outcome::Failed(
                            ErrorView { kind: ErrorKind::Io(errno), paths: seq![] },
                        ),
                        ..s
                    }
                },
            }
        }),
{
    reveal(LoopView::arm_looked);
    assert(s.push(Task::ArmLooked { root, recursive }).popped() =~= s);
    assert(Seq::<Seq<Seq<u8>>>::empty() =~= seq![]);
}

/// The look at a path that the user watches without tracking it: what is there is watched. Where
/// nothing is there the watch fails, as it does with another error.
pub proof fn looked_at_path_is_watched(
    s: LoopView,
    p: Seq<Seq<u8>>,
    mode: WatchMode,
    stat: Result<PathStat, i32>,
)
    ensures
        ({
            let (r, request) = s.push(Task::AddRootLooked { path: p, mode }).step(
                Answer::Stat(stat),
            );
            &&& request == RequestView::Again
            &&& r == match stat {
                Ok(stat) => LoopView {
                    tasks: s.tasks.push(
                        Task::AddRootAdded { path: p, mode, state: found(stat) },
                    ).push(
                        watching(p, stat, mode.recursive_mode == RecursiveMode::Recursive),
                    ),
                    ..s
                },
                Err(errno) => LoopView {
                    outcome: Outcome::Failed(
                        ErrorView {
                            kind: if errno == 2 {
                                ErrorKind::PathNotFound
                            } else {
                                ErrorKind::Io(errno)
                            },
                            paths: seq![],
                        },
                    ),
                    ..s
                },
            }
        }),
{
    reveal(LoopView::add_root_looked);
    assert(s.push(Task::AddRootLooked { path: p, mode }).popped() =~= s);
    assert(Seq::<Seq<Seq<u8>>>::empty() =~= seq![]);
}

/// Whether `q` is an ancestor of `p` that is not on the way to a tracked root.
pub open spec fn is_off_the_way(
    roots: Map<Seq<Seq<u8>>, RootWatch>,
    p: Seq<Seq<u8>>,
    q: Seq<Seq<u8>>,
) -> bool {
    &&& q.len() < p.len() && p.take(q.len() as int) == q
    &&& q.len() > 0 || p[0] != seq![47u8]
    &&& !root::is_on_the_way(roots, q)
}

/// Whether `paths` holds the ancestors of `p` that are not on the way to a tracked root.
pub open spec fn lists_off_the_way(
    roots: Map<Seq<Seq<u8>>, RootWatch>,
    p: Seq<Seq<u8>>,
    paths: Seq<Seq<Seq<u8>>>,
) -> bool {
    forall|q: Seq<Seq<u8>>| #[trigger] paths.contains(q) <==> is_off_the_way(roots, p, q)
}

proof fn lemma_untracked(roots: Map<Seq<Seq<u8>>, RootWatch>, p: Seq<Seq<u8>>, n: int)
    requires
        0 <= n,
    ensures
        forall|q: Seq<Seq<u8>>| #[trigger]
            task::untracked(roots, p, n).contains(q) <==> {
                &&& n <= q.len() < p.len() && p.take(q.len() as int) == q
                &&& !root::is_on_the_way(roots, q)
            },
    decreases p.len() - n,
{
    let list = task::untracked(roots, p, n);
    if n < p.len() {
        let nearer = task::untracked(roots, p, n + 1);
        let here = p.take(n);
        lemma_untracked(roots, p, n + 1);
        root::watched_is_reached(roots, here);
        assert forall|q: Seq<Seq<u8>>| #[trigger]
            list.contains(q) <==> {
                &&& n <= q.len() < p.len() && p.take(q.len() as int) == q
                &&& !root::is_on_the_way(roots, q)
            } by {
            assert(here.len() == n);
            if !root::leads_to_root(roots, here) {
                assert(list == nearer.push(here));
                assert(list.contains(q) <==> nearer.contains(q) || q == here) by {
                    if list.contains(q) {
                        let i = list.index_of(q);
                        if i < nearer.len() {
                            assert(nearer[i] == q);
                        }
                    }
                    if nearer.contains(q) {
                        assert(list[nearer.index_of(q)] == q);
                    }
                    assert(list[nearer.len() as int] == here);
                }
            }
            assert(nearer.contains(q) ==> q.len() > n);
        }
    }
}

proof fn lemma_off_the_way(roots: Map<Seq<Seq<u8>>, RootWatch>, p: Seq<Seq<u8>>)
    ensures
        lists_off_the_way(roots, p, task::untracked(roots, p, path::floor(p))),
{
    lemma_untracked(roots, p, path::floor(p));
    assert(path::root_dir() =~= seq![47u8]);
    let list = task::untracked(roots, p, path::floor(p));
    assert forall|q: Seq<Seq<u8>>| #[trigger] list.contains(q) <==> is_off_the_way(
        roots,
        p,
        q,
    ) by {}
}

/// Whether the ancestors of `p` that are on the way to no tracked root are let go, and the error is
/// handed on then.
pub open spec fn is_refused(s: LoopView, r: LoopView, p: Seq<Seq<u8>>, error: ErrorView) -> bool {
    exists|paths: Seq<Seq<Seq<u8>>>| #[trigger]
        lists_off_the_way(s.roots, p, paths) && r == LoopView {
            tasks: s.tasks.push(Task::Fail { error }).push(Task::UntrackEach { paths }),
            outcome: Outcome::Done,
            ..s
        }
}

/// A path that the user watches is recorded in the mode asked for and as what it was found to be,
/// once its watch is set up; where that failed it is not recorded, and the way to it is let go.
pub proof fn watched_path_is_recorded(
    s: LoopView,
    p: Seq<Seq<u8>>,
    mode: WatchMode,
    state: RootState,
    answer: AnswerView,
)
    ensures
        s.push(Task::AddRootAdded { path: p, mode, state }).step(answer) == (
            if s.outcome is Failed {
                s
            } else {
                LoopView {
                    roots: s.roots.insert(p, RootWatch { mode, state }),
                    outcome: Outcome::Done,
                    ..s
                }
            },
            RequestView::Again,
        ),
        ({
            let (r, request) = s.push(Task::AddRootArmed { path: p, mode }).step(answer);
            &&& request == RequestView::Again
            &&& match s.outcome {
                Outcome::Failed(error) => is_refused(s, r, p, error),
                Outcome::Armed(state) => r == LoopView {
                    roots: s.roots.insert(p, RootWatch { mode, state }),
                    outcome: Outcome::Done,
                    ..s
                },
                _ => true,
            }
        }),
{
    reveal(LoopView::add_root_added);
    reveal(LoopView::add_root_armed);
    assert(s.push(Task::AddRootAdded { path: p, mode, state }).popped() =~= s);
    assert(s.push(Task::AddRootArmed { path: p, mode }).popped() =~= s);
    lemma_off_the_way(s.roots, p);
}

/// What is asked when the user watches a path: one that is not watched is armed if it is to be
/// tracked, else looked at. One that is watched gets what its mode lacks, the way to it first.
pub proof fn watch_is_begun(s: LoopView, p: Seq<Seq<u8>>, mode: WatchMode, answer: AnswerView)
    ensures
        s.push(Task::AddRoot { path: p, mode }).step(answer) == (
            LoopView {
                tasks: s.tasks.push(Task::AddRegister).push(Task::AddInner { path: p, mode }),
                ..s
            },
            RequestView::Again,
        ),
        ({
            let (r, request) = s.push(Task::AddInner { path: p, mode }).step(answer);
            let tracks = mode.target_mode == TargetMode::TrackPath;
            let recursive = mode.recursive_mode == RecursiveMode::Recursive;
            let existing = s.roots[p].mode;
            let recurse = recursive && existing.recursive_mode == RecursiveMode::NonRecursive;
            let is_absolute = p.len() > 0 && p[0] == seq![47u8];
            &&& r == LoopView { tasks: r.tasks, ..s }
            &&& if !s.roots.contains_key(p) && !tracks {
                request == RequestView::Stat(p) && r.tasks == s.tasks.push(
                    Task::AddRootLooked { path: p, mode },
                )
            } else {
                request == RequestView::Again && r.tasks == if !s.roots.contains_key(p) {
                    s.tasks.push(Task::AddRootArmed { path: p, mode }).push(
                        Task::Arm { root: p, recursive },
                    )
                } else if tracks && existing.target_mode == TargetMode::NoTrack {
                    s.tasks.push(Task::UpgradeReached { path: p, mode, recurse }).push(
                        Task::Chain {
                            root: p,
                            n: if is_absolute {
                                1
                            } else {
                                0
                            },
                        },
                    )
                } else {
                    s.tasks.push(Task::Upgrade { path: p, mode, recurse })
                }
            }
        }),
{
    reveal(LoopView::add_root);
    reveal(LoopView::add_inner);
    assert(s.push(Task::AddRoot { path: p, mode }).popped() =~= s);
    assert(s.push(Task::AddInner { path: p, mode }).popped() =~= s);
    assert(path::root_dir() =~= seq![47u8]);
}

/// Several paths are watched one after the other, until one cannot be, and the handles are
/// registered once for all. An error of the registration comes first, else the error of the watch.
pub proof fn paths_are_watched_together(
    s: LoopView,
    wanted: Seq<WantedView>,
    error: ErrorView,
    answer: AnswerView,
)
    ensures
        s.push(Task::AddRoots { wanted }).step(answer) == (
            LoopView {
                tasks: s.tasks.push(Task::AddRegister).push(Task::AddInnerEach { wanted }),
                ..s
            },
            RequestView::Again,
        ),
        s.push(Task::AddInnerEach { wanted }).step(answer) == (
            if wanted.len() == 0 {
                LoopView { outcome: Outcome::Done, ..s }
            } else {
                LoopView {
                    tasks: s.tasks.push(
                        Task::AddInnerEnded { wanted: wanted.drop_first() },
                    ).push(Task::AddInner { path: wanted[0].path, mode: wanted[0].mode }),
                    ..s
                }
            },
            RequestView::Again,
        ),
        s.push(Task::AddInnerEnded { wanted }).step(answer) == (
            if s.outcome is Failed {
                s
            } else {
                LoopView { tasks: s.tasks.push(Task::AddInnerEach { wanted }), ..s }
            },
            RequestView::Again,
        ),
        s.push(Task::AddRegister).step(answer) == (
            match s.outcome {
                Outcome::Failed(error) => LoopView {
                    tasks: s.tasks.push(Task::Fallback { error }).push(Task::Register),
                    outcome: Outcome::Done,
                    ..s
                },
                _ => LoopView { tasks: s.tasks.push(Task::Register), ..s },
            },
            RequestView::Again,
        ),
        s.push(Task::Fallback { error }).step(answer) == (
            if s.outcome is Failed {
                s
            } else {
                LoopView { outcome: Outcome::Failed(error), ..s }
            },
            RequestView::Again,
        ),
{
    reveal(LoopView::add_roots);
    reveal(LoopView::add_inner_each);
    reveal(LoopView::add_inner_ended);
    reveal(LoopView::add_register);
    reveal(LoopView::fallback);
    assert(s.push(Task::AddRoots { wanted }).popped() =~= s);
    assert(s.push(Task::AddInnerEach { wanted }).popped() =~= s);
    assert(s.push(Task::AddInnerEnded { wanted }).popped() =~= s);
    assert(s.push(Task::AddRegister).popped() =~= s);
    assert(s.push(Task::Fallback { error }).popped() =~= s);
}

/// The root with the mode that watches what either mode watches.
pub open spec fn widened(root: RootWatch, mode: WatchMode) -> RootWatch {
    RootWatch {
        mode: WatchMode {
            recursive_mode: if root.mode.recursive_mode == RecursiveMode::Recursive
                || mode.recursive_mode == RecursiveMode::Recursive {
                RecursiveMode::Recursive
            } else {
                RecursiveMode::NonRecursive
            },
            target_mode: if root.mode.target_mode == TargetMode::TrackPath || mode.target_mode
                == TargetMode::TrackPath {
                TargetMode::TrackPath
            } else {
                TargetMode::NoTrack
            },
        },
        state: root.state,
    }
}

/// A path that is watched again gets the mode that watches what either mode watches. Where it was
/// missing it is armed, where it is to be recursive only now what is below it is watched first, and
/// where that cannot be its mode stays.
pub proof fn mode_is_widened(
    s: LoopView,
    p: Seq<Seq<u8>>,
    mode: WatchMode,
    recurse: bool,
    stat: Result<PathStat, i32>,
)
    requires
        s.roots.contains_key(p),
    ensures
        ({
            let wide = widened(s.roots[p], mode);
            let after = LoopView { roots: s.roots.insert(p, wide), outcome: Outcome::Done, ..s };
            let following = RootWatch {
                mode: WatchMode {
                    recursive_mode: s.roots[p].mode.recursive_mode,
                    target_mode: TargetMode::TrackPath,
                },
                state: s.roots[p].state,
            };
            let (reached, none) = s.push(Task::UpgradeReached { path: p, mode, recurse }).step(
                Answer::Stat(stat),
            );
            let (begun, request) = s.push(Task::Upgrade { path: p, mode, recurse }).step(
                Answer::Stat(stat),
            );
            let (looked, _) = s.push(Task::UpgradeLooked { path: p, mode }).step(
                Answer::Stat(stat),
            );
            let (added, _) = s.push(Task::UpgradeAdded { path: p, mode }).step(
                Answer::Stat(stat),
            );
            &&& none == RequestView::Again
            &&& match s.outcome {
                Outcome::Failed(error) => is_refused(s, reached, p, error) && added == s,
                _ => reached == LoopView {
                    roots: s.roots.insert(p, following),
                    tasks: s.tasks.push(Task::Upgrade { path: p, mode, recurse }),
                    ..s
                } && added == after,
            }
            &&& if s.roots[p].state == RootState::Missing {
                request == RequestView::Again && begun == LoopView {
                    roots: s.roots.insert(p, wide),
                    tasks: s.tasks.push(Task::UpgradeArmed { path: p }).push(
                        Task::Arm {
                            root: p,
                            recursive: wide.mode.recursive_mode == RecursiveMode::Recursive,
                        },
                    ),
                    ..s
                }
            } else if recurse {
                request == RequestView::Stat(p) && begun == LoopView {
                    tasks: s.tasks.push(Task::UpgradeLooked { path: p, mode }),
                    ..s
                }
            } else {
                request == RequestView::Again && begun == after
            }
            &&& match stat {
                Ok(stat) => if stat.is_dir {
                    looked == LoopView {
                        tasks: s.tasks.push(Task::UpgradeAdded { path: p, mode }).push(
                            Task::Watch { path: p, recursive: true, is_dir: true },
                        ),
                        ..s
                    }
                } else {
                    looked == after
                },
                Err(errno) => looked == LoopView {
                    outcome: Outcome::Failed(
                        ErrorView { kind: ErrorKind::Io(errno), paths: seq![] },
                    ),
                    ..s
                },
            }
        }),
{
    reveal(LoopView::upgrade_reached);
    reveal(LoopView::upgrade);
    reveal(LoopView::upgrade_looked);
    reveal(LoopView::upgrade_added);
    assert(s.push(Task::UpgradeReached { path: p, mode, recurse }).popped() =~= s);
    assert(s.push(Task::Upgrade { path: p, mode, recurse }).popped() =~= s);
    assert(s.push(Task::UpgradeLooked { path: p, mode }).popped() =~= s);
    assert(s.push(Task::UpgradeAdded { path: p, mode }).popped() =~= s);
    assert(Seq::<Seq<Seq<u8>>>::empty() =~= seq![]);
    lemma_off_the_way(s.roots, p);
}

/// A root is armed once the way to it is: it is looked at where its parent is there, else it is
/// missing, and looked at again once the handles are registered. What its watch came to says what
/// the arm came to.
pub proof fn arm_follows_the_way(
    s: LoopView,
    root: Seq<Seq<u8>>,
    recursive: bool,
    state: RootState,
    answer: AnswerView,
)
    ensures
        ({
            let is_absolute = root.len() > 0 && root[0] == seq![47u8];
            s.push(Task::ArmRoot { root, recursive }).step(answer) == (
                LoopView {
                    tasks: s.tasks.push(Task::ArmReached { root, recursive }).push(
                        Task::Chain {
                            root,
                            n: if is_absolute {
                                1
                            } else {
                                0
                            },
                        },
                    ),
                    ..s
                },
                RequestView::Again,
            )
        }),
        s.push(Task::ArmReached { root, recursive }).step(answer) == match s.outcome {
            Outcome::Failed(_) => (s, RequestView::Again),
            Outcome::Reached(true) => (
                LoopView { tasks: s.tasks.push(Task::ArmLooked { root, recursive }), ..s },
                RequestView::Stat(root),
            ),
            _ => (
                LoopView {
                    unarmed: s.unarmed.push(root),
                    outcome: Outcome::Armed(RootState::Missing),
                    ..s
                },
                RequestView::Again,
            ),
        },
        s.push(Task::ArmAdded { state }).step(answer) == (
            if s.outcome is Failed {
                s
            } else {
                LoopView { outcome: Outcome::Armed(state), ..s }
            },
            RequestView::Again,
        ),
{
    reveal(LoopView::arm_root);
    reveal(LoopView::arm_reached);
    reveal(LoopView::arm_added);
    assert(s.push(Task::ArmRoot { root, recursive }).popped() =~= s);
    assert(s.push(Task::ArmReached { root, recursive }).popped() =~= s);
    assert(s.push(Task::ArmAdded { state }).popped() =~= s);
    assert(path::root_dir() =~= seq![47u8]);
}

/// An ancestor that is on the way to no tracked root any more is noted no longer, and its handle is
/// closed unless the watch of a root reaches it.
pub proof fn ancestor_is_let_go(
    s: LoopView,
    paths: Seq<Seq<Seq<u8>>>,
    answer: AnswerView,
)
    requires
        paths.len() > 0,
    ensures
        ({
            let rest = s.tasks.push(Task::UntrackEach { paths: paths.drop_first() });
            s.push(Task::UntrackEach { paths }).step(answer) == (
                LoopView {
                    present: s.present.remove(paths[0]),
                    tasks: if root::is_reached(s.roots, paths[0]) {
                        rest
                    } else {
                        rest.push(Task::RemoveSingle { path: paths[0] })
                    },
                    ..s
                },
                RequestView::Again,
            )
        }),
{
    reveal(LoopView::untrack_each);
    assert(s.push(Task::UntrackEach { paths }).popped() =~= s);
    root::watched_is_reached(s.roots, paths[0]);
}

/// Whether `paths` holds, in their order, the paths with a handle at and below `p`, or only `p`'s
/// entries.
pub open spec fn lists_handles(
    s: LoopView,
    p: Seq<Seq<u8>>,
    entries_only: bool,
    paths: Seq<Seq<Seq<u8>>>,
) -> bool {
    &&& path_map::sorted(paths)
    &&& forall|q: Seq<Seq<u8>>| #[trigger]
        paths.contains(q) <==> {
            &&& s.handles.contains_key(q)
            &&& q.len() >= p.len() && q.take(p.len() as int) == p
            &&& entries_only ==> q.len() == p.len() + 1 && (p.len() > 0 || q[0] != seq![47u8])
        }
}

/// A root that is watched no longer is forgotten, and its handles are released: all at and below it
/// if it was recursive, else its own and those of its entries. The way to it is let go if it was
/// tracked, and the handles are registered in any case. An error of the registration comes first.
pub proof fn unwatch_releases_handles(
    s: LoopView,
    p: Seq<Seq<u8>>,
    tracks: bool,
    answer: AnswerView,
)
    requires
        s.handles.dom().finite(),
    ensures
        ({
            let (r, request) = s.push(Task::RemoveRoot { path: p }).step(answer);
            let mode = s.roots[p].mode;
            let recursive = mode.recursive_mode == RecursiveMode::Recursive;
            let entries_only = mode.recursive_mode == RecursiveMode::NonRecursive;
            let next = s.tasks.push(
                Task::RemoveRootReleased {
                    path: p,
                    tracks: mode.target_mode == TargetMode::TrackPath,
                },
            );
            &&& request == RequestView::Again
            &&& !s.roots.contains_key(p) ==> r == LoopView {
                outcome: Outcome::Failed(
                    ErrorView { kind: ErrorKind::WatchNotFound, paths: seq![] },
                ),
                ..s
            }
            &&& s.roots.contains_key(p) ==> exists|paths: Seq<Seq<Seq<u8>>>| #[trigger]
                lists_handles(s, p, entries_only, paths) && r == LoopView {
                    roots: s.roots.remove(p),
                    tasks: if recursive {
                        next.push(Task::ReleaseEach { paths })
                    } else {
                        next.push(Task::ReleaseHandle { path: p }).push(
                            Task::ReleaseEach { paths },
                        )
                    },
                    ..s
                }
        }),
        ({
            let (r, request) = s.push(Task::RemoveRootReleased { path: p, tracks }).step(answer);
            let next = match s.outcome {
                Outcome::Failed(error) => s.tasks.push(Task::Fallback { error }),
                _ => s.tasks,
            };
            let outcome = match s.outcome {
                Outcome::Failed(_) => Outcome::Done,
                _ => s.outcome,
            };
            &&& request == RequestView::Again
            &&& !tracks ==> r == LoopView { tasks: next.push(Task::Register), outcome, ..s }
            &&& tracks ==> exists|paths: Seq<Seq<Seq<u8>>>| #[trigger]
                lists_off_the_way(s.roots, p, paths) && r == LoopView {
                    tasks: next.push(Task::Register).push(Task::UntrackEach { paths }),
                    outcome,
                    ..s
                }
        }),
{
    reveal(LoopView::remove_root);
    reveal(LoopView::remove_root_released);
    assert(s.push(Task::RemoveRoot { path: p }).popped() =~= s);
    assert(s.push(Task::RemoveRootReleased { path: p, tracks }).popped() =~= s);
    assert(Seq::<Seq<Seq<u8>>>::empty() =~= seq![]);
    lemma_off_the_way(s.roots, p);
    assert(path::root_dir() =~= seq![47u8]);
    let below = path_map::at_and_below(s.handles.dom(), p);
    let entries = path::chosen(below, task::is_entry_of(p));
    path_map::lemma_below_sorted(s.handles.dom(), p);
    root::lemma_chosen_sorted(below, task::is_entry_of(p));
    assert forall|q: Seq<Seq<u8>>| #[trigger]
        below.contains(q) <==> s.handles.contains_key(q) && q.len() >= p.len() && q.take(
            p.len() as int,
        ) == p by {
        path_map::lemma_listed(s.handles.dom(), p, q);
    }
    assert(lists_handles(s, p, false, below));
    assert forall|q: Seq<Seq<u8>>| #[trigger]
        entries.contains(q) <==> {
            &&& s.handles.contains_key(q)
            &&& q.len() >= p.len() && q.take(p.len() as int) == p
            &&& q.len() == p.len() + 1 && (p.len() > 0 || q[0] != seq![47u8])
        } by {
        assert(entries.contains(q) <==> below.contains(q) && task::is_entry_of(p)(q));
        if q.len() == p.len() + 1 {
            assert(q.take(p.len() as int) =~= q.drop_last());
        }
    }
    assert(lists_handles(s, p, true, entries));
    let entries_only = s.roots[p].mode.recursive_mode == RecursiveMode::NonRecursive;
    if s.roots.contains_key(p) {
        if entries_only {
            assert(lists_handles(s, p, entries_only, entries));
        } else {
            assert(lists_handles(s, p, entries_only, below));
        }
    }
}

/// The handles opened and closed are registered in rounds. Each round looks again at the roots that
/// were found missing and at the ancestors that were found there again since the last, and another
/// follows while handles are opened or ancestors found again. The creations are reported at the end
/// in any case.
pub proof fn registration_goes_in_rounds(s: LoopView, did: Result<(), i32>)
    ensures
        s.push(Task::Register).step(Answer::Did(did)) == (
            LoopView { tasks: s.tasks.push(Task::Flush).push(Task::RegisterKevents), ..s },
            RequestView::Again,
        ),
        s.push(Task::RegisterKevents).step(Answer::Did(did)) == (
            LoopView { tasks: s.tasks.push(Task::RegisterAnswered), ..s },
            RequestView::Register,
        ),
        s.push(Task::RegisterAnswered).step(Answer::Did(did)) == (
            match did {
                Ok(_) => LoopView {
                    unregistered: false,
                    unarmed: seq![],
                    tasks: s.tasks.push(Task::RegisterRearmed).push(
                        Task::RearmEach { roots: s.unarmed },
                    ),
                    ..s
                },
                Err(errno) => LoopView {
                    outcome: Outcome::Failed(
                        ErrorView { kind: ErrorKind::Io(errno), paths: seq![] },
                    ),
                    ..s
                },
            },
            RequestView::Again,
        ),
        s.push(Task::RegisterRearmed).step(Answer::Did(did)) == (
            LoopView {
                reappeared: seq![],
                tasks: s.tasks.push(Task::RegisterRound).push(
                    Task::RecheckEach { paths: s.reappeared },
                ),
                ..s
            },
            RequestView::Again,
        ),
        s.push(Task::RegisterRound).step(Answer::Did(did)) == (
            if s.unregistered || s.reappeared.len() > 0 {
                LoopView { tasks: s.tasks.push(Task::RegisterKevents), ..s }
            } else {
                LoopView { unarmed: seq![], outcome: Outcome::Done, ..s }
            },
            RequestView::Again,
        ),
{
    reveal(LoopView::register);
    reveal(LoopView::register_kevents);
    reveal(LoopView::register_answered);
    reveal(LoopView::register_rearmed);
    reveal(LoopView::register_round);
    assert(s.push(Task::Register).popped() =~= s);
    assert(s.push(Task::RegisterKevents).popped() =~= s);
    assert(s.push(Task::RegisterAnswered).popped() =~= s);
    assert(s.push(Task::RegisterRearmed).popped() =~= s);
    assert(s.push(Task::RegisterRound).popped() =~= s);
    assert(Seq::<Seq<Seq<u8>>>::empty() =~= seq![]);
}

/// Whether the handle at `h` stays when `p` is gone: it is that of a root there that is present, or
/// the watch of a root at or below `p` that does not track its path reaches it, as such a root
/// follows its entity.
pub open spec fn is_kept(
    roots: Map<Seq<Seq<u8>>, RootWatch>,
    p: Seq<Seq<u8>>,
    h: Seq<Seq<u8>>,
) -> bool {
    ||| h == p && roots.contains_key(p) && roots[p].state != RootState::Missing
    ||| exists|t: Seq<Seq<u8>>| #[trigger]
        roots.contains_key(t) && roots[t].mode.target_mode == TargetMode::NoTrack && t.len()
            >= p.len() && t.take(p.len() as int) == p && root::reaches(t, roots[t].mode, h)
}

/// Whether `paths` holds, in their order, the paths with a handle at and below `p` that go with it.
pub open spec fn lists_dropped(s: LoopView, p: Seq<Seq<u8>>, paths: Seq<Seq<Seq<u8>>>) -> bool {
    &&& path_map::sorted(paths)
    &&& forall|q: Seq<Seq<u8>>| #[trigger]
        paths.contains(q) <==> {
            &&& s.handles.contains_key(q)
            &&& q.len() >= p.len() && q.take(p.len() as int) == p
            &&& !is_kept(s.roots, p, q)
        }
}

/// When what was at a path is gone, the handles at and below it are closed, but for that of a root
/// that is there and those that a root at or below the path which does not track its path is
/// reported through.
pub proof fn handles_of_what_is_gone_are_closed(
    s: LoopView,
    p: Seq<Seq<u8>>,
    answer: AnswerView,
)
    requires
        s.handles.dom().finite(),
    ensures
        ({
            let (r, request) = s.push(Task::DropBelow { path: p }).step(answer);
            &&& request == RequestView::Again
            &&& exists|paths: Seq<Seq<Seq<u8>>>| #[trigger]
                lists_dropped(s, p, paths) && r == LoopView {
                    tasks: s.tasks.push(Task::RemoveEach { paths }),
                    ..s
                }
        }),
{
    reveal(LoopView::drop_below);
    assert(s.push(Task::DropBelow { path: p }).popped() =~= s);
    let below = path_map::at_and_below(s.handles.dom(), p);
    let gone = path::chosen(below, task::is_dropped(s.roots, p));
    path_map::lemma_below_sorted(s.handles.dom(), p);
    root::lemma_chosen_sorted(below, task::is_dropped(s.roots, p));
    assert forall|q: Seq<Seq<u8>>| #[trigger]
        gone.contains(q) <==> {
            &&& s.handles.contains_key(q)
            &&& q.len() >= p.len() && q.take(p.len() as int) == p
            &&& !is_kept(s.roots, p, q)
        } by {
        path_map::lemma_listed(s.handles.dom(), p, q);
        lemma_kept(s.roots, p, q);
        assert(gone.contains(q) <==> below.contains(q) && task::is_dropped(s.roots, p)(q));
    }
    assert(lists_dropped(s, p, gone));
}

proof fn lemma_kept(
    roots: Map<Seq<Seq<u8>>, RootWatch>,
    p: Seq<Seq<u8>>,
    h: Seq<Seq<u8>>,
)
    ensures
        task::is_dropped(roots, p)(h) <==> !is_kept(roots, p, h),
{
    assert(path::root_dir() =~= seq![47u8]);
    if task::kept_by_no_track_root(roots, p, h) {
        let n = choose|n: int|
            (path::floor(h) <= n <= h.len() || n == h.len()) && #[trigger] task::is_kept_at(
                roots,
                p,
                h,
                n,
            );
        let t = h.take(n);
        if n == h.len() {
            assert(t =~= h);
        }
        assert(root::reaches(t, roots[t].mode, h));
        assert(roots.contains_key(t));
    }
    if exists|t: Seq<Seq<u8>>| #[trigger]
        roots.contains_key(t) && roots[t].mode.target_mode == TargetMode::NoTrack && t.len()
            >= p.len() && t.take(p.len() as int) == p && root::reaches(t, roots[t].mode, h) {
        let t = choose|t: Seq<Seq<u8>>| #[trigger]
            roots.contains_key(t) && roots[t].mode.target_mode == TargetMode::NoTrack && t.len()
                >= p.len() && t.take(p.len() as int) == p && root::reaches(t, roots[t].mode, h);
        let n = t.len() as int;
        if h == t {
            assert(h.take(n) =~= t);
        }
        assert(h.take(n) == t);
        assert(task::is_kept_at(roots, p, h, n));
    }
}

/// Every path that a batch found new is watched as it was found. One that was gone before it could
/// be watched is reported removed, and another error is passed over. The stale handles go first,
/// whatever was found at their paths. What went wrong at the end of a batch is reported, and the
/// batch is over.
pub proof fn batch_is_dealt_with(
    s: LoopView,
    p: Seq<Seq<u8>>,
    paths: Seq<Seq<Seq<u8>>>,
    answer: AnswerView,
)
    ensures
        paths.len() > 0 ==> s.push(Task::AddAll { paths }).step(answer) == (
            LoopView {
                tasks: if s.batch.add.contains_key(paths[0]) {
                    s.tasks.push(
                        Task::AddAllEnded { path: paths[0], paths: paths.drop_first() },
                    ).push(
                        Task::Watch {
                            path: paths[0],
                            recursive: s.batch.add[paths[0]].is_recursive,
                            is_dir: s.batch.add[paths[0]].is_dir,
                        },
                    )
                } else {
                    s.tasks.push(Task::AddAll { paths: paths.drop_first() })
                },
                ..s
            },
            RequestView::Again,
        ),
        ({
            let is_gone = s.outcome matches Outcome::Failed(error) && error.kind == ErrorKind::Io(
                2,
            ) && error.paths.contains(p);
            s.push(Task::AddAllEnded { path: p, paths }).step(answer) == (
                LoopView {
                    reports: if is_gone {
                        s.reports.push(
                            report::told(EventKind::Remove(RemoveKind::Any), seq![p], None),
                        )
                    } else {
                        s.reports
                    },
                    tasks: s.tasks.push(Task::AddAll { paths }),
                    ..s
                },
                RequestView::Again,
            )
        }),
        paths.len() > 0 ==> s.push(Task::StaleEach { paths }).step(answer) == (
            LoopView {
                tasks: s.tasks.push(Task::StaleEach { paths: paths.drop_first() }).push(
                    Task::DropBelow { path: paths[0] },
                ).push(Task::RemoveSingle { path: paths[0] }),
                ..s
            },
            RequestView::Again,
        ),
        s.push(Task::BatchEnded).step(answer) == (
            LoopView {
                batch: BatchView {
                    add: Map::empty(),
                    stale: Set::empty(),
                    rewalk: seq![],
                    vanished: Set::empty(),
                    changed: Set::empty(),
                },
                reports: match s.outcome {
                    Outcome::Failed(error) => s.reports.push(ReportView::Error(error)),
                    _ => s.reports,
                },
                outcome: Outcome::Done,
                ..s
            },
            RequestView::Again,
        ),
{
    reveal(LoopView::add_all);
    reveal(LoopView::add_all_ended);
    reveal(LoopView::stale_each);
    reveal(LoopView::batch_ended);
    assert(s.push(Task::AddAll { paths }).popped() =~= s);
    assert(s.push(Task::AddAllEnded { path: p, paths }).popped() =~= s);
    assert(s.push(Task::StaleEach { paths }).popped() =~= s);
    assert(s.push(Task::BatchEnded).popped() =~= s);
    assert(Seq::<Seq<Seq<u8>>>::empty() =~= seq![]);
    assert(Seq::<Seq<Seq<u8>>>::empty().push(p) =~= seq![p]);
}

/// Whether `list` holds the paths of `set`, in their order.
pub open spec fn lists_all(set: Set<Seq<Seq<u8>>>, list: Seq<Seq<Seq<u8>>>) -> bool {
    &&& path_map::sorted(list)
    &&& forall|q: Seq<Seq<u8>>| #[trigger] list.contains(q) <==> set.contains(q)
}

proof fn lemma_lists_all(set: Set<Seq<Seq<u8>>>)
    requires
        set.finite(),
    ensures
        lists_all(set, task::listed(set)),
{
    path_map::lemma_below_sorted(set, Seq::empty());
    assert forall|q: Seq<Seq<u8>>| #[trigger] task::listed(set).contains(q) <==> set.contains(
        q,
    ) by {
        path_map::lemma_listed(set, Seq::empty(), q);
        assert(q.take(0) =~= Seq::<Seq<u8>>::empty());
    }
}

/// What a batch asks for is done in this order: the stale handles go, the trees to walk again are
/// let go, the roots below what went are cut off, the stale roots are armed again, what went is
/// looked at once more, so are the ancestors in directories that changed, what was found new is
/// watched, and the handles are registered.
pub proof fn batch_is_dealt_with_in_order(s: LoopView)
    requires
        s.batch.stale.finite(),
        s.batch.vanished.finite(),
        s.batch.changed.finite(),
        s.batch.add.dom().finite(),
    ensures
        exists|
            stale: Seq<Seq<Seq<u8>>>,
            vanished: Seq<Seq<Seq<u8>>>,
            changed: Seq<Seq<Seq<u8>>>,
            new: Seq<Seq<Seq<u8>>>,
        |
            {
                &&& #[trigger] lists_all(s.batch.stale, stale)
                &&& #[trigger] lists_all(s.batch.vanished, vanished)
                &&& #[trigger] lists_all(s.batch.changed, changed)
                &&& #[trigger] lists_all(s.batch.add.dom(), new)
                &&& s.process() == LoopView {
                    tasks: s.tasks.push(Task::BatchEnded).push(Task::Register).push(
                        Task::AddAll { paths: new },
                    ).push(Task::CheckChainEach { paths: changed }).push(
                        Task::CheckEach { paths: vanished },
                    ).push(Task::RearmEach { roots: stale }).push(
                        Task::VanishEach { paths: vanished },
                    ).push(Task::DropEach { paths: s.batch.rewalk }).push(
                        Task::StaleEach { paths: stale },
                    ),
                    ..s
                }
            },
{
    lemma_lists_all(s.batch.stale);
    lemma_lists_all(s.batch.vanished);
    lemma_lists_all(s.batch.changed);
    lemma_lists_all(s.batch.add.dom());
}

/// Of a directory that changed the entries that are on the way to tracked roots are looked at.
pub proof fn entries_on_the_way_are_looked_at(
    s: LoopView,
    paths: Seq<Seq<Seq<u8>>>,
    answer: AnswerView,
)
    requires
        paths.len() > 0,
        s.roots.dom().finite(),
    ensures
        ({
            let (r, request) = s.push(Task::CheckChainEach { paths }).step(answer);
            let dir = paths[0];
            &&& request == RequestView::Again
            &&& exists|entries: Seq<Seq<Seq<u8>>>|
                {
                    &&& #[trigger] path_map::sorted(entries)
                    &&& forall|q: Seq<Seq<u8>>| #[trigger]
                        entries.contains(q) <==> q.len() == dir.len() + 1 && q.drop_last() == dir
                            && (dir.len() > 0 || q[0] != seq![47u8]) && root::is_on_the_way(
                            s.roots,
                            q,
                        )
                    &&& r == LoopView {
                        tasks: s.tasks.push(
                            Task::CheckChainEach { paths: paths.drop_first() },
                        ).push(Task::CheckEach { paths: entries }),
                        ..s
                    }
                }
        }),
{
    reveal(LoopView::check_chain_each);
    assert(s.push(Task::CheckChainEach { paths }).popped() =~= s);
    let dir = paths[0];
    let children = task::chain_children(s.roots, dir);
    let cut = |r: Seq<Seq<u8>>| r.take(dir.len() as int + 1);
    s.roots.dom().lemma_map_finite(cut);
    assert(children.subset_of(s.roots.dom().map(cut))) by {
        assert forall|c: Seq<Seq<u8>>| children.contains(c) implies s.roots.dom().map(
            cut,
        ).contains(c) by {
            let r = choose|r: Seq<Seq<u8>>| #[trigger]
                s.roots.contains_key(r) && s.roots[r].mode.tracks_path() && path::lies_below(r, c);
            assert(cut(r) == c);
            assert(s.roots.dom().contains(r));
        }
    }
    vstd::set_lib::lemma_set_subset_finite(s.roots.dom().map(cut), children);
    lemma_lists_all(children);
    let entries = task::listed(children);
    assert(path::root_dir() =~= seq![47u8]);
    assert forall|q: Seq<Seq<u8>>| #[trigger]
        entries.contains(q) <==> q.len() == dir.len() + 1 && q.drop_last() == dir && (dir.len() > 0
            || q[0] != seq![47u8]) && root::is_on_the_way(s.roots, q) by {
        root::watched_is_reached(s.roots, q);
        assert(entries.contains(q) <==> children.contains(q));
    }
    assert(path_map::sorted(entries));
}

/// A list of paths is gone through from the first to the last, each dealt with before the next.
pub proof fn lists_are_gone_through(s: LoopView, paths: Seq<Seq<Seq<u8>>>, answer: AnswerView)
    ensures
        paths.len() > 0 ==> ({
            let rest = paths.drop_first();
            let goes_on = |r: LoopView, last: task::TaskView, first: task::TaskView|
                r == LoopView { tasks: s.tasks.push(last).push(first), ..s };
            &&& goes_on(
                s.push(Task::RemoveEach { paths }).step(answer).0,
                Task::RemoveEach { paths: rest },
                Task::RemoveSingle { path: paths[0] },
            )
            &&& goes_on(
                s.push(Task::ReleaseEach { paths }).step(answer).0,
                Task::ReleaseEach { paths: rest },
                Task::ReleaseHandle { path: paths[0] },
            )
            &&& goes_on(
                s.push(Task::RearmEach { roots: paths }).step(answer).0,
                Task::RearmEach { roots: rest },
                Task::Rearm { root: paths[0] },
            )
            &&& goes_on(
                s.push(Task::VanishEach { paths }).step(answer).0,
                Task::VanishEach { paths: rest },
                Task::VanishBelow { path: paths[0] },
            )
            &&& goes_on(
                s.push(Task::DropEach { paths }).step(answer).0,
                Task::DropEach { paths: rest },
                Task::DropBelow { path: paths[0] },
            )
            &&& goes_on(
                s.push(Task::CheckEach { paths }).step(answer).0,
                Task::CheckEach { paths: rest },
                Task::CheckAncestor { path: paths[0] },
            )
            &&& goes_on(
                s.push(Task::RecheckEach { paths }).step(answer).0,
                Task::RecheckEach { paths: rest },
                Task::Recheck { path: paths[0] },
            )
        }),
{
    reveal(LoopView::remove_each);
    reveal(LoopView::release_each);
    reveal(LoopView::rearm_each);
    reveal(LoopView::vanish_each);
    reveal(LoopView::drop_each);
    reveal(LoopView::check_each);
    reveal(LoopView::recheck_each);
    assert(s.push(Task::RemoveEach { paths }).popped() =~= s);
    assert(s.push(Task::ReleaseEach { paths }).popped() =~= s);
    assert(s.push(Task::RearmEach { roots: paths }).popped() =~= s);
    assert(s.push(Task::VanishEach { paths }).popped() =~= s);
    assert(s.push(Task::DropEach { paths }).popped() =~= s);
    assert(s.push(Task::CheckEach { paths }).popped() =~= s);
    assert(s.push(Task::RecheckEach { paths }).popped() =~= s);
}

/// A task that fails ends with its error. Where no task is left there is nothing to ask.
pub proof fn tasks_end_as_they_say(s: LoopView, error: ErrorView, answer: AnswerView)
    ensures
        s.push(Task::Fail { error }).step(answer) == (
            LoopView { outcome: Outcome::Failed(error), ..s },
            RequestView::Again,
        ),
        s.tasks.len() == 0 ==> s.step(answer) == (s, RequestView::Idle),
{
    assert(s.push(Task::Fail { error }).popped() =~= s);
}

} // verus!
