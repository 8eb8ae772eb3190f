//! What single steps of the event loop come to: what they report, what they record, and what they
//! ask of the system.

use crate::config::{RecursiveMode, TargetMode, WatchMode};
use crate::error::{ErrorKind, ErrorView};
use crate::event::{CreateKind, EventKind, EventView, RemoveKind};
use crate::inotify::event_laws;
use crate::inotify::mask;
use crate::inotify::mask::{
    ATTRIB, CLOSE_WRITE, CREATE, DELETE, DELETE_SELF, MODIFY, MOVED_FROM, MOVED_TO, MOVE_SELF, OPEN,
};
use crate::inotify::reading::{AddView, ChangesView, FileStat, ReadingView};
use crate::inotify::table;
use crate::inotify::table::{BoundView, Handle, Inode, TableView};
use crate::inotify::task;
use crate::inotify::task::{Answer, AnswerView, Deed, LoopView, Request, RequestView, Task};
use crate::outcome::Outcome;
use crate::path;
use crate::path_map;
use crate::report;
use crate::report::ReportView;
use crate::root;
use crate::root::{RootState, RootWatch};
use vstd::prelude::*;

verus! {

/// The report that a root is there again.
pub open spec fn creation_of(root: Seq<Seq<u8>>, state: RootState) -> ReportView {
    report::told(
        EventKind::Create(
            if state == RootState::Directory {
                CreateKind::Folder
            } else {
                CreateKind::File
            },
        ),
        seq![root],
        None,
    )
}

/// The report that a root which was there is out of reach.
pub open spec fn removal_of(root: Seq<Seq<u8>>, state: RootState) -> ReportView {
    report::told(
        EventKind::Remove(
            if state == RootState::Directory {
                RemoveKind::Folder
            } else {
                RemoveKind::File
            },
        ),
        seq![root],
        None,
    )
}

/// Whether nothing changed from `s` to `r` but the reports and the state of the root at `p`.
pub open spec fn is_noted(
    s: LoopView,
    r: LoopView,
    p: Seq<Seq<u8>>,
    state: RootState,
    report: ReportView,
) -> bool {
    &&& r.reading.reports == s.reading.reports.push(report)
    &&& event_laws::is_only_change(s.reading, r.reading, p, state)
    &&& r.reading.changes == s.reading.changes
    &&& r.reading.rename_from == s.reading.rename_from
}

/// A missing root that an arm found there is reported created, as the folder or the file that it
/// is, and is recorded so. One that was not found stays as it is. One that could not be armed is
/// reported with its error, which names it. The other roots follow in any case.
pub proof fn returned_root_is_reported(
    s: LoopView,
    root: Seq<Seq<u8>>,
    roots: Seq<Seq<Seq<u8>>>,
    answer: AnswerView,
)
    ensures
        ({
            let (r, request) = s.push(Task::RearmEnded { root, roots }).step(answer);
            &&& request == RequestView::Again
            &&& r.tasks == s.tasks.push(Task::RearmEach { roots })
            &&& r.walked == s.walked
            &&& match s.outcome {
                Outcome::Armed(state) => if state == RootState::Missing {
                    r.reading == s.reading
                } else {
                    is_noted(s, r, root, state, creation_of(root, state))
                },
                Outcome::Failed(error) => r.reading == ReadingView {
                    reports: s.reading.reports.push(
                        ReportView::Error(
                            ErrorView {
                                kind: error.kind,
                                paths: if error.paths.contains(root) {
                                    error.paths
                                } else {
                                    error.paths.push(root)
                                },
                            },
                        ),
                    ),
                    ..s.reading
                } && r.outcome is Done,
                _ => r.reading == s.reading,
            }
        }),
{
    reveal(LoopView::rearm_ended);
    assert(s.push(Task::RearmEnded { root, roots }).popped().tasks =~= s.tasks);
    assert(Seq::<Seq<Seq<u8>>>::empty().push(root) =~= seq![root]);
}

/// A missing root that is watched again and found there is reported created, as the folder or the
/// file that it is, and is recorded so. The error of one that cannot be armed is handed on.
pub proof fn root_found_again_is_reported(s: LoopView, root: Seq<Seq<u8>>, answer: AnswerView)
    ensures
        ({
            let (r, request) = s.push(Task::UpgradeArmed { path: root }).step(answer);
            &&& request == RequestView::Again
            &&& r.tasks == s.tasks
            &&& match s.outcome {
                Outcome::Armed(state) => if state == RootState::Missing {
                    r.reading == s.reading
                } else {
                    is_noted(s, r, root, state, creation_of(root, state))
                },
                _ => r.reading == s.reading,
            }
            &&& s.outcome is Failed ==> r.outcome == s.outcome
            &&& !(s.outcome is Failed) ==> r.outcome is Done
        }),
{
    reveal(LoopView::upgrade_armed);
    assert(s.push(Task::UpgradeArmed { path: root }).popped().tasks =~= s.tasks);
    assert(Seq::<Seq<Seq<u8>>>::empty().push(root) =~= seq![root]);
}

proof fn lemma_vanished(r: ReadingView, roots: Seq<Seq<Seq<u8>>>)
    requires
        roots.no_duplicates(),
        forall|q: Seq<Seq<u8>>| #[trigger] roots.contains(q) ==> r.table.roots.contains_key(q),
    ensures
        ({
            let after = task::all_vanished(r, roots);
            &&& after.reports == r.reports + Seq::new(
                roots.len(),
                |i: int| removal_of(roots[i], r.table.roots[roots[i]].state),
            )
            &&& after.table == TableView { roots: after.table.roots, ..r.table }
            &&& after == ReadingView { table: after.table, reports: after.reports, ..r }
            &&& forall|q: Seq<Seq<u8>>| #[trigger]
                after.table.roots.contains_key(q) <==> r.table.roots.contains_key(q)
            &&& forall|q: Seq<Seq<u8>>| #[trigger]
                after.table.roots.contains_key(q) ==> after.table.roots[q].mode
                    == r.table.roots[q].mode && after.table.roots[q].state == if roots.contains(q) {
                    RootState::Missing
                } else {
                    r.table.roots[q].state
                }
        }),
    decreases roots.len(),
{
    let after = task::all_vanished(r, roots);
    let told = Seq::new(
        roots.len(),
        |i: int| removal_of(roots[i], r.table.roots[roots[i]].state),
    );
    if roots.len() == 0 {
        assert(after.reports =~= r.reports + told);
    } else {
        let shorter = roots.drop_last();
        let last = roots.last();
        assert(roots[roots.len() - 1] == last);
        assert(roots.contains(last));
        assert forall|q: Seq<Seq<u8>>| #[trigger] roots.contains(q) <==> shorter.contains(q) || q
            == last by {
            if roots.contains(q) {
                let i = roots.index_of(q);
                if i < shorter.len() {
                    assert(shorter[i] == q);
                }
            }
            if shorter.contains(q) {
                assert(roots[shorter.index_of(q)] == q);
            }
        }
        assert(!shorter.contains(last)) by {
            if shorter.contains(last) {
                let i = shorter.index_of(last);
                assert(roots[i] == roots[roots.len() - 1]);
            }
        }
        assert forall|q: Seq<Seq<u8>>| #[trigger]
            shorter.contains(q) implies r.table.roots.contains_key(q) by {
            assert(roots.contains(q));
        }
        lemma_vanished(r, shorter);
        let before = task::all_vanished(r, shorter);
        assert(before.table.roots.contains_key(last));
        assert(before.table.roots[last].state == r.table.roots[last].state);
        assert(Seq::<Seq<Seq<u8>>>::empty().push(last) =~= seq![last]);
        assert(after.reports == before.reports.push(
            removal_of(last, r.table.roots[last].state),
        ));
        assert(after.reports =~= r.reports + told);
    }
}

/// Once the way to roots is gone, every tracked root below that was there is reported removed, once
/// and in their order, as the folder or the file that it was, and is missing from then on. No other
/// root is, and what is below is let go.
pub proof fn cut_off_roots_are_reported(
    s: LoopView,
    paths: Seq<Seq<Seq<u8>>>,
    answer: AnswerView,
)
    requires
        s.table().roots.dom().finite(),
        paths.len() > 0,
    ensures
        ({
            let (r, request) = s.push(Task::VanishAll { paths }).step(answer);
            let roots = s.table().roots;
            &&& request == RequestView::Again
            &&& r.tasks == s.tasks.push(Task::VanishAll { paths: paths.drop_first() }).push(
                Task::Drop { path: paths[0], keep_root: true, without_os_call: false },
            )
            &&& exists|gone: Seq<Seq<Seq<u8>>>|
                {
                    &&& #[trigger] root::lists_tracked(roots, paths[0], false, gone)
                    &&& r.reading.reports == s.reading.reports + Seq::new(
                        gone.len(),
                        |i: int| removal_of(gone[i], roots[gone[i]].state),
                    )
                    &&& forall|q: Seq<Seq<u8>>| #[trigger]
                        r.table().roots.contains_key(q) ==> r.table().roots[q].mode
                            == roots[q].mode && r.table().roots[q].state == if gone.contains(q) {
                            RootState::Missing
                        } else {
                            roots[q].state
                        }
                }
            &&& forall|q: Seq<Seq<u8>>| #[trigger]
                r.table().roots.contains_key(q) <==> roots.contains_key(q)
            &&& r.table() == TableView { roots: r.table().roots, ..s.table() }
        }),
{
    reveal(LoopView::vanish_all);
    assert(s.push(Task::VanishAll { paths }).popped().tasks =~= s.tasks);
    let roots = s.table().roots;
    let gone = root::tracked_roots_below(roots, paths[0], false);
    root::tracked_below_are_listed(roots, paths[0], false);
    assert(root::lists_tracked(roots, paths[0], false, gone));
    lemma_vanished(s.reading, gone);
}

/// Once a directory on the way to roots is there again, every tracked root below that is missing is
/// armed, in their order, each as its mode asks.
pub proof fn missing_roots_are_armed(s: LoopView, paths: Seq<Seq<Seq<u8>>>, answer: AnswerView)
    requires
        s.table().roots.dom().finite(),
        paths.len() > 0,
    ensures
        ({
            let (r, request) = s.push(Task::RearmAll { paths }).step(answer);
            &&& request == RequestView::Again
            &&& r == LoopView { tasks: r.tasks, ..s }
            &&& exists|roots: Seq<Seq<Seq<u8>>>| #[trigger]
                root::lists_tracked(s.table().roots, paths[0], true, roots) && r.tasks
                    == s.tasks.push(Task::RearmAll { paths: paths.drop_first() }).push(
                    Task::RearmEach { roots },
                )
        }),
{
    reveal(LoopView::rearm_all);
    assert(s.push(Task::RearmAll { paths }).popped().tasks =~= s.tasks);
    let roots = root::tracked_roots_below(s.table().roots, paths[0], true);
    root::tracked_below_are_listed(s.table().roots, paths[0], true);
    assert(root::lists_tracked(s.table().roots, paths[0], true, roots));
}

/// Each root of a list is armed as its mode asks, and what becomes of it is dealt with before the
/// next. A root that is not watched any more is passed over.
pub proof fn next_root_is_armed(s: LoopView, roots: Seq<Seq<Seq<u8>>>, answer: AnswerView)
    requires
        roots.len() > 0,
    ensures
        ({
            let (r, request) = s.push(Task::RearmEach { roots }).step(answer);
            &&& request == RequestView::Again
            &&& r == LoopView { tasks: r.tasks, ..s }
            &&& r.tasks == if s.table().roots.contains_key(roots[0]) {
                s.tasks.push(
                    Task::RearmEnded { root: roots[0], roots: roots.drop_first() },
                ).push(
                    Task::Arm {
                        root: roots[0],
                        recursive: s.table().roots[roots[0]].mode.recursive_mode
                            == RecursiveMode::Recursive,
                    },
                )
            } else {
                s.tasks.push(Task::RearmEach { roots: roots.drop_first() })
            }
        }),
{
    reveal(LoopView::rearm_each);
    assert(s.push(Task::RearmEach { roots }).popped().tasks =~= s.tasks);
}

/// When the entity at a path went, a root there that does not track its path is forgotten with it,
/// and what is at and below the path is let go, with a call of the system or without.
pub proof fn gone_root_is_forgotten(
    s: LoopView,
    paths: Seq<Seq<Seq<u8>>>,
    without_os_call: bool,
    answer: AnswerView,
)
    requires
        paths.len() > 0,
    ensures
        ({
            let (r, request) = s.push(Task::DropAll { paths, without_os_call }).step(answer);
            let p = paths[0];
            &&& request == RequestView::Again
            &&& r.tasks == s.tasks.push(
                Task::DropAll { paths: paths.drop_first(), without_os_call },
            ).push(Task::Drop { path: p, keep_root: false, without_os_call })
            &&& r.table() == TableView { roots: r.table().roots, ..s.table() }
            &&& r.reading == ReadingView { table: r.table(), ..s.reading }
            &&& r.table().roots == if s.table().roots.contains_key(p)
                && s.table().roots[p].mode.target_mode == TargetMode::NoTrack {
                s.table().roots.remove(p)
            } else {
                s.table().roots
            }
        }),
{
    reveal(LoopView::drop_all);
    assert(s.push(Task::DropAll { paths, without_os_call }).popped().tasks =~= s.tasks);
}

/// A root below what went that does not track its path is dropped and reported removed where
/// nothing watches it any more: neither it nor the directory it is in has a handle. It is a file,
/// as a directory has a handle of its own. One that was missing is not reported.
pub proof fn unfollowed_root_is_reported(
    s: LoopView,
    p: Seq<Seq<u8>>,
    roots: Seq<Seq<Seq<u8>>>,
    answer: AnswerView,
)
    requires
        roots.len() > 0,
    ensures
        ({
            let (r, request) = s.push(Task::DropRoots { path: p, roots }).step(answer);
            let q = roots[0];
            let handles = s.table().handles;
            let is_lost = q != p && s.table().roots.contains_key(q) && !handles.contains_key(q)
                && !(q.len() > 0 && handles.contains_key(q.drop_last()) && (q.len() > 1 || q[0]
                != seq![47u8]));
            &&& request == RequestView::Again
            &&& r.tasks == s.tasks.push(Task::DropRoots { path: p, roots: roots.drop_first() })
            &&& r.table() == TableView { roots: r.table().roots, ..s.table() }
            &&& r.reading == ReadingView {
                table: r.table(),
                reports: r.reading.reports,
                ..s.reading
            }
            &&& is_lost ==> r.table().roots == s.table().roots.remove(q)
            &&& is_lost && s.table().roots[q].state != RootState::Missing ==> r.reading.reports
                == s.reading.reports.push(
                report::told(EventKind::Remove(RemoveKind::File), seq![q], None),
            )
            &&& is_lost && s.table().roots[q].state == RootState::Missing ==> r.reading.reports
                == s.reading.reports
            &&& !is_lost ==> r.reading == s.reading
        }),
{
    reveal(LoopView::drop_roots);
    assert(s.push(Task::DropRoots { path: p, roots }).popped().tasks =~= s.tasks);
    assert(Seq::<Seq<Seq<u8>>>::empty().push(roots[0]) =~= seq![roots[0]]);
    assert(path::root_dir() =~= seq![47u8]);
}

/// A full watch table is reported while the entries that appeared are watched, and stops those that
/// follow. Another error is passed over.
pub proof fn full_table_is_reported(
    s: LoopView,
    entries: Seq<Seq<AddView>>,
    answer: AnswerView,
)
    ensures
        ({
            let (r, request) = s.push(Task::AddAllEnded { entries }).step(answer);
            let is_full = s.outcome matches Outcome::Failed(error) && error.kind
                == ErrorKind::MaxFilesWatch;
            &&& request == RequestView::Again
            &&& is_full ==> r.tasks == s.tasks && r.outcome is Done && r.reading == ReadingView {
                reports: s.reading.reports.push(ReportView::Error(s.outcome->Failed_0)),
                ..s.reading
            }
            &&& !is_full ==> r.tasks == s.tasks.push(Task::AddAll { entries }) && r.reading
                == s.reading
        }),
{
    reveal(LoopView::add_all_ended);
    assert(s.push(Task::AddAllEnded { entries }).popped().tasks =~= s.tasks);
}

/// The error of a path that cannot be watched: that the system allows no more watches, that nothing
/// is there, or what the system said.
pub open spec fn refusal(errno: i32) -> ErrorKind {
    if errno == 28 {
        ErrorKind::MaxFilesWatch
    } else if errno == 2 {
        ErrorKind::PathNotFound
    } else {
        ErrorKind::Io(errno)
    }
}

/// What the system says to the add of a watch: the descriptor is recorded for the path, or the add
/// fails with an error that names the path. Where inotify is closed nothing happens.
pub proof fn answered_add_is_recorded_or_fails(
    s: LoopView,
    p: Seq<Seq<u8>>,
    m: u32,
    added: Option<Result<i32, i32>>,
)
    ensures
        ({
            let (r, request) = s.push(Task::Added { path: p, mask: m }).step(
                Answer::Added(added),
            );
            &&& request == RequestView::Again
            &&& r.reading == s.reading
            &&& match added {
                None => r.tasks == s.tasks && r.outcome is Done,
                Some(Ok(w)) => r.tasks == s.tasks.push(Task::Record { w, path: p, mask: m }),
                Some(Err(errno)) => r.tasks == s.tasks && r.outcome == Outcome::Failed(
                    ErrorView { kind: refusal(errno), paths: seq![p] },
                ),
            }
        }),
{
    reveal(LoopView::added);
    assert(s.push(Task::Added { path: p, mask: m }).popped().tasks =~= s.tasks);
}

/// The add of a watch asks the system for what the path asks for already and what is new, unless
/// the path asks for all of it already, or is a file without hard links in a directory that is
/// watched for everything.
pub proof fn add_asks_for_what_is_new(
    s: LoopView,
    p: Seq<Seq<u8>>,
    m: u32,
    is_file_without_hardlinks: bool,
    answer: AnswerView,
)
    ensures
        ({
            let (r, request) = s.push(
                Task::Add { path: p, mask: m, is_file_without_hardlinks },
            ).step(answer);
            let handles = s.table().handles;
            let has_all = handles.contains_key(p) && handles[p].mask & m == m;
            let full = CREATE | DELETE | MOVED_FROM | MOVED_TO | ATTRIB | OPEN | CLOSE_WRITE
                | MODIFY;
            let is_seen = is_file_without_hardlinks && p.len() > 0 && (p.len() > 1 || p[0]
                != seq![47u8]) && handles.contains_key(p.drop_last())
                && handles[p.drop_last()].mask & full == full;
            let all = if handles.contains_key(p) {
                handles[p].mask | m
            } else {
                m
            };
            &&& r.reading == s.reading
            &&& has_all || is_seen ==> request == RequestView::Again && r.tasks == s.tasks
                && r.outcome is Done
            &&& !has_all && !is_seen ==> request == RequestView::Add(p, all | 0x20000000)
                && r.tasks == s.tasks.push(Task::Added { path: p, mask: all })
        }),
{
    reveal(LoopView::add);
    assert(s.push(Task::Add { path: p, mask: m, is_file_without_hardlinks }).popped().tasks
        =~= s.tasks);
    assert(path::root_dir() =~= seq![47u8]);
    mask::lemma_full();
}

/// Whether the error number says that nothing is there: no such entry, or no such directory.
pub open spec fn says_absent(errno: i32) -> bool {
    errno == 2 || errno == 20
}

/// What a path that is there is.
pub open spec fn found(stat: FileStat) -> RootState {
    if stat.is_dir {
        RootState::Directory
    } else {
        RootState::File
    }
}

/// The task that watches a path that is there: with all directories below it, or it alone, for
/// everything, and with `watch_self` for what becomes of itself.
pub open spec fn watching(
    p: Seq<Seq<u8>>,
    stat: FileStat,
    recursive: bool,
    watch_self: bool,
) -> task::TaskView {
    let full = CREATE | DELETE | MOVED_FROM | MOVED_TO | ATTRIB | OPEN | CLOSE_WRITE | MODIFY;
    if recursive && stat.is_dir {
        Task::Walk { path: p, watch_self }
    } else {
        Task::Add {
            path: p,
            mask: if watch_self {
                full | (DELETE_SELF | MOVE_SELF)
            } else {
                full
            },
            is_file_without_hardlinks: stat.is_file && stat.nlink == 1,
        }
    }
}

/// The look at a root that is armed: a root that is there is watched and recorded as what it is,
/// one that is not is missing, and another error of the look fails the arm.
pub proof fn looked_at_root_is_armed(
    s: LoopView,
    root: Seq<Seq<u8>>,
    recursive: bool,
    stat: Result<FileStat, i32>,
)
    ensures
        ({
            let (r, request) = s.push(Task::ArmLooked { root, recursive }).step(
                Answer::Stat(stat),
            );
            &&& request == RequestView::Again
            &&& r.reading == s.reading
            &&& match stat {
                Ok(stat) => r.tasks == s.tasks.push(Task::ArmAdded { state: found(stat) }).push(
                    watching(root, stat, recursive, false),
                ),
                Err(errno) => r.tasks == s.tasks && r.outcome == if says_absent(errno) {
                    Outcome::Armed(RootState::Missing)
                } else {
                    Outcome::Failed(ErrorView { kind: ErrorKind::Io(errno), paths: seq![root] })
                },
            }
        }),
{
    reveal(LoopView::arm_looked);
    assert(s.push(Task::ArmLooked { root, recursive }).popped().tasks =~= s.tasks);
    mask::lemma_full();
}

/// The look at an ancestor of a root: a directory is watched for its entries, and the parent of the
/// root for everything. Where no directory is there the root is out of reach, and another error of
/// the look fails.
pub proof fn looked_at_ancestor_is_watched(
    s: LoopView,
    root: Seq<Seq<u8>>,
    n: usize,
    stat: Result<FileStat, i32>,
)
    requires
        n < root.len(),
    ensures
        ({
            let (r, request) = s.push(Task::ChainLooked { root, n }).step(Answer::Stat(stat));
            let ancestor = root.take(n as int);
            let entries = CREATE | DELETE | MOVED_FROM | MOVED_TO;
            &&& request == RequestView::Again
            &&& r.reading == s.reading
            &&& match stat {
                Ok(stat) => if stat.is_dir {
                    r.tasks == s.tasks.push(Task::ChainAdded { root, n }).push(
                        Task::Add {
                            path: ancestor,
                            mask: if n + 1 == root.len() {
                                entries | ATTRIB | OPEN | CLOSE_WRITE | MODIFY
                            } else {
                                entries
                            },
                            is_file_without_hardlinks: false,
                        },
                    )
                } else {
                    r.tasks == s.tasks && r.outcome == Outcome::<ErrorView>::Reached(false)
                },
                Err(errno) => r.tasks == s.tasks && r.outcome == if says_absent(errno) {
                    Outcome::Reached(false)
                } else {
                    Outcome::Failed(
                        ErrorView { kind: ErrorKind::Io(errno), paths: seq![ancestor] },
                    )
                },
            }
        }),
{
    reveal(LoopView::chain_looked);
    assert(s.push(Task::ChainLooked { root, n }).popped().tasks =~= s.tasks);
    mask::lemma_full();
}

/// The way to a root is watched from the top down. Only the parent has to be watched: an ancestor
/// further up that cannot be is passed over.
pub proof fn way_to_root_is_followed(
    s: LoopView,
    root: Seq<Seq<u8>>,
    n: usize,
    answer: AnswerView,
)
    requires
        n < root.len(),
    ensures
        s.push(Task::Chain { root, n }).step(answer) == (
            LoopView { tasks: s.tasks.push(Task::ChainLooked { root, n }), ..s },
            RequestView::Stat(root.take(n as int)),
        ),
        ({
            let (r, request) = s.push(Task::ChainAdded { root, n }).step(answer);
            &&& request == RequestView::Again
            &&& r.reading == s.reading
            &&& if s.outcome is Failed && n + 1 == root.len() {
                r.tasks == s.tasks && r.outcome == s.outcome
            } else {
                r.tasks == s.tasks.push(Task::Chain { root, n: (n + 1) as usize })
            }
        }),
{
    reveal(LoopView::chain);
    reveal(LoopView::chain_added);
    assert(s.push(Task::Chain { root, n }).popped().tasks =~= s.tasks);
    assert(s.push(Task::ChainAdded { root, n }).popped().tasks =~= s.tasks);
}

/// The look at a path that the user watches without tracking it: what is there is watched, with
/// what becomes of it. Where nothing is there the watch fails, as it does with another error.
pub proof fn looked_at_path_is_watched(
    s: LoopView,
    p: Seq<Seq<u8>>,
    mode: WatchMode,
    stat: Result<FileStat, i32>,
)
    ensures
        ({
            let (r, request) = s.push(Task::AddRootLooked { path: p, mode }).step(
                Answer::Stat(stat),
            );
            &&& request == RequestView::Again
            &&& r.reading == s.reading
            &&& match stat {
                Ok(stat) => r.tasks == s.tasks.push(
                    Task::AddRootAdded { path: p, mode, state: found(stat) },
                ).push(
                    watching(p, stat, mode.recursive_mode == RecursiveMode::Recursive, true),
                ),
                Err(errno) => r.tasks == s.tasks && r.outcome == Outcome::Failed(
                    ErrorView {
                        kind: if errno == 2 {
                            ErrorKind::PathNotFound
                        } else {
                            ErrorKind::Io(errno)
                        },
                        paths: seq![],
                    },
                ),
            }
        }),
{
    reveal(LoopView::add_root_looked);
    assert(s.push(Task::AddRootLooked { path: p, mode }).popped().tasks =~= s.tasks);
    assert(Seq::<Seq<Seq<u8>>>::empty() =~= seq![]);
    mask::lemma_full();
}

/// Whether `q` is an ancestor of `p` whose handle may go once `p` is not tracked: the parent, or
/// one that is not on the way to a tracked root.
pub open spec fn is_off_the_way(
    roots: Map<Seq<Seq<u8>>, RootWatch>,
    p: Seq<Seq<u8>>,
    q: Seq<Seq<u8>>,
) -> bool {
    &&& q.len() < p.len() && p.take(q.len() as int) == q
    &&& q.len() > 0 || p[0] != seq![47u8]
    &&& q.len() + 1 == p.len() || !root::is_on_the_way(roots, q)
}

/// Whether the handles on the way to `p` that only it needed are let go, and the error is handed
/// on then.
pub open spec fn is_released(s: LoopView, r: LoopView, p: Seq<Seq<u8>>, error: ErrorView) -> bool {
    exists|paths: Seq<Seq<Seq<u8>>>|
        {
            &&& r.tasks == s.tasks.push(Task::Fail { error }).push(
                #[trigger] releasing(paths),
            )
            &&& forall|q: Seq<Seq<u8>>| #[trigger]
                paths.contains(q) <==> is_off_the_way(s.table().roots, p, q)
        }
}

pub open spec fn releasing(paths: Seq<Seq<Seq<u8>>>) -> task::TaskView {
    Task::Each { deed: Deed::Release, paths }
}

proof fn lemma_untracked(table: TableView, p: Seq<Seq<u8>>, n: int)
    requires
        0 <= n,
    ensures
        forall|q: Seq<Seq<u8>>| #[trigger]
            task::untracked(table, p, n).contains(q) <==> {
                &&& n <= q.len() < p.len() && p.take(q.len() as int) == q
                &&& q.len() + 1 == p.len() || !root::is_on_the_way(table.roots, q)
            },
    decreases p.len() - n,
{
    let list = task::untracked(table, p, n);
    if n < p.len() {
        let nearer = task::untracked(table, p, n + 1);
        let here = p.take(n);
        lemma_untracked(table, p, n + 1);
        root::watched_is_reached(table.roots, here);
        assert forall|q: Seq<Seq<u8>>| #[trigger]
            list.contains(q) <==> {
                &&& n <= q.len() < p.len() && p.take(q.len() as int) == q
                &&& q.len() + 1 == p.len() || !root::is_on_the_way(table.roots, q)
            } by {
            assert(here.len() == n);
            if n + 1 == p.len() || !table.leads_to_root(here) {
                assert(list == nearer.push(here));
                assert(list.contains(q) <==> nearer.contains(q) || q == here) by {
                    if list.contains(q) {
                        let i = list.index_of(q);
                        if i < nearer.len() {
                            assert(nearer[i] == q);
                        }
                    }
                    if nearer.contains(q) {
                        assert(list[nearer.index_of(q)] == q);
                    }
                    assert(list[nearer.len() as int] == here);
                }
            }
            assert(nearer.contains(q) ==> q.len() > n);
        }
    }
}

/// What may go once `p` is not tracked.
proof fn lemma_off_the_way(table: TableView, p: Seq<Seq<u8>>)
    ensures
        forall|q: Seq<Seq<u8>>| #[trigger]
            task::untracked(table, p, path::floor(p)).contains(q) <==> is_off_the_way(
                table.roots,
                p,
                q,
            ),
{
    lemma_untracked(table, p, path::floor(p));
    assert(path::root_dir() =~= seq![47u8]);
    let list = task::untracked(table, p, path::floor(p));
    assert forall|q: Seq<Seq<u8>>| #[trigger] list.contains(q) <==> is_off_the_way(
        table.roots,
        p,
        q,
    ) by {}
}

/// A path that the user watches is recorded in the mode asked for and as what it was found to be,
/// once its watch is set up; where that failed it is not recorded.
pub proof fn watched_path_is_recorded(
    s: LoopView,
    p: Seq<Seq<u8>>,
    mode: WatchMode,
    state: RootState,
    answer: AnswerView,
)
    ensures
        ({
            let (r, request) = s.push(Task::AddRootAdded { path: p, mode, state }).step(answer);
            &&& request == RequestView::Again
            &&& r.tasks == s.tasks
            &&& if s.outcome is Failed {
                r.outcome == s.outcome && r.reading == s.reading
            } else {
                r.outcome is Done && r.reading == ReadingView {
                    table: TableView {
                        roots: s.table().roots.insert(p, RootWatch { mode, state }),
                        ..s.table()
                    },
                    ..s.reading
                }
            }
        }),
        ({
            let (r, request) = s.push(Task::AddRootArmed { path: p, mode }).step(answer);
            &&& request == RequestView::Again
            &&& match s.outcome {
                Outcome::Failed(error) => r.reading == s.reading && is_released(s, r, p, error),
                Outcome::Armed(state) => r.tasks == s.tasks && r.outcome is Done && r.reading
                    == ReadingView {
                    table: TableView {
                        roots: s.table().roots.insert(p, RootWatch { mode, state }),
                        ..s.table()
                    },
                    ..s.reading
                },
                _ => true,
            }
        }),
{
    reveal(LoopView::add_root_added);
    reveal(LoopView::add_root_armed);
    assert(s.push(Task::AddRootAdded { path: p, mode, state }).popped().tasks =~= s.tasks);
    assert(s.push(Task::AddRootArmed { path: p, mode }).popped().tasks =~= s.tasks);
    let paths = task::untracked(s.table(), p, path::floor(p));
    lemma_off_the_way(s.table(), p);
    assert(releasing(paths) matches Task::Each { deed: Deed::Release, .. });
}

/// What is asked when the user watches a path: a path that is not watched is armed if it is to be
/// tracked, else looked at; one that is watched gets what its mode lacks.
pub proof fn watch_is_begun(s: LoopView, p: Seq<Seq<u8>>, mode: WatchMode, answer: AnswerView)
    ensures
        ({
            let (r, request) = s.push(Task::AddRoot { path: p, mode }).step(answer);
            let tracks = mode.target_mode == TargetMode::TrackPath;
            let recursive = mode.recursive_mode == RecursiveMode::Recursive;
            &&& r == LoopView { tasks: r.tasks, ..s }
            &&& if s.table().roots.contains_key(p) {
                let existing = s.table().roots[p];
                let track = tracks && existing.mode.target_mode == TargetMode::NoTrack;
                &&& request == RequestView::Again
                &&& r.tasks == s.tasks.push(Task::UpgradeEnded { path: p, mode, track }).push(
                    Task::Upgrade {
                        path: p,
                        track,
                        recurse: recursive && existing.mode.recursive_mode
                            == RecursiveMode::NonRecursive && existing.state != RootState::Missing,
                    },
                )
            } else if tracks {
                request == RequestView::Again && r.tasks == s.tasks.push(
                    Task::AddRootArmed { path: p, mode },
                ).push(Task::Arm { root: p, recursive })
            } else {
                request == RequestView::Stat(p) && r.tasks == s.tasks.push(
                    Task::AddRootLooked { path: p, mode },
                )
            }
        }),
{
    reveal(LoopView::add_root);
    assert(s.push(Task::AddRoot { path: p, mode }).popped().tasks =~= s.tasks);
}

/// A path that is watched again gets the mode that watches what either mode watches, and is armed
/// where it is tracked and missing. Where what it lacked could not be set up its mode stays.
pub proof fn mode_is_widened(
    s: LoopView,
    p: Seq<Seq<u8>>,
    mode: WatchMode,
    track: bool,
    answer: AnswerView,
)
    requires
        s.table().roots.contains_key(p),
    ensures
        ({
            let (r, request) = s.push(Task::UpgradeEnded { path: p, mode, track }).step(answer);
            let root = s.table().roots[p];
            let recursive = root.mode.recursive_mode == RecursiveMode::Recursive
                || mode.recursive_mode == RecursiveMode::Recursive;
            let tracks = root.mode.target_mode == TargetMode::TrackPath || mode.target_mode
                == TargetMode::TrackPath;
            let both = RootWatch {
                mode: WatchMode {
                    recursive_mode: if recursive {
                        RecursiveMode::Recursive
                    } else {
                        RecursiveMode::NonRecursive
                    },
                    target_mode: if tracks {
                        TargetMode::TrackPath
                    } else {
                        TargetMode::NoTrack
                    },
                },
                state: root.state,
            };
            &&& request == RequestView::Again
            &&& s.outcome matches Outcome::Failed(error) ==> r.reading == s.reading && if track {
                is_released(s, r, p, error)
            } else {
                r.tasks == s.tasks && r.outcome == s.outcome
            }
            &&& !(s.outcome is Failed) ==> {
                &&& r.reading == ReadingView {
                    table: TableView { roots: s.table().roots.insert(p, both), ..s.table() },
                    ..s.reading
                }
                &&& if tracks && root.state == RootState::Missing {
                    r.tasks == s.tasks.push(Task::UpgradeArmed { path: p }).push(
                        Task::Arm { root: p, recursive },
                    )
                } else {
                    r.tasks == s.tasks && r.outcome is Done
                }
            }
        }),
{
    reveal(LoopView::upgrade_ended);
    assert(s.push(Task::UpgradeEnded { path: p, mode, track }).popped().tasks =~= s.tasks);
    let paths = task::untracked(s.table(), p, path::floor(p));
    lemma_off_the_way(s.table(), p);
    assert(releasing(paths) matches Task::Each { deed: Deed::Release, .. });
}

/// The directories of a walk are watched for everything, the first with `watch_self` for what
/// becomes of itself too. The walk goes on to the next directory once one is watched, and stops
/// where one cannot be.
pub proof fn walked_directories_are_watched(
    s: LoopView,
    p: Seq<Seq<u8>>,
    watch_self: bool,
    dirs: Seq<Seq<Seq<u8>>>,
    next: Option<Seq<Seq<u8>>>,
    answer: AnswerView,
)
    ensures
        s.push(Task::Walk { path: p, watch_self }).step(answer) == (
            LoopView { tasks: s.tasks.push(Task::WalkFound { watch_self, dirs: seq![] }), ..s },
            RequestView::Walk(p),
        ),
        ({
            let (r, request) = s.push(Task::WalkFound { watch_self, dirs }).step(
                Answer::Entry(next),
            );
            let full = CREATE | DELETE | MOVED_FROM | MOVED_TO | ATTRIB | OPEN | CLOSE_WRITE
                | MODIFY;
            &&& request == RequestView::Again
            &&& r.reading == s.reading
            &&& match next {
                Some(dir) => r.tasks == s.tasks.push(Task::WalkAdded { dir, dirs }).push(
                    Task::Add {
                        path: dir,
                        mask: if watch_self {
                            full | (DELETE_SELF | MOVE_SELF)
                        } else {
                            full
                        },
                        is_file_without_hardlinks: false,
                    },
                ),
                None => r.tasks == s.tasks && r.outcome is Done && r.walked == dirs,
            }
        }),
        ({
            let (r, request) = s.push(Task::WalkAdded { dir: p, dirs }).step(answer);
            &&& r.reading == s.reading
            &&& if s.outcome is Failed {
                request == RequestView::Again && r.tasks == s.tasks && r.outcome == s.outcome
                    && r.walked == dirs
            } else {
                request == RequestView::Next && r.tasks == s.tasks.push(
                    Task::WalkFound { watch_self: false, dirs: dirs.push(p) },
                )
            }
        }),
{
    reveal(LoopView::walk);
    reveal(LoopView::walk_found);
    reveal(LoopView::walk_added);
    assert(s.push(Task::Walk { path: p, watch_self }).popped().tasks =~= s.tasks);
    assert(s.push(Task::WalkFound { watch_self, dirs }).popped().tasks =~= s.tasks);
    assert(s.push(Task::WalkAdded { dir: p, dirs }).popped().tasks =~= s.tasks);
    assert(Seq::<Seq<Seq<u8>>>::empty() =~= seq![]);
    mask::lemma_full();
}

/// Whether `bit`, one of those that an event can have, is among what the paths of `w` ask for.
pub open spec fn is_asked(table: TableView, w: i32, bit: u32) -> bool {
    table.bound.contains_key(w) && exists|i: int|
        0 <= i < table.bound[w].spellings.len() && table.handles[#[trigger] table.bound[w]
            .spellings[i]].mask & bit == bit
}

proof fn lemma_asked(
    handles: Map<Seq<Seq<u8>>, Handle>,
    spellings: Seq<Seq<Seq<u8>>>,
    bit: u32,
)
    requires
        event_laws::is_single(bit),
    ensures
        table::asked_by(handles, spellings) & bit == bit <==> exists|i: int|
            0 <= i < spellings.len() && handles[#[trigger] spellings[i]].mask & bit == bit,
    decreases spellings.len(),
{
    if spellings.len() == 0 {
        assert(0u32 & bit != bit) by {
            assert((bit == MOVED_FROM || bit == MOVED_TO || bit == MOVE_SELF || bit == CREATE || bit
                == DELETE || bit == DELETE_SELF || bit == mask::UNMOUNT || bit == MODIFY || bit
                == CLOSE_WRITE || bit == mask::CLOSE_NOWRITE || bit == ATTRIB || bit == OPEN)
                ==> 0u32 & bit != bit) by (bit_vector);
        }
    } else {
        let shorter = spellings.drop_last();
        let before = table::asked_by(handles, shorter);
        let last = handles[spellings.last()].mask;
        lemma_asked(handles, shorter, bit);
        assert((before | last) & bit == bit <==> before & bit == bit || last & bit == bit) by {
            assert((bit == MOVED_FROM || bit == MOVED_TO || bit == MOVE_SELF || bit == CREATE || bit
                == DELETE || bit == DELETE_SELF || bit == mask::UNMOUNT || bit == MODIFY || bit
                == CLOSE_WRITE || bit == mask::CLOSE_NOWRITE || bit == ATTRIB || bit == OPEN)
                ==> (((before | last) & bit == bit) == (before & bit == bit || last & bit == bit)))
                by (bit_vector);
        }
        assert(spellings[spellings.len() - 1] == spellings.last());
        if exists|i: int|
            0 <= i < shorter.len() && handles[#[trigger] shorter[i]].mask & bit == bit {
            let i = choose|i: int|
                0 <= i < shorter.len() && handles[#[trigger] shorter[i]].mask & bit == bit;
            assert(handles[spellings[i]].mask & bit == bit);
        }
        if exists|i: int|
            0 <= i < spellings.len() && handles[#[trigger] spellings[i]].mask & bit == bit {
            let i = choose|i: int|
                0 <= i < spellings.len() && handles[#[trigger] spellings[i]].mask & bit == bit;
            if i < shorter.len() {
                assert(handles[shorter[i]].mask & bit == bit);
            }
        }
    }
}

/// The kernel is to watch the inode of a descriptor for exactly what one of its paths asks for.
pub proof fn kernel_watches_what_is_asked(table: TableView, w: i32, bit: u32)
    requires
        event_laws::is_single(bit),
    ensures
        table.kernel_mask(w) & bit == bit <==> is_asked(table, w, bit),
{
    lemma_asked(table.handles, table.spellings(w), bit);
}

/// The kernel is told anew what to watch an inode for once its paths ask for something else: its
/// watch is removed if no path is left, and set through the first of its paths that still leads to
/// the inode otherwise.
pub proof fn kernel_is_told_what_is_asked(
    s: LoopView,
    w: i32,
    before: u32,
    m: u32,
    rest: Seq<Seq<Seq<u8>>>,
    stat: Result<FileStat, i32>,
)
    ensures
        ({
            let (r, request) = s.push(Task::Sync { w, before }).step(Answer::Stat(stat));
            let paths = if s.table().bound.contains_key(w) {
                s.table().bound[w].spellings
            } else {
                seq![]
            };
            let now = s.table().kernel_mask(w);
            &&& r.reading == s.reading
            &&& if paths.len() == 0 {
                request == RequestView::Remove(w) && r.tasks == s.tasks.push(Task::Heedless)
            } else if now == before {
                request == RequestView::Again && r.tasks == s.tasks && r.outcome is Done
            } else {
                request == RequestView::Again && r.tasks == s.tasks.push(
                    Task::SyncThrough { w, mask: now, rest: paths },
                )
            }
        }),
        ({
            let (r, request) = s.push(Task::SyncThrough { w, mask: m, rest }).step(
                Answer::Stat(stat),
            );
            &&& r.reading == s.reading
            &&& if rest.len() == 0 {
                request == RequestView::Again && r.tasks == s.tasks && r.outcome is Done
            } else {
                request == RequestView::Stat(rest[0]) && r.tasks == s.tasks.push(
                    Task::SyncLooked { w, mask: m, rest },
                )
            }
        }),
        rest.len() > 0 && s.table().bound.contains_key(w) ==> ({
            let (r, request) = s.push(Task::SyncLooked { w, mask: m, rest }).step(
                Answer::Stat(stat),
            );
            let leads = stat matches Ok(stat) && stat.inode == s.table().bound[w].inode;
            &&& r.reading == s.reading
            &&& if leads {
                request == RequestView::Add(rest[0], m) && r.tasks == s.tasks.push(
                    Task::SyncAdded { w, mask: m, rest },
                )
            } else {
                request == RequestView::Again && r.tasks == s.tasks.push(
                    Task::SyncThrough { w, mask: m, rest: rest.drop_first() },
                )
            }
        }),
{
    reveal(LoopView::sync);
    reveal(LoopView::sync_through);
    reveal(LoopView::sync_looked);
    assert(s.push(Task::Sync { w, before }).popped().tasks =~= s.tasks);
    assert(s.push(Task::SyncThrough { w, mask: m, rest }).popped().tasks =~= s.tasks);
    assert(s.push(Task::SyncLooked { w, mask: m, rest }).popped().tasks =~= s.tasks);
    assert(Seq::<Seq<Seq<u8>>>::empty() =~= seq![]);
}

/// Where the path led to another inode after all when the kernel was told what to watch, that inode
/// is watched as before: for what its own paths ask for, or not at all. The next path is tried
/// then, as it is where the kernel refused.
pub proof fn other_inode_is_watched_as_before(
    s: LoopView,
    w: i32,
    m: u32,
    rest: Seq<Seq<Seq<u8>>>,
    added: Option<Result<i32, i32>>,
)
    requires
        rest.len() > 0,
    ensures
        ({
            let (r, request) = s.push(Task::SyncAdded { w, mask: m, rest }).step(
                Answer::Added(added),
            );
            let next = s.tasks.push(Task::SyncThrough { w, mask: m, rest: rest.drop_first() });
            &&& r.reading == s.reading
            &&& match added {
                None => request == RequestView::Again && r.tasks == s.tasks && r.outcome is Done,
                Some(Err(_)) => request == RequestView::Again && r.tasks == next,
                Some(Ok(other)) => if other == w {
                    request == RequestView::Again && r.tasks == s.tasks && r.outcome is Done
                } else {
                    &&& r.tasks == next.push(Task::Heedless)
                    &&& request == if s.table().bound.contains_key(other) {
                        RequestView::Add(rest[0], s.table().kernel_mask(other))
                    } else {
                        RequestView::Remove(other)
                    }
                },
            }
        }),
{
    reveal(LoopView::sync_added);
    assert(s.push(Task::SyncAdded { w, mask: m, rest }).popped().tasks =~= s.tasks);
}

/// From `a` to `b` the path `p`, which had no handle, got one of the descriptor `w`: it is the last
/// of the paths that have the descriptor. The inode is that of the descriptor if it is known.
pub open spec fn is_bound(
    a: TableView,
    b: TableView,
    w: i32,
    p: Seq<Seq<u8>>,
    m: u32,
    is_dir: bool,
    inode: Inode,
) -> bool {
    &&& b.roots == a.roots
    &&& b.handles == a.handles.insert(p, Handle { w, mask: m, is_dir })
    &&& b.bound == a.bound.insert(
        w,
        if a.bound.contains_key(w) {
            BoundView { spellings: a.bound[w].spellings.push(p), inode: a.bound[w].inode }
        } else {
            BoundView { spellings: seq![p], inode }
        },
    )
    &&& b.armed == match a.armed {
        Some(armed) => Some(armed.push(p)),
        None => None,
    }
}

/// The paths of `list` other than `p`.
pub open spec fn others(list: Seq<Seq<Seq<u8>>>, p: Seq<Seq<u8>>) -> Seq<Seq<Seq<u8>>> {
    list.filter(|q: Seq<Seq<u8>>| q != p)
}

/// From `a` to `b` the handle of `p` went. The descriptor went with it if it has no other path.
pub open spec fn is_unbound(a: TableView, b: TableView, p: Seq<Seq<u8>>) -> bool {
    let w = a.handles[p].w;
    let left = others(a.bound[w].spellings, p);
    &&& b.roots == a.roots
    &&& b.armed == a.armed
    &&& b.handles == a.handles.remove(p)
    &&& b.bound == if left.len() == 0 {
        a.bound.remove(w)
    } else {
        a.bound.insert(w, BoundView { spellings: left, inode: a.bound[w].inode })
    }
}

proof fn lemma_without(list: Seq<Seq<Seq<u8>>>, p: Seq<Seq<u8>>)
    ensures
        table::without(list, p) == others(list, p),
    decreases list.len(),
{
    reveal(Seq::filter);
    if list.len() > 0 {
        lemma_without(list.drop_last(), p);
    }
}

proof fn lemma_bind(
    a: TableView,
    w: i32,
    p: Seq<Seq<u8>>,
    m: u32,
    is_dir: bool,
    inode: Inode,
)
    ensures
        is_bound(a, a.bind(w, p, m, is_dir, inode), w, p, m, is_dir, inode),
        a.handles.contains_key(p) && a.bound.contains_key(a.handles[p].w) ==> is_unbound(
            a,
            a.unbind(p),
            p,
        ),
{
    assert(Seq::<Seq<Seq<u8>>>::empty().push(p) =~= seq![p]);
    lemma_without(a.spellings(a.handles[p].w), p);
}

/// The descriptor that inotify returned for a path is recorded: where the path has it already its
/// mask changes, where another path has it the path gets it with what that path is, and else the
/// path is looked at first. A handle of another descriptor that the path had is stale: it goes, and
/// the kernel is told what is left of what its inode is watched for.
pub proof fn descriptor_is_recorded(
    s: LoopView,
    w: i32,
    p: Seq<Seq<u8>>,
    m: u32,
    answer: AnswerView,
)
    requires
        s.table().consistent(),
    ensures
        ({
            let (r, request) = s.push(Task::Record { w, path: p, mask: m }).step(answer);
            let t = s.table();
            let had = t.handles.contains_key(p);
            if had && t.handles[p].w == w {
                &&& request == RequestView::Again && r.tasks == s.tasks && r.outcome is Done
                &&& r.table() == TableView {
                    handles: t.handles.insert(
                        p,
                        Handle { w, mask: m, is_dir: t.handles[p].is_dir },
                    ),
                    ..t
                }
            } else if t.bound.contains_key(w) {
                request == RequestView::Again && is_recorded(
                    s,
                    r,
                    w,
                    p,
                    m,
                    t.handles[t.bound[w].spellings[0]].is_dir,
                    t.bound[w].inode,
                )
            } else {
                request == RequestView::Stat(p) && r.table() == t && r.tasks == s.tasks.push(
                    Task::RecordLooked { w, path: p, mask: m },
                )
            }
        }),
{
    reveal(LoopView::record);
    assert(s.push(Task::Record { w, path: p, mask: m }).popped().tasks =~= s.tasks);
    if s.table().bound.contains_key(w) {
        lemma_recorded(
            s,
            w,
            p,
            m,
            s.table().handles[s.table().bound[w].spellings[0]].is_dir,
            s.table().bound[w].inode,
        );
    }
}

/// From `s` to `r` the path `p` got a handle of `w`, and lost a stale one of another descriptor.
pub open spec fn is_recorded(
    s: LoopView,
    r: LoopView,
    w: i32,
    p: Seq<Seq<u8>>,
    m: u32,
    is_dir: bool,
    inode: Inode,
) -> bool {
    let t = s.table();
    if t.handles.contains_key(p) {
        &&& exists|between: TableView| #[trigger]
            is_unbound(t, between, p) && is_bound(between, r.table(), w, p, m, is_dir, inode)
        &&& r.tasks == s.tasks.push(
            Task::Sync { w: t.handles[p].w, before: t.kernel_mask(t.handles[p].w) },
        )
    } else {
        is_bound(t, r.table(), w, p, m, is_dir, inode) && r.tasks == s.tasks && r.outcome is Done
    }
}

proof fn lemma_recorded(
    s: LoopView,
    w: i32,
    p: Seq<Seq<u8>>,
    m: u32,
    is_dir: bool,
    inode: Inode,
)
    requires
        s.table().consistent(),
    ensures
        is_recorded(s, s.bound_to(w, p, m, is_dir, inode).0, w, p, m, is_dir, inode),
        s.bound_to(w, p, m, is_dir, inode).1 == RequestView::Again,
{
    reveal(LoopView::bound_to);
    let t = s.table();
    lemma_bind(t, w, p, m, is_dir, inode);
    lemma_bind(t.unbind(p), w, p, m, is_dir, inode);
    if t.handles.contains_key(p) {
        assert(is_unbound(t, t.unbind(p), p));
    }
}

/// A path that gets a descriptor which no path has is looked at: the handle says whether it is a
/// directory, and the descriptor is of its inode. Where the look fails the watch is removed, and
/// the add fails with an error that names the path.
pub proof fn new_descriptor_is_recorded(
    s: LoopView,
    w: i32,
    p: Seq<Seq<u8>>,
    m: u32,
    stat: Result<FileStat, i32>,
)
    requires
        s.table().consistent(),
    ensures
        ({
            let (r, request) = s.push(Task::RecordLooked { w, path: p, mask: m }).step(
                Answer::Stat(stat),
            );
            match stat {
                Ok(stat) => request == RequestView::Again && is_recorded(
                    s,
                    r,
                    w,
                    p,
                    m,
                    stat.is_dir,
                    stat.inode,
                ),
                Err(errno) => request == RequestView::Remove(w) && r.reading == s.reading && r.tasks
                    == s.tasks.push(
                    Task::Fail { error: ErrorView { kind: ErrorKind::Io(errno), paths: seq![p] } },
                ).push(Task::Heedless),
            }
        }),
{
    reveal(LoopView::record_looked);
    assert(s.push(Task::RecordLooked { w, path: p, mask: m }).popped().tasks =~= s.tasks);
    if let Ok(stat) = stat {
        lemma_recorded(s, w, p, m, stat.is_dir, stat.inode);
    }
}

/// A handle that is removed is forgotten, and the kernel is told what is left of what its inode is
/// watched for. One that is only forgotten asks for nothing.
pub proof fn handle_is_removed(s: LoopView, p: Seq<Seq<u8>>, answer: AnswerView)
    requires
        s.table().consistent(),
    ensures
        ({
            let (r, request) = s.push(Task::RemoveHandle { path: p }).step(answer);
            let t = s.table();
            &&& request == RequestView::Again
            &&& r.reading == ReadingView { table: r.table(), ..s.reading }
            &&& if t.handles.contains_key(p) {
                is_unbound(t, r.table(), p) && r.tasks == s.tasks.push(
                    Task::Sync { w: t.handles[p].w, before: t.kernel_mask(t.handles[p].w) },
                )
            } else {
                r.table() == t && r.tasks == s.tasks && r.outcome is Done
            }
        }),
{
    reveal(LoopView::remove_handle);
    assert(s.push(Task::RemoveHandle { path: p }).popped().tasks =~= s.tasks);
    lemma_bind(s.table(), 0, p, 0, false, s.table().bound[0].inode);
}

/// A handle that is released stays as it is at a root, below a recursive one, and where it reports
/// a root that lies in it and has no handle. On the way to tracked roots it stays for its entries,
/// and for everything if a root lies in it. Else it is removed.
pub proof fn handle_is_released(s: LoopView, p: Seq<Seq<u8>>, answer: AnswerView)
    ensures
        ({
            let (r, request) = s.push(Task::Release { path: p }).step(answer);
            let t = s.table();
            let lies_in = |q: Seq<Seq<u8>>|
                q.len() == p.len() + 1 && q.drop_last() == p && (p.len() > 0 || q[0] != seq![47u8]);
            let has_root = exists|q: Seq<Seq<u8>>| #[trigger] t.roots.contains_key(q) && lies_in(q);
            let reports_root = exists|q: Seq<Seq<u8>>| #[trigger]
                t.roots.contains_key(q) && lies_in(q) && !t.handles.contains_key(q);
            let is_below = exists|q: Seq<Seq<u8>>| #[trigger]
                t.roots.contains_key(q) && q != p && t.roots[q].mode.recursive_mode
                    == RecursiveMode::Recursive && root::reaches(q, t.roots[q].mode, p);
            let entries = CREATE | DELETE | MOVED_FROM | MOVED_TO;
            &&& request == RequestView::Again
            &&& r.reading == s.reading
            &&& r.tasks == if !t.handles.contains_key(p) || t.roots.contains_key(p) || is_below
                || reports_root {
                s.tasks
            } else if root::is_on_the_way(t.roots, p) {
                s.tasks.push(
                    Task::SetMask {
                        path: p,
                        mask: if has_root {
                            entries | ATTRIB | OPEN | CLOSE_WRITE | MODIFY
                        } else {
                            entries
                        },
                    },
                )
            } else {
                s.tasks.push(Task::RemoveHandle { path: p })
            }
        }),
{
    reveal(LoopView::release);
    assert(s.push(Task::Release { path: p }).popped().tasks =~= s.tasks);
    let t = s.table();
    root::watched_is_reached(t.roots, p);
    assert(path::root_dir() =~= seq![47u8]);
    mask::lemma_full();
    assert forall|q: Seq<Seq<u8>>| path::parent(q) == Some(p) <==> q.len() == p.len() + 1
        && q.drop_last() == p && (p.len() > 0 || q[0] != seq![47u8]) by {}
    if t.is_below_recursive_root(p) {
        let q = choose|q: Seq<Seq<u8>>| #[trigger]
            t.roots.contains_key(q) && t.roots[q].mode.is_recursive() && path::lies_below(p, q);
        assert(t.roots.contains_key(q) && root::reaches(q, t.roots[q].mode, p));
    }
    if t.is_parent_of_root(p) {
        let q = choose|q: Seq<Seq<u8>>| #[trigger]
            t.roots.contains_key(q) && path::parent(q) == Some(p);
        assert(t.roots.contains_key(q) && q.drop_last() == p);
    }
    if t.reports_root(p) {
        let q = choose|q: Seq<Seq<u8>>| #[trigger]
            t.roots.contains_key(q) && path::parent(q) == Some(p) && !t.handles.contains_key(q);
        assert(t.roots.contains_key(q) && q.drop_last() == p);
    }
}

/// What a path asks for changes: the kernel is told where that changes what the inode is watched
/// for as a whole. Where it led to another inode by then, its handle is of that inode. Where
/// nothing is there the handle goes. Where the kernel refused otherwise the path asks for what it
/// did.
pub proof fn mask_is_changed(
    s: LoopView,
    p: Seq<Seq<u8>>,
    m: u32,
    w: i32,
    before: u32,
    after: u32,
    added: Option<Result<i32, i32>>,
)
    ensures
        ({
            let (r, request) = s.push(Task::SetMask { path: p, mask: m }).step(
                Answer::Added(added),
            );
            let t = s.table();
            let handle = t.handles[p];
            let changed = with_mask(t, p, m);
            if !t.handles.contains_key(p) || handle.mask == m {
                request == RequestView::Again && r.reading == s.reading && r.tasks == s.tasks
                    && r.outcome is Done
            } else if changed.kernel_mask(handle.w) == t.kernel_mask(handle.w) {
                request == RequestView::Again && r.table() == changed && r.tasks == s.tasks
                    && r.outcome is Done
            } else {
                let all = changed.kernel_mask(handle.w);
                request == RequestView::Add(p, all) && r.table() == changed && r.tasks
                    == s.tasks.push(
                    Task::SetMaskAdded {
                        path: p,
                        mask: m,
                        w: handle.w,
                        before: handle.mask,
                        after: all,
                    },
                )
            }
        }),
        s.table().handles.contains_key(p) ==> ({
            let (r, request) = s.push(
                Task::SetMaskAdded { path: p, mask: m, w, before, after },
            ).step(Answer::Added(added));
            let back = with_mask(s.table(), p, before);
            &&& request == RequestView::Again
            &&& match added {
                None => r.reading == s.reading && r.tasks == s.tasks,
                Some(Ok(other)) => if other == w {
                    r.reading == s.reading && r.tasks == s.tasks
                } else {
                    r.table() == back && r.tasks == s.tasks.push(
                        Task::Sync { w: other, before: after },
                    ).push(Task::Record { w: other, path: p, mask: m })
                },
                Some(Err(errno)) => r.table() == back && r.tasks == if says_absent(errno) {
                    s.tasks.push(Task::RemoveHandle { path: p })
                } else {
                    s.tasks
                },
            }
        }),
{
    reveal(LoopView::set_mask);
    reveal(LoopView::set_mask_added);
    assert(s.push(Task::SetMask { path: p, mask: m }).popped().tasks =~= s.tasks);
    assert(s.push(Task::SetMaskAdded { path: p, mask: m, w, before, after }).popped().tasks
        =~= s.tasks);
}

/// The table with another mask for the handle at `p`.
pub open spec fn with_mask(t: TableView, p: Seq<Seq<u8>>, m: u32) -> TableView {
    TableView {
        handles: t.handles.insert(
            p,
            Handle { w: t.handles[p].w, mask: m, is_dir: t.handles[p].is_dir },
        ),
        ..t
    }
}

/// A list of paths is gone through from the first to the last. What is only forgotten asks nothing
/// of the system.
pub proof fn paths_are_gone_through(
    s: LoopView,
    deed: Deed,
    paths: Seq<Seq<Seq<u8>>>,
    answer: AnswerView,
)
    requires
        paths.len() > 0,
        s.table().consistent(),
    ensures
        ({
            let (r, request) = s.push(Task::Each { deed, paths }).step(answer);
            let rest = s.tasks.push(Task::Each { deed, paths: paths.drop_first() });
            &&& request == RequestView::Again
            &&& match deed {
                Deed::Release => r.table() == s.table() && r.tasks == rest.push(
                    Task::Release { path: paths[0] },
                ),
                Deed::Remove => r.table() == s.table() && r.tasks == rest.push(
                    Task::RemoveHandle { path: paths[0] },
                ),
                Deed::Unbind => r.tasks == rest && if s.table().handles.contains_key(paths[0]) {
                    is_unbound(s.table(), r.table(), paths[0])
                } else {
                    r.table() == s.table()
                },
            }
        }),
{
    reveal(LoopView::each);
    assert(s.push(Task::Each { deed, paths }).popped().tasks =~= s.tasks);
    lemma_bind(s.table(), 0, paths[0], 0, false, s.table().bound[0].inode);
}

/// A root is armed once the way to it is: it is looked at where its parent is there, else it is
/// missing. What its watch came to says what the arm came to.
pub proof fn arm_follows_the_way(
    s: LoopView,
    root: Seq<Seq<u8>>,
    recursive: bool,
    state: RootState,
    answer: AnswerView,
)
    ensures
        ({
            let (r, request) = s.push(Task::ArmRoot { root, recursive }).step(answer);
            let is_absolute = root.len() > 0 && root[0] == seq![47u8];
            &&& request == RequestView::Again
            &&& r.reading == s.reading
            &&& r.tasks == s.tasks.push(Task::ArmReached { root, recursive }).push(
                Task::Chain {
                    root,
                    n: if is_absolute {
                        1
                    } else {
                        0
                    },
                },
            )
        }),
        ({
            let (r, request) = s.push(Task::ArmReached { root, recursive }).step(answer);
            &&& r.reading == s.reading
            &&& match s.outcome {
                Outcome::Failed(_) => request == RequestView::Again && r.tasks == s.tasks
                    && r.outcome == s.outcome,
                Outcome::Reached(true) => request == RequestView::Stat(root) && r.tasks
                    == s.tasks.push(Task::ArmLooked { root, recursive }),
                _ => request == RequestView::Again && r.tasks == s.tasks && r.outcome
                    == Outcome::<ErrorView>::Armed(RootState::Missing),
            }
        }),
        ({
            let (r, request) = s.push(Task::ArmAdded { state }).step(answer);
            &&& request == RequestView::Again
            &&& r.reading == s.reading
            &&& r.tasks == s.tasks
            &&& r.outcome == if s.outcome is Failed {
                s.outcome
            } else {
                Outcome::Armed(state)
            }
        }),
{
    reveal(LoopView::arm_root);
    reveal(LoopView::arm_reached);
    reveal(LoopView::arm_added);
    assert(s.push(Task::ArmRoot { root, recursive }).popped().tasks =~= s.tasks);
    assert(s.push(Task::ArmReached { root, recursive }).popped().tasks =~= s.tasks);
    assert(s.push(Task::ArmAdded { state }).popped().tasks =~= s.tasks);
    assert(path::root_dir() =~= seq![47u8]);
}

/// An arm takes down which paths get a handle, and gives up those at and below the root where it
/// fails.
pub proof fn arm_is_undone_where_it_fails(
    s: LoopView,
    root: Seq<Seq<u8>>,
    recursive: bool,
    installed: Seq<Seq<Seq<u8>>>,
    answer: AnswerView,
)
    requires
        s.table().armed == Some(installed),
    ensures
        ({
            let (r, request) = s.push(Task::Arm { root, recursive }).step(answer);
            &&& request == RequestView::Again
            &&& r.table() == TableView { armed: Some(seq![]), ..s.table() }
            &&& r.tasks == s.tasks.push(Task::ArmEnded { root }).push(
                Task::ArmRoot { root, recursive },
            )
        }),
        ({
            let (r, request) = s.push(Task::ArmEnded { root }).step(answer);
            &&& request == RequestView::Again
            &&& r.table() == TableView { armed: None, ..s.table() }
            &&& match s.outcome {
                Outcome::Failed(error) => r.tasks == s.tasks.push(Task::Fail { error }).push(
                    Task::Each { deed: Deed::Remove, paths: at_and_below(installed, root) },
                ),
                _ => r.tasks == s.tasks && r.outcome == s.outcome,
            }
        }),
{
    reveal(LoopView::arm);
    reveal(LoopView::arm_ended);
    assert(s.push(Task::Arm { root, recursive }).popped().tasks =~= s.tasks);
    assert(s.push(Task::ArmEnded { root }).popped().tasks =~= s.tasks);
    assert(Seq::<Seq<Seq<u8>>>::empty() =~= seq![]);
    lemma_at_and_below(installed, root);
}

/// The paths of `list` at and below `root`.
pub open spec fn at_and_below(list: Seq<Seq<Seq<u8>>>, root: Seq<Seq<u8>>) -> Seq<Seq<Seq<u8>>> {
    list.filter(
        |q: Seq<Seq<u8>>| q.len() >= root.len() && q.take(root.len() as int) == root,
    )
}

proof fn lemma_at_and_below(list: Seq<Seq<Seq<u8>>>, root: Seq<Seq<u8>>)
    ensures
        path::chosen(list, task::is_at_or_below(root)) == at_and_below(list, root),
    decreases list.len(),
{
    reveal(Seq::filter);
    if list.len() > 0 {
        lemma_at_and_below(list.drop_last(), root);
    }
}

/// The paths of an entry that are watched recursively, and those that are not.
pub open spec fn trees(adds: Seq<AddView>) -> Seq<Seq<Seq<u8>>> {
    adds.filter(|a: AddView| a.is_recursive).map_values(|a: AddView| a.path)
}

pub open spec fn singles(adds: Seq<AddView>) -> Seq<AddView> {
    adds.filter(|a: AddView| !a.is_recursive)
}

proof fn lemma_parts(adds: Seq<AddView>)
    ensures
        task::recursive_paths(adds) == trees(adds),
        task::single_adds(adds) == singles(adds),
    decreases adds.len(),
{
    reveal(Seq::filter);
    if adds.len() == 0 {
        assert(task::recursive_paths(adds) =~= trees(adds));
    } else {
        lemma_parts(adds.drop_last());
        assert(task::recursive_paths(adds) =~= trees(adds));
    }
}

/// An entry that appeared is watched under each of its paths: where a path is watched recursively
/// the tree is walked under the first of those, and the others are bound to what was found. Then
/// the other paths are watched, each alone. A full watch table stops the entry; another error does
/// not.
pub proof fn entry_is_watched(
    s: LoopView,
    entries: Seq<Seq<AddView>>,
    walked: Seq<Seq<u8>>,
    paths: Seq<Seq<Seq<u8>>>,
    single: Seq<AddView>,
    answer: AnswerView,
)
    ensures
        entries.len() > 0 ==> ({
            let (r, request) = s.push(Task::AddAll { entries }).step(answer);
            &&& request == RequestView::Again
            &&& r == LoopView {
                tasks: s.tasks.push(Task::AddAllEnded { entries: entries.drop_first() }).push(
                    Task::Entry { paths: trees(entries[0]), single: singles(entries[0]) },
                ),
                ..s
            }
        }),
        ({
            let (r, request) = s.push(Task::Entry { paths, single }).step(answer);
            &&& request == RequestView::Again
            &&& r == LoopView {
                tasks: if paths.len() == 0 {
                    s.tasks.push(Task::Single { single })
                } else {
                    s.tasks.push(
                        Task::EntryWalked { walked: paths[0], paths: paths.drop_first(), single },
                    ).push(Task::Walk { path: paths[0], watch_self: false })
                },
                ..s
            }
        }),
        ({
            let (r, request) = s.push(Task::EntryWalked { walked, paths, single }).step(answer);
            let bound = Task::Bind { walked, dirs: s.walked, paths, i: 0 };
            &&& request == RequestView::Again
            &&& r.reading == s.reading && r.outcome is Done
            &&& match s.outcome {
                Outcome::Failed(error) => if error.kind == ErrorKind::MaxFilesWatch {
                    r.tasks == s.tasks.push(Task::Fail { error }).push(bound)
                } else {
                    r.tasks == s.tasks.push(Task::Single { single }).push(bound)
                },
                _ => r.tasks == s.tasks.push(Task::Single { single }).push(bound),
            }
        }),
        ({
            let (r, request) = s.push(Task::Single { single }).step(answer);
            let full = CREATE | DELETE | MOVED_FROM | MOVED_TO | ATTRIB | OPEN | CLOSE_WRITE
                | MODIFY;
            &&& request == RequestView::Again
            &&& r.reading == s.reading
            &&& if single.len() == 0 {
                r.tasks == s.tasks && r.outcome is Done
            } else {
                r.tasks == s.tasks.push(Task::SingleAdded { single: single.drop_first() }).push(
                    Task::Add {
                        path: single[0].path,
                        mask: full,
                        is_file_without_hardlinks: single[0].is_file_without_hardlinks,
                    },
                )
            }
        }),
        ({
            let (r, request) = s.push(Task::SingleAdded { single }).step(answer);
            let is_full = s.outcome matches Outcome::Failed(error) && error.kind
                == ErrorKind::MaxFilesWatch;
            &&& request == RequestView::Again
            &&& r.reading == s.reading
            &&& r.outcome == s.outcome
            &&& r.tasks == if is_full {
                s.tasks
            } else {
                s.tasks.push(Task::Single { single })
            }
        }),
{
    reveal(LoopView::add_all);
    reveal(LoopView::entry);
    reveal(LoopView::entry_walked);
    reveal(LoopView::single);
    reveal(LoopView::single_added);
    assert(s.push(Task::AddAll { entries }).popped().tasks =~= s.tasks);
    assert(s.push(Task::Entry { paths, single }).popped().tasks =~= s.tasks);
    assert(s.push(Task::EntryWalked { walked, paths, single }).popped().tasks =~= s.tasks);
    assert(s.push(Task::Single { single }).popped().tasks =~= s.tasks);
    assert(s.push(Task::SingleAdded { single }).popped().tasks =~= s.tasks);
    lemma_parts(entries[0]);
    mask::lemma_full();
}

/// Each directory that a walk under one path found gets, under the other path of the entry, the
/// descriptor that it was found with: recorded where the kernel watches the inode for enough, added
/// otherwise, and left where the path is watched for everything already.
pub proof fn found_directory_is_bound(
    s: LoopView,
    walked: Seq<Seq<u8>>,
    dirs: Seq<Seq<Seq<u8>>>,
    paths: Seq<Seq<Seq<u8>>>,
    i: usize,
    answer: AnswerView,
)
    requires
        paths.len() > 0,
    ensures
        ({
            let (r, request) = s.push(Task::Bind { walked, dirs, paths, i }).step(answer);
            let t = s.table();
            let full = CREATE | DELETE | MOVED_FROM | MOVED_TO | ATTRIB | OPEN | CLOSE_WRITE
                | MODIFY;
            let next = s.tasks.push(Task::Bind { walked, dirs, paths, i: (i + 1) as usize });
            let dir = dirs[i as int];
            let p = paths[0] + dir.skip(walked.len() as int);
            let all = if t.handles.contains_key(p) {
                t.handles[p].mask | full
            } else {
                full
            };
            &&& request == RequestView::Again
            &&& r.reading == s.reading
            &&& r.tasks == if i >= dirs.len() {
                s.tasks.push(Task::Bind { walked, dirs, paths: paths.drop_first(), i: 0 })
            } else if !(dir.len() >= walked.len() && dir.take(walked.len() as int) == walked)
                || !t.handles.contains_key(dir) {
                next
            } else if t.handles.contains_key(p) && t.handles[p].mask & full == full {
                next
            } else if t.kernel_mask(t.handles[dir].w) & all == all {
                next.push(Task::Record { w: t.handles[dir].w, path: p, mask: all })
            } else {
                next.push(Task::Add { path: p, mask: full, is_file_without_hardlinks: false })
            }
        }),
{
    reveal(LoopView::bind);
    assert(s.push(Task::Bind { walked, dirs, paths, i }).popped().tasks =~= s.tasks);
    mask::lemma_full();
}

/// What a path that is watched already lacks: the way to it if it is to be tracked, then what is
/// below it if it is to be recursive and is a directory, with what becomes of itself.
pub proof fn what_is_lacking_is_watched(
    s: LoopView,
    p: Seq<Seq<u8>>,
    track: bool,
    recurse: bool,
    stat: Result<FileStat, i32>,
)
    ensures
        ({
            let (r, request) = s.push(Task::Upgrade { path: p, track, recurse }).step(
                Answer::Stat(stat),
            );
            let next = s.tasks.push(Task::UpgradeReached { path: p, recurse });
            let is_absolute = p.len() > 0 && p[0] == seq![47u8];
            &&& request == RequestView::Again
            &&& r.reading == s.reading
            &&& r.outcome is Done
            &&& r.tasks == if track {
                next.push(
                    Task::Chain {
                        root: p,
                        n: if is_absolute {
                            1
                        } else {
                            0
                        },
                    },
                )
            } else {
                next
            }
        }),
        ({
            let (r, request) = s.push(Task::UpgradeReached { path: p, recurse }).step(
                Answer::Stat(stat),
            );
            &&& r.reading == s.reading
            &&& if s.outcome is Failed {
                request == RequestView::Again && r.tasks == s.tasks && r.outcome == s.outcome
            } else if recurse {
                request == RequestView::Stat(p) && r.tasks == s.tasks.push(
                    Task::UpgradeLooked { path: p },
                )
            } else {
                request == RequestView::Again && r.tasks == s.tasks && r.outcome is Done
            }
        }),
        ({
            let (r, request) = s.push(Task::UpgradeLooked { path: p }).step(Answer::Stat(stat));
            &&& request == RequestView::Again
            &&& r.reading == s.reading
            &&& match stat {
                Ok(stat) => if stat.is_dir {
                    r.tasks == s.tasks.push(Task::Walk { path: p, watch_self: true })
                } else {
                    r.tasks == s.tasks && r.outcome is Done
                },
                Err(errno) => r.tasks == s.tasks && r.outcome == Outcome::Failed(
                    ErrorView { kind: ErrorKind::Io(errno), paths: seq![] },
                ),
            }
        }),
{
    reveal(LoopView::upgrade);
    reveal(LoopView::upgrade_reached);
    reveal(LoopView::upgrade_looked);
    assert(s.push(Task::Upgrade { path: p, track, recurse }).popped().tasks =~= s.tasks);
    assert(s.push(Task::UpgradeReached { path: p, recurse }).popped().tasks =~= s.tasks);
    assert(s.push(Task::UpgradeLooked { path: p }).popped().tasks =~= s.tasks);
    assert(path::root_dir() =~= seq![47u8]);
    assert(Seq::<Seq<Seq<u8>>>::empty() =~= seq![]);
}

/// Whether `list` holds the paths with a handle at and below `p`, in their order.
pub open spec fn lists_handles(t: TableView, p: Seq<Seq<u8>>, list: Seq<Seq<Seq<u8>>>) -> bool {
    &&& path_map::sorted(list)
    &&& forall|q: Seq<Seq<u8>>| #[trigger]
        list.contains(q) <==> t.handles.contains_key(q) && q.len() >= p.len() && q.take(
            p.len() as int,
        ) == p
}

/// Whether `list` holds the tracked roots at and below `p` that are there, in their order.
pub open spec fn lists_armed(t: TableView, p: Seq<Seq<u8>>, list: Seq<Seq<Seq<u8>>>) -> bool {
    &&& path_map::sorted(list)
    &&& forall|q: Seq<Seq<u8>>| #[trigger]
        list.contains(q) <==> {
            &&& t.roots.contains_key(q)
            &&& q.len() >= p.len() && q.take(p.len() as int) == p
            &&& t.roots[q].mode.target_mode == TargetMode::TrackPath
            &&& t.roots[q].state != RootState::Missing
        }
}

/// Whether `list` holds the roots at and below `p` that do not track their path, in their order.
pub open spec fn lists_followers(t: TableView, p: Seq<Seq<u8>>, list: Seq<Seq<Seq<u8>>>) -> bool {
    &&& path_map::sorted(list)
    &&& forall|q: Seq<Seq<u8>>| #[trigger]
        list.contains(q) <==> {
            &&& t.roots.contains_key(q)
            &&& q.len() >= p.len() && q.take(p.len() as int) == p
            &&& t.roots[q].mode.target_mode == TargetMode::NoTrack
        }
}

/// What only a root needed is released once it is watched no longer: its own handle, or all at and
/// below it if it was recursive, then the way to it if it was tracked, then the directory it is in
/// if it had no handle. That succeeds whatever the system says. Where the root was recursive the
/// tracked roots at and below it are armed again then.
pub proof fn unwatch_releases_handles(s: LoopView, p: Seq<Seq<u8>>, answer: AnswerView)
    requires
        s.table().roots.contains_key(p),
    ensures
        ({
            let (r, request) = s.push(Task::RemoveRoot { path: p }).step(answer);
            let mode = s.table().roots[p].mode;
            let left = s.table().roots.remove(p);
            let has_parent = p.len() > 0 && (p.len() > 1 || p[0] != seq![47u8]);
            let first = if mode.recursive_mode == RecursiveMode::Recursive {
                Task::ReleaseBelow { path: p }
            } else {
                Task::Release { path: p }
            };
            let last = s.tasks.push(Task::Succeed);
            let last = if has_parent && !s.table().handles.contains_key(p) {
                last.push(Task::Release { path: p.drop_last() })
            } else {
                last
            };
            &&& request == RequestView::Again
            &&& r.reading == ReadingView {
                table: TableView { roots: left, ..s.table() },
                ..s.reading
            }
            &&& mode.target_mode == TargetMode::NoTrack ==> r.tasks == last.push(first)
            &&& mode.target_mode == TargetMode::TrackPath ==> exists|paths: Seq<Seq<Seq<u8>>>|
                {
                    &&& r.tasks == last.push(#[trigger] releasing(paths)).push(first)
                    &&& forall|q: Seq<Seq<u8>>| #[trigger]
                        paths.contains(q) <==> is_off_the_way(left, p, q)
                }
        }),
{
    reveal(LoopView::remove_root);
    assert(s.push(Task::RemoveRoot { path: p }).popped().tasks =~= s.tasks);
    let removed = s.table().without_root(p);
    let paths = task::untracked(removed, p, path::floor(p));
    lemma_off_the_way(removed, p);
    assert(releasing(paths) matches Task::Each { deed: Deed::Release, .. });
    assert(path::root_dir() =~= seq![47u8]);
}

/// What is at and below a path is released: every handle there, and the tracked roots there that
/// are present are armed again, each as its mode asks, whatever becomes of the one before.
pub proof fn what_is_below_is_released(
    s: LoopView,
    p: Seq<Seq<u8>>,
    roots: Seq<Seq<Seq<u8>>>,
    answer: AnswerView,
)
    requires
        s.table().roots.dom().finite(),
        s.table().handles.dom().finite(),
    ensures
        ({
            let (r, request) = s.push(Task::ReleaseBelow { path: p }).step(answer);
            &&& request == RequestView::Again
            &&& exists|armed: Seq<Seq<Seq<u8>>>, paths: Seq<Seq<Seq<u8>>>|
                {
                    &&& #[trigger] lists_armed(s.table(), p, armed)
                    &&& #[trigger] lists_handles(s.table(), p, paths)
                    &&& r == LoopView {
                        tasks: s.tasks.push(Task::ArmAgain { roots: armed }).push(
                            Task::Each { deed: Deed::Release, paths },
                        ),
                        ..s
                    }
                }
        }),
        roots.len() > 0 ==> ({
            let (r, request) = s.push(Task::ArmAgain { roots }).step(answer);
            let next = s.tasks.push(Task::ArmAgain { roots: roots.drop_first() });
            &&& request == RequestView::Again
            &&& r == LoopView {
                tasks: if s.table().roots.contains_key(roots[0]) {
                    next.push(
                        Task::ArmRoot {
                            root: roots[0],
                            recursive: s.table().roots[roots[0]].mode.recursive_mode
                                == RecursiveMode::Recursive,
                        },
                    )
                } else {
                    next
                },
                ..s
            }
        }),
{
    reveal(LoopView::release_below);
    reveal(LoopView::arm_again);
    assert(s.push(Task::ReleaseBelow { path: p }).popped().tasks =~= s.tasks);
    assert(s.push(Task::ArmAgain { roots }).popped().tasks =~= s.tasks);
    let t = s.table();
    let all = path_map::at_and_below(t.roots.dom(), p);
    let armed = path::chosen(all, task::is_armed(t));
    let paths = path_map::at_and_below(t.handles.dom(), p);
    path_map::lemma_below_sorted(t.roots.dom(), p);
    path_map::lemma_below_sorted(t.handles.dom(), p);
    root::lemma_chosen_sorted(all, task::is_armed(t));
    assert forall|q: Seq<Seq<u8>>| #[trigger]
        armed.contains(q) <==> {
            &&& t.roots.contains_key(q)
            &&& q.len() >= p.len() && q.take(p.len() as int) == p
            &&& t.roots[q].mode.target_mode == TargetMode::TrackPath
            &&& t.roots[q].state != RootState::Missing
        } by {
        path_map::lemma_listed(t.roots.dom(), p, q);
        assert(armed.contains(q) <==> all.contains(q) && task::is_armed(t)(q));
    }
    assert forall|q: Seq<Seq<u8>>| #[trigger]
        paths.contains(q) <==> t.handles.contains_key(q) && q.len() >= p.len() && q.take(
            p.len() as int,
        ) == p by {
        path_map::lemma_listed(t.handles.dom(), p, q);
    }
    assert(lists_armed(t, p, armed) && lists_handles(t, p, paths));
}

/// Whether the handle at `h` stays when the entity at `p` went: it is that of a root at or below
/// `p` that does not track its path, or lies below one that is recursive too, or, with `keep_root`,
/// it is that of a root at `p` that is there.
pub open spec fn is_kept(t: TableView, p: Seq<Seq<u8>>, keep_root: bool, h: Seq<Seq<u8>>) -> bool {
    ||| keep_root && h == p && t.roots.contains_key(p) && t.roots[p].state != RootState::Missing
    ||| exists|q: Seq<Seq<u8>>| #[trigger]
        t.roots.contains_key(q) && t.roots[q].mode.target_mode == TargetMode::NoTrack && q.len()
            >= p.len() && q.take(p.len() as int) == p && (h == q || (t.roots[q].mode.recursive_mode
            == RecursiveMode::Recursive && h.len() >= q.len() && h.take(q.len() as int) == q))
}

/// Whether `list` holds the paths with a handle at and below `p` that go with it, in their order.
pub open spec fn lists_dropped(
    t: TableView,
    p: Seq<Seq<u8>>,
    keep_root: bool,
    list: Seq<Seq<Seq<u8>>>,
) -> bool {
    &&& path_map::sorted(list)
    &&& forall|q: Seq<Seq<u8>>| #[trigger]
        list.contains(q) <==> {
            &&& t.handles.contains_key(q)
            &&& q.len() >= p.len() && q.take(p.len() as int) == p
            &&& !is_kept(t, p, keep_root, q)
        }
}

/// When the entity at a path went, the handles at and below it go with it but for those that a root
/// which follows its entity still needs, and what becomes of those roots is seen to then. Where the
/// kernel removed the watch already the handles are only forgotten.
pub proof fn handles_of_what_is_gone_are_dropped(
    s: LoopView,
    p: Seq<Seq<u8>>,
    keep_root: bool,
    without_os_call: bool,
    answer: AnswerView,
)
    requires
        s.table().roots.dom().finite(),
        s.table().handles.dom().finite(),
    ensures
        ({
            let (r, request) = s.push(Task::Drop { path: p, keep_root, without_os_call }).step(
                answer,
            );
            &&& request == RequestView::Again
            &&& exists|followers: Seq<Seq<Seq<u8>>>, paths: Seq<Seq<Seq<u8>>>|
                {
                    &&& #[trigger] lists_followers(s.table(), p, followers)
                    &&& #[trigger] lists_dropped(s.table(), p, keep_root, paths)
                    &&& r == LoopView {
                        tasks: s.tasks.push(Task::DropRoots { path: p, roots: followers }).push(
                            Task::Each {
                                deed: if without_os_call {
                                    Deed::Unbind
                                } else {
                                    Deed::Remove
                                },
                                paths,
                            },
                        ),
                        ..s
                    }
                }
        }),
{
    reveal(LoopView::drop);
    assert(s.push(Task::Drop { path: p, keep_root, without_os_call }).popped().tasks =~= s.tasks);
    let t = s.table();
    let followers = task::no_track_roots(t, p);
    let paths = task::dropped_handles(t, p, keep_root);
    lemma_followers(t, p);
    let all = path_map::at_and_below(t.handles.dom(), p);
    path_map::lemma_below_sorted(t.handles.dom(), p);
    root::lemma_chosen_sorted(all, task::is_dropped(t, p, keep_root));
    assert forall|q: Seq<Seq<u8>>| #[trigger]
        paths.contains(q) <==> {
            &&& t.handles.contains_key(q)
            &&& q.len() >= p.len() && q.take(p.len() as int) == p
            &&& !is_kept(t, p, keep_root, q)
        } by {
        path_map::lemma_listed(t.handles.dom(), p, q);
        assert(paths.contains(q) <==> all.contains(q) && task::is_dropped(t, p, keep_root)(q));
        lemma_kept(t, p, keep_root, q);
    }
    assert(lists_dropped(t, p, keep_root, paths));
}

proof fn lemma_followers(t: TableView, p: Seq<Seq<u8>>)
    requires
        t.roots.dom().finite(),
    ensures
        lists_followers(t, p, task::no_track_roots(t, p)),
{
    let all = path_map::at_and_below(t.roots.dom(), p);
    let list = task::no_track_roots(t, p);
    path_map::lemma_below_sorted(t.roots.dom(), p);
    root::lemma_chosen_sorted(all, task::is_no_track(t));
    assert forall|q: Seq<Seq<u8>>| #[trigger]
        list.contains(q) <==> {
            &&& t.roots.contains_key(q)
            &&& q.len() >= p.len() && q.take(p.len() as int) == p
            &&& t.roots[q].mode.target_mode == TargetMode::NoTrack
        } by {
        path_map::lemma_listed(t.roots.dom(), p, q);
        assert(list.contains(q) <==> all.contains(q) && task::is_no_track(t)(q));
    }
}

proof fn lemma_kept(t: TableView, p: Seq<Seq<u8>>, keep_root: bool, h: Seq<Seq<u8>>)
    requires
        t.roots.dom().finite(),
    ensures
        task::is_dropped(t, p, keep_root)(h) <==> !is_kept(t, p, keep_root, h),
{
    let list = task::no_track_roots(t, p);
    lemma_followers(t, p);
    if task::kept_by_no_track_root(t, list, h) {
        let i = choose|i: int|
            0 <= i < list.len() && (#[trigger] list[i] == h || (t.roots.contains_key(list[i])
                && t.roots[list[i]].mode.is_recursive() && path::starts_with(h, list[i])));
        assert(list.contains(list[i]));
        assert(t.roots.contains_key(list[i]));
    }
    if exists|q: Seq<Seq<u8>>| #[trigger]
        t.roots.contains_key(q) && t.roots[q].mode.target_mode == TargetMode::NoTrack && q.len()
            >= p.len() && q.take(p.len() as int) == p && (h == q || (t.roots[q].mode.recursive_mode
            == RecursiveMode::Recursive && h.len() >= q.len() && h.take(q.len() as int) == q)) {
        let q = choose|q: Seq<Seq<u8>>| #[trigger]
            t.roots.contains_key(q) && t.roots[q].mode.target_mode == TargetMode::NoTrack && q.len()
                >= p.len() && q.take(p.len() as int) == p && (h == q || (
            t.roots[q].mode.recursive_mode == RecursiveMode::Recursive && h.len() >= q.len()
                && h.take(q.len() as int) == q));
        assert(list.contains(q));
        let i = list.index_of(q);
        assert(list[i] == q);
    }
}

/// The paths through which all watches are removed: for each descriptor the one that it was bound
/// to first, and no other, each once.
pub proof fn each_descriptor_is_removed_once(t: TableView)
    requires
        t.consistent(),
        t.handles.dom().finite(),
    ensures
        task::primaries(t).no_duplicates(),
        forall|p: Seq<Seq<u8>>| #[trigger]
            task::primaries(t).contains(p) <==> {
                &&& t.handles.contains_key(p)
                &&& t.bound.contains_key(t.handles[p].w)
                &&& t.bound[t.handles[p].w].spellings[0] == p
            },
        forall|w: i32| #[trigger]
            t.bound.contains_key(w) ==> task::primaries(t).contains(t.bound[w].spellings[0])
                && t.handles[t.bound[w].spellings[0]].w == w,
{
    let all = path_map::at_and_below(t.handles.dom(), Seq::empty());
    let first = task::is_primary(t);
    let list = task::primaries(t);
    path_map::lemma_below_sorted(t.handles.dom(), Seq::empty());
    root::lemma_chosen_sorted(all, first);
    path_map::lemma_sorted_no_duplicates(list);
    assert forall|p: Seq<Seq<u8>>| #[trigger]
        list.contains(p) <==> {
            &&& t.handles.contains_key(p)
            &&& t.bound.contains_key(t.handles[p].w)
            &&& t.bound[t.handles[p].w].spellings[0] == p
        } by {
        path_map::lemma_listed(t.handles.dom(), Seq::empty(), p);
        assert(list.contains(p) <==> all.contains(p) && first(p));
        assert(p.take(0) =~= Seq::empty());
    }
    assert forall|w: i32| #[trigger] t.bound.contains_key(w) implies list.contains(
        t.bound[w].spellings[0],
    ) && t.handles[t.bound[w].spellings[0]].w == w by {
        let p = t.bound[w].spellings[0];
        assert(t.bound[w].spellings.contains(p));
        assert(t.handles.contains_key(p));
        assert(list.contains(p));
    }
}

/// When watching ends every watch is removed, through the path that its descriptor was bound to
/// first, until the system refuses one. Then nothing is watched any more.
pub proof fn all_watches_are_removed(
    s: LoopView,
    paths: Seq<Seq<Seq<u8>>>,
    removed: Result<(), i32>,
)
    ensures
        ({
            let (r, request) = s.push(Task::RemoveAll { paths }).step(Answer::Removed(removed));
            if paths.len() == 0 {
                &&& request == RequestView::Again && r.tasks == s.tasks && r.outcome is Done
                &&& r.table() == TableView {
                    roots: Map::empty(),
                    handles: Map::empty(),
                    bound: Map::empty(),
                    armed: s.table().armed,
                }
            } else if s.table().handles.contains_key(paths[0]) {
                &&& request == RequestView::Remove(s.table().handles[paths[0]].w)
                &&& r == LoopView { tasks: s.tasks.push(Task::RemoveAllAnswered { paths }), ..s }
            } else {
                &&& request == RequestView::Again
                &&& r == LoopView {
                    tasks: s.tasks.push(Task::RemoveAll { paths: paths.drop_first() }),
                    ..s
                }
            }
        }),
        paths.len() > 0 ==> ({
            let (r, request) = s.push(Task::RemoveAllAnswered { paths }).step(
                Answer::Removed(removed),
            );
            &&& request == RequestView::Again
            &&& r == match removed {
                Ok(_) => LoopView {
                    tasks: s.tasks.push(Task::RemoveAll { paths: paths.drop_first() }),
                    ..s
                },
                Err(errno) => LoopView {
                    outcome: Outcome::Failed(
                        ErrorView { kind: ErrorKind::Io(errno), paths: seq![paths[0]] },
                    ),
                    ..s
                },
            }
        }),
{
    reveal(LoopView::remove_all);
    reveal(LoopView::remove_all_answered);
    assert(s.push(Task::RemoveAll { paths }).popped().tasks =~= s.tasks);
    assert(s.push(Task::RemoveAllAnswered { paths }).popped().tasks =~= s.tasks);
}

proof fn lemma_all_unbound(t: TableView, ws: Seq<i32>)
    requires
        t.consistent(),
    ensures
        ({
            let after = task::all_unbound(t, ws);
            &&& after.consistent()
            &&& after.roots == t.roots && after.armed == t.armed
            &&& forall|w: i32| #[trigger]
                after.bound.contains_key(w) <==> t.bound.contains_key(w) && !ws.contains(w)
            &&& forall|w: i32| #[trigger]
                after.bound.contains_key(w) ==> after.bound[w] == t.bound[w]
            &&& forall|q: Seq<Seq<u8>>| #[trigger]
                after.handles.contains_key(q) <==> t.handles.contains_key(q) && !ws.contains(
                    t.handles[q].w,
                )
            &&& forall|q: Seq<Seq<u8>>| #[trigger]
                after.handles.contains_key(q) ==> after.handles[q] == t.handles[q]
        }),
    decreases ws.len(),
{
    if ws.len() > 0 {
        let shorter = ws.drop_last();
        let last = ws.last();
        let before = task::all_unbound(t, shorter);
        let after = task::all_unbound(t, ws);
        lemma_all_unbound(t, shorter);
        table::unbind_all_keeps_consistent(before, last);
        assert forall|w: i32| #[trigger] ws.contains(w) <==> shorter.contains(w) || w == last by {
            if ws.contains(w) {
                let i = ws.index_of(w);
                if i < shorter.len() {
                    assert(shorter[i] == w);
                }
            }
            if shorter.contains(w) {
                assert(ws[shorter.index_of(w)] == w);
            }
            assert(ws[ws.len() - 1] == last);
        }
        assert forall|q: Seq<Seq<u8>>| #[trigger]
            after.handles.contains_key(q) <==> before.handles.contains_key(q)
                && before.handles[q].w != last by {
            if before.handles.contains_key(q) {
                assert(before.bound[before.handles[q].w].spellings.contains(q));
                if before.handles[q].w == last {
                    assert(before.spellings(last).to_set().contains(q));
                }
                if before.spellings(last).to_set().contains(q) {
                    assert(before.bound[last].spellings.contains(q));
                }
            }
        }
    }
}

/// What the events of a read asked for is done in this order: what the kernel removed itself is let
/// go, then what went, then the roots that are cut off, then what appeared is watched, and last the
/// roots that can be reached again are armed. The handles of descriptors that the kernel dropped
/// are forgotten first, and nothing is left to ask for.
pub proof fn read_is_dealt_with_in_order(s: LoopView)
    requires
        s.table().consistent(),
    ensures
        ({
            let r = s.process();
            let c = s.reading.changes;
            let a = s.table();
            let b = r.table();
            &&& r.tasks == s.tasks.push(Task::RearmAll { paths: c.appeared }).push(
                Task::AddAll { entries: c.add_watches },
            ).push(Task::VanishAll { paths: c.vanished }).push(
                Task::DropAll { paths: c.remove_watches, without_os_call: false },
            ).push(
                Task::DropAll { paths: c.remove_watches_no_syscall, without_os_call: true },
            )
            &&& r.reading.changes == ChangesView {
                add_watches: seq![],
                entry_watches: seq![],
                queued: seq![],
                remove_watches: seq![],
                remove_watches_no_syscall: seq![],
                vanished: seq![],
                appeared: seq![],
                ignored: seq![],
            }
            &&& r.reading.reports == s.reading.reports
            &&& r.reading.rename_from == s.reading.rename_from
            &&& b.roots == a.roots && b.armed == a.armed
            &&& forall|w: i32| #[trigger]
                b.bound.contains_key(w) <==> a.bound.contains_key(w) && !c.ignored.contains(w)
            &&& forall|w: i32| #[trigger] b.bound.contains_key(w) ==> b.bound[w] == a.bound[w]
            &&& forall|q: Seq<Seq<u8>>| #[trigger]
                b.handles.contains_key(q) <==> a.handles.contains_key(q) && !c.ignored.contains(
                    a.handles[q].w,
                )
            &&& forall|q: Seq<Seq<u8>>| #[trigger]
                b.handles.contains_key(q) ==> b.handles[q] == a.handles[q]
        }),
{
    lemma_all_unbound(s.table(), s.reading.changes.ignored);
}

/// A task that fails ends with its error, and one that succeeds or heeds no answer is done. Where
/// no task is left there is nothing to ask.
pub proof fn tasks_end_as_they_say(s: LoopView, error: ErrorView, answer: AnswerView)
    ensures
        s.push(Task::Fail { error }).step(answer) == (
            LoopView { outcome: Outcome::Failed(error), ..s },
            RequestView::Again,
        ),
        s.push(Task::Succeed).step(answer) == (
            LoopView { outcome: Outcome::Done, ..s },
            RequestView::Again,
        ),
        s.push(Task::Heedless).step(answer) == (
            LoopView { outcome: Outcome::Done, ..s },
            RequestView::Again,
        ),
        s.tasks.len() == 0 ==> s.step(answer) == (s, RequestView::Idle),
{
    assert(s.push(Task::Fail { error }).popped().tasks =~= s.tasks);
    assert(s.push(Task::Succeed).popped().tasks =~= s.tasks);
    assert(s.push(Task::Heedless).popped().tasks =~= s.tasks);
}

} // verus!
