//! What each event of kqueue comes to: what is reported of it, what becomes of the roots, and what
//! it asks for.

use crate::config::{RecursiveMode, TargetMode};
use crate::error::{ErrorKind, ErrorView};
use crate::event::{
    CreateKind, DataChange, EventAttributes, EventKind, EventView, MetadataKind, ModifyKind,
    RemoveKind, RenameMode,
};
use crate::kqueue::task;
use crate::kqueue::task::{
    Answer, AnswerView, BatchView, Found, LoopView, PathStat, RequestView, Task, Vnode,
};
use crate::outcome::Outcome;
use crate::path;
use crate::report;
use crate::report::ReportView;
use crate::root;
use crate::root::{RootState, RootWatch};
use vstd::prelude::*;

verus! {

/// `reports` and, where `p` is reached by the watch of a root, an event of `kind` there.
pub open spec fn and_told(
    reports: Seq<ReportView>,
    roots: Map<Seq<Seq<u8>>, RootWatch>,
    p: Seq<Seq<u8>>,
    kind: EventKind,
) -> Seq<ReportView> {
    if root::is_reached(roots, p) {
        reports.push(report::told(kind, seq![p], None))
    } else {
        reports
    }
}

/// `roots` with the one at `p`, if there is one, in the state `state`.
pub open spec fn with_state(
    roots: Map<Seq<Seq<u8>>, RootWatch>,
    p: Seq<Seq<u8>>,
    state: RootState,
) -> Map<Seq<Seq<u8>>, RootWatch> {
    if roots.contains_key(p) {
        roots.insert(p, RootWatch { mode: roots[p].mode, state })
    } else {
        roots
    }
}

/// The batch once `p` is gone: its handle is stale, and the roots below it are cut off.
pub open spec fn batch_without(s: LoopView, p: Seq<Seq<u8>>) -> BatchView {
    BatchView {
        stale: s.batch.stale.insert(p),
        vanished: if root::is_on_the_way(s.roots, p) {
            s.batch.vanished.insert(p)
        } else {
            s.batch.vanished
        },
        ..s.batch
    }
}

/// From `s` to `r` the entity at `p` went, with a root there: one that tracks its path is missing,
/// one that does not is forgotten, and with it what the batch is to watch for it alone.
pub open spec fn is_gone(s: LoopView, r: LoopView, p: Seq<Seq<u8>>) -> bool {
    let is_forgotten = s.roots.contains_key(p) && s.roots[p].mode.target_mode
        == TargetMode::NoTrack;
    &&& r.roots == if is_forgotten {
        s.roots.remove(p)
    } else {
        with_state(s.roots, p, RootState::Missing)
    }
    &&& r.batch == BatchView { add: r.batch.add, ..batch_without(s, p) }
    &&& forall|q: Seq<Seq<u8>>| #[trigger]
        r.batch.add.contains_key(q) <==> s.batch.add.contains_key(q) && (is_forgotten && (q == p
            || (q.len() > p.len() && q.take(p.len() as int) == p)) ==> root::is_reached(r.roots, q))
    &&& forall|q: Seq<Seq<u8>>| #[trigger]
        r.batch.add.contains_key(q) ==> r.batch.add[q] == s.batch.add[q]
}

/// What else an event leaves alone.
pub open spec fn is_all(s: LoopView, r: LoopView) -> bool {
    &&& r.handles == s.handles
    &&& r.present == s.present
    &&& r.unarmed == s.unarmed
    &&& r.reappeared == s.reappeared
    &&& r.unregistered == s.unregistered
    &&& r.pending == s.pending
}

proof fn lemma_told(p: Seq<Seq<u8>>)
    ensures
        forall|kind: EventKind|
            ReportView::Event(#[trigger] EventView::new(kind).with_path(p)) == report::told(
                kind,
                seq![p],
                None,
            ),
{
    assert(Seq::<Seq<Seq<u8>>>::empty().push(p) =~= seq![p]);
}

/// Which roots reach a path, and which lie below it, rests on their modes alone.
proof fn lemma_state_keeps_reach(
    roots: Map<Seq<Seq<u8>>, RootWatch>,
    p: Seq<Seq<u8>>,
    state: RootState,
    q: Seq<Seq<u8>>,
)
    ensures
        root::is_reached(root::in_state(roots, p, state), q) <==> root::is_reached(roots, q),
{
    let after = root::in_state(roots, p, state);
    assert forall|t: Seq<Seq<u8>>| #[trigger] roots.contains_key(t) <==> after.contains_key(t) by {}
    if root::is_reached(roots, q) {
        let t = choose|t: Seq<Seq<u8>>| #[trigger]
            roots.contains_key(t) && root::reaches(t, roots[t].mode, q);
        assert(after.contains_key(t) && after[t].mode == roots[t].mode);
    }
    if root::is_reached(after, q) {
        let t = choose|t: Seq<Seq<u8>>| #[trigger]
            after.contains_key(t) && root::reaches(t, after[t].mode, q);
        assert(roots.contains_key(t) && after[t].mode == roots[t].mode);
    }
}

proof fn lemma_gone(s: LoopView, p: Seq<Seq<u8>>, kind: EventKind)
    ensures
        ({
            let r = s.gone(p).reporting_at(p, kind).forgetting(p);
            &&& is_gone(s, r, p)
            &&& r.reports == and_told(s.reports, s.roots, p, kind)
            &&& r.tasks == s.tasks
            &&& is_all(s, r)
        }),
{
    let r = s.gone(p).reporting_at(p, kind).forgetting(p);
    lemma_told(p);
    root::watched_is_reached(s.roots, p);
    let missing = root::in_state(s.roots, p, RootState::Missing);
    lemma_state_keeps_reach(s.roots, p, RootState::Missing, p);
    root::watched_is_reached(missing, p);
    if s.roots.contains_key(p) {
        assert(missing.remove(p) =~= s.roots.remove(p));
    }
    assert forall|q: Seq<Seq<u8>>| root::is_watched_path(r.roots, q) == root::is_reached(
        r.roots,
        q,
    ) by {
        root::watched_is_reached(r.roots, q);
    }
    assert forall|q: Seq<Seq<u8>>| #[trigger] path::starts_with(q, p) == (q == p || (q.len()
        > p.len() && q.take(p.len() as int) == p)) by {
        if q.len() == p.len() {
            assert(q.take(p.len() as int) =~= q);
        }
        assert(p.take(p.len() as int) =~= p);
    }
    let kept = Set::new(
        |q: Seq<Seq<u8>>| !path::starts_with(q, p) || root::is_watched_path(missing.remove(p), q),
    );
    if s.roots.contains_key(p) && !s.roots[p].mode.tracks_path() {
        assert(r.batch.add == s.batch.add.restrict(kept));
        assert forall|q: Seq<Seq<u8>>| #[trigger]
            r.batch.add.contains_key(q) <==> s.batch.add.contains_key(q) && (q == p || (q.len()
                > p.len() && q.take(p.len() as int) == p) ==> root::is_reached(r.roots, q)) by {
            assert(path::starts_with(q, p) == (q == p || (q.len() > p.len() && q.take(
                p.len() as int,
            ) == p)));
            assert(root::is_watched_path(r.roots, q) == root::is_reached(r.roots, q));
        }
    }
}

/// That the entity at a path was deleted or is out of reach is reported as a removal, and that it
/// was renamed as a rename, where the watch of a root reaches the path. Its handle is stale, and
/// its root goes with it. After a deletion the path is looked at where a root still reaches it, as
/// another entity may have taken its place.
pub proof fn departure_is_reported(s: LoopView, vnode: Vnode, p: Seq<Seq<u8>>, answer: AnswerView)
    requires
        vnode == Vnode::Delete || vnode == Vnode::Rename || vnode == Vnode::Revoke,
    ensures
        ({
            let (r, request) = s.push(Task::Happened { vnode, path: p }).step(answer);
            &&& r.reports == and_told(
                s.reports,
                s.roots,
                p,
                if vnode == Vnode::Rename {
                    EventKind::Modify(ModifyKind::Name(RenameMode::Any))
                } else {
                    EventKind::Remove(RemoveKind::Any)
                },
            )
            &&& is_gone(s, r, p)
            &&& is_all(s, r)
            &&& if vnode == Vnode::Delete && root::is_reached(r.roots, p) {
                request == RequestView::Stat(p) && r.tasks == s.tasks.push(
                    Task::DeleteLooked { path: p },
                )
            } else {
                request == RequestView::Again && r.tasks == s.tasks && r.outcome is Done
            }
        }),
{
    reveal(LoopView::happened);
    assert(s.push(Task::Happened { vnode, path: p }).popped() =~= s);
    let kind = if vnode == Vnode::Rename {
        EventKind::Modify(ModifyKind::Name(RenameMode::Any))
    } else {
        EventKind::Remove(RemoveKind::Any)
    };
    lemma_gone(s, p, kind);
    root::watched_is_reached(s.gone(p).reporting_at(p, kind).forgetting(p).roots, p);
}

/// What changed about an entity is reported as what it was, where the watch of a root reaches the
/// path: its size, what is known of it, or something else. Nothing else changes, but that a
/// directory below a recursive root whose links changed is walked again.
pub proof fn change_is_reported(s: LoopView, vnode: Vnode, p: Seq<Seq<u8>>, answer: AnswerView)
    requires
        vnode == Vnode::Extend || vnode == Vnode::Truncate || vnode == Vnode::Attrib || vnode
            == Vnode::Link,
    ensures
        ({
            let (r, request) = s.push(Task::Happened { vnode, path: p }).step(answer);
            &&& request == RequestView::Again
            &&& r.tasks == s.tasks && r.outcome is Done
            &&& r.reports == and_told(
                s.reports,
                s.roots,
                p,
                if vnode == Vnode::Attrib {
                    EventKind::Modify(ModifyKind::Metadata(MetadataKind::Any))
                } else if vnode == Vnode::Link {
                    EventKind::Modify(ModifyKind::Any)
                } else {
                    EventKind::Modify(ModifyKind::Data(DataChange::Size))
                },
            )
            &&& r.roots == s.roots
            &&& is_all(s, r)
            &&& r.batch == if vnode == Vnode::Link && is_in_tree(s.roots, p) {
                BatchView {
                    rewalk: s.batch.rewalk.push(p),
                    add: s.batch.add.insert(p, Found { is_recursive: true, is_dir: true }),
                    ..s.batch
                }
            } else {
                s.batch
            }
        }),
{
    reveal(LoopView::happened);
    assert(s.push(Task::Happened { vnode, path: p }).popped() =~= s);
    lemma_told(p);
    root::watched_is_reached(s.roots, p);
    lemma_in_tree(s.roots, p);
}

/// Whether `p` is a recursive root or lies below one.
pub open spec fn is_in_tree(roots: Map<Seq<Seq<u8>>, RootWatch>, p: Seq<Seq<u8>>) -> bool {
    exists|r: Seq<Seq<u8>>| #[trigger]
        roots.contains_key(r) && roots[r].mode.recursive_mode == RecursiveMode::Recursive && r.len()
            <= p.len() && p.take(r.len() as int) == r
}

proof fn lemma_in_tree(roots: Map<Seq<Seq<u8>>, RootWatch>, p: Seq<Seq<u8>>)
    ensures
        task::is_recursive_at(roots, p) <==> is_in_tree(roots, p),
{
    if task::is_recursive_at(roots, p) {
        let r = choose|r: Seq<Seq<u8>>| #[trigger]
            roots.contains_key(r) && roots[r].mode.is_recursive() && path::starts_with(p, r);
        assert(roots.contains_key(r) && p.take(r.len() as int) == r);
    }
    if is_in_tree(roots, p) {
        let r = choose|r: Seq<Seq<u8>>| #[trigger]
            roots.contains_key(r) && roots[r].mode.recursive_mode == RecursiveMode::Recursive
                && r.len() <= p.len() && p.take(r.len() as int) == r;
        assert(roots.contains_key(r) && path::starts_with(p, r));
    }
}

/// What is not known is reported as something else that happened, at no path. A write is looked
/// into first.
pub proof fn other_change_is_reported(s: LoopView, p: Seq<Seq<u8>>, answer: AnswerView)
    ensures
        s.push(Task::Happened { vnode: Vnode::Other, path: p }).step(answer) == (
            LoopView {
                reports: s.reports.push(report::told(EventKind::Other, seq![], None)),
                outcome: Outcome::Done,
                ..s
            },
            RequestView::Again,
        ),
        s.push(Task::Happened { vnode: Vnode::Write, path: p }).step(answer) == (
            LoopView { tasks: s.tasks.push(Task::WriteLooked { path: p }), ..s },
            RequestView::Stat(p),
        ),
{
    reveal(LoopView::happened);
    assert(s.push(Task::Happened { vnode: Vnode::Other, path: p }).popped() =~= s);
    assert(s.push(Task::Happened { vnode: Vnode::Write, path: p }).popped() =~= s);
    assert(Seq::<Seq<Seq<u8>>>::empty() =~= seq![]);
}

/// From `s` to `r` the path `p` was found new: it is reported created, as the folder, the file or
/// the other thing that it is, a root there is present, and the batch is to watch it, recursively
/// if it is a recursive root or lies below one.
pub open spec fn is_found(
    s: LoopView,
    r: LoopView,
    p: Seq<Seq<u8>>,
    stat: Result<PathStat, i32>,
) -> bool {
    let is_dir = stat matches Ok(stat) && stat.is_dir;
    let is_file = stat matches Ok(stat) && stat.is_file;
    &&& r.reports == s.reports.push(
        report::told(
            EventKind::Create(
                if is_dir {
                    CreateKind::Folder
                } else if is_file {
                    CreateKind::File
                } else {
                    CreateKind::Other
                },
            ),
            seq![p],
            None,
        ),
    )
    &&& r.roots == with_state(
        s.roots,
        p,
        if is_dir {
            RootState::Directory
        } else {
            RootState::File
        },
    )
    &&& r.batch == BatchView {
        add: s.batch.add.insert(p, Found { is_recursive: is_in_tree(s.roots, p), is_dir }),
        ..s.batch
    }
}

proof fn lemma_found(s: LoopView, p: Seq<Seq<u8>>, stat: Result<PathStat, i32>)
    ensures
        is_found(s, s.found_new(p, stat), p, stat),
        is_all(s, s.found_new(p, stat)),
        s.found_new(p, stat).tasks == s.tasks,
{
    lemma_told(p);
    let state = if task::is_dir_at(stat) {
        RootState::Directory
    } else {
        RootState::File
    };
    let roots = root::in_state(s.roots, p, state);
    lemma_in_tree(s.roots, p);
    lemma_in_tree(roots, p);
    assert(is_in_tree(roots, p) <==> is_in_tree(s.roots, p)) by {
        if is_in_tree(s.roots, p) {
            let t = choose|t: Seq<Seq<u8>>| #[trigger]
                s.roots.contains_key(t) && s.roots[t].mode.recursive_mode
                    == RecursiveMode::Recursive && t.len() <= p.len() && p.take(t.len() as int)
                    == t;
            assert(roots.contains_key(t) && roots[t].mode == s.roots[t].mode);
        }
        if is_in_tree(roots, p) {
            let t = choose|t: Seq<Seq<u8>>| #[trigger]
                roots.contains_key(t) && roots[t].mode.recursive_mode == RecursiveMode::Recursive
                    && t.len() <= p.len() && p.take(t.len() as int) == t;
            assert(s.roots.contains_key(t) && roots[t].mode == s.roots[t].mode);
        }
    }
}

/// Where an entity is at a path that another was deleted from, it is found new.
pub proof fn replacement_is_reported(
    s: LoopView,
    p: Seq<Seq<u8>>,
    stat: Result<PathStat, i32>,
)
    ensures
        ({
            let (r, request) = s.push(Task::DeleteLooked { path: p }).step(Answer::Stat(stat));
            &&& request == RequestView::Again
            &&& r.tasks == s.tasks && r.outcome is Done
            &&& is_all(s, r)
            &&& stat is Ok ==> is_found(s, r, p, stat)
            &&& stat is Err ==> r.reports == s.reports && r.roots == s.roots && r.batch == s.batch
        }),
{
    reveal(LoopView::delete_looked);
    assert(s.push(Task::DeleteLooked { path: p }).popped() =~= s);
    lemma_found(s, p, stat);
}

/// A write to what is no directory is reported as a change of its data. A directory that was
/// written to is listed, unless it is watched only on the way to roots; one on the way to roots is
/// noted, as an ancestor of theirs may have come or gone.
pub proof fn write_is_looked_into(s: LoopView, p: Seq<Seq<u8>>, stat: Result<PathStat, i32>)
    ensures
        ({
            let (r, request) = s.push(Task::WriteLooked { path: p }).step(Answer::Stat(stat));
            let is_dir = stat matches Ok(stat) && stat.is_dir;
            &&& is_all(s, r)
            &&& r.roots == s.roots
            &&& !is_dir ==> request == RequestView::Again && r.tasks == s.tasks && r.outcome is Done
                && r.batch == s.batch && r.reports == and_told(
                s.reports,
                s.roots,
                p,
                EventKind::Modify(ModifyKind::Data(DataChange::Any)),
            )
            &&& is_dir ==> r.reports == s.reports && r.batch == BatchView {
                changed: if root::is_on_the_way(s.roots, p) {
                    s.batch.changed.insert(p)
                } else {
                    s.batch.changed
                },
                ..s.batch
            }
            &&& is_dir ==> if s.handles.contains_key(p) && s.handles[p] {
                request == RequestView::Again && r.tasks == s.tasks && r.outcome is Done
            } else {
                request == RequestView::List(p) && r.tasks == s.tasks.push(
                    Task::Listed { path: p },
                )
            }
        }),
{
    reveal(LoopView::write_looked);
    assert(s.push(Task::WriteLooked { path: p }).popped() =~= s);
    lemma_told(p);
    root::watched_is_reached(s.roots, p);
}

/// Of the entries of a directory that was written to those are looked at, in their order, that have
/// no handle or a stale one. A listing that fails is reported.
pub proof fn unknown_entries_are_scanned(
    s: LoopView,
    p: Seq<Seq<u8>>,
    list: Result<Seq<Seq<Seq<u8>>>, i32>,
)
    ensures
        ({
            let (r, request) = s.push(Task::Listed { path: p }).step(Answer::List(list));
            &&& request == RequestView::Again
            &&& match list {
                Ok(entries) => {
                    &&& r == LoopView { tasks: r.tasks, ..s }
                    &&& exists|files: Seq<Seq<Seq<u8>>>|
                        {
                            &&& r.tasks == s.tasks.push(#[trigger] scanning(p, files))
                            &&& files == entries.filter(
                                |q: Seq<Seq<u8>>|
                                    !s.handles.contains_key(q) || s.batch.stale.contains(q),
                            )
                        }
                },
                Err(errno) => r == LoopView {
                    reports: s.reports.push(
                        ReportView::Error(
                            ErrorView { kind: ErrorKind::Io(errno), paths: seq![] },
                        ),
                    ),
                    outcome: Outcome::Done,
                    ..s
                },
            }
        }),
{
    reveal(LoopView::listed);
    assert(s.push(Task::Listed { path: p }).popped() =~= s);
    assert(Seq::<Seq<Seq<u8>>>::empty() =~= seq![]);
    if let Ok(entries) = list {
        let files = path::chosen(entries, task::is_unknown(s.handles, s.batch.stale));
        lemma_chosen(
            entries,
            task::is_unknown(s.handles, s.batch.stale),
            |q: Seq<Seq<u8>>| !s.handles.contains_key(q) || s.batch.stale.contains(q),
        );
        assert(scanning(p, files) matches Task::Scan { .. });
    }
}

pub open spec fn scanning(p: Seq<Seq<u8>>, files: Seq<Seq<Seq<u8>>>) -> task::TaskView {
    Task::Scan { path: p, files, found: false }
}

/// What is chosen of a list is what is left of it when the rest is filtered out.
proof fn lemma_chosen(
    list: Seq<Seq<Seq<u8>>>,
    a: spec_fn(Seq<Seq<u8>>) -> bool,
    b: spec_fn(Seq<Seq<u8>>) -> bool,
)
    requires
        forall|q: Seq<Seq<u8>>| #[trigger] a(q) == b(q),
    ensures
        path::chosen(list, a) == list.filter(b),
    decreases list.len(),
{
    reveal(Seq::filter);
    if list.len() > 0 {
        lemma_chosen(list.drop_last(), a, b);
    }
}

/// The entries to look at are looked at one after the other. One that the batch found already
/// counts as found. Where there was none to look at, the write is reported as a change of the
/// directory.
pub proof fn scan_goes_on(
    s: LoopView,
    p: Seq<Seq<u8>>,
    files: Seq<Seq<Seq<u8>>>,
    found: bool,
    answer: AnswerView,
)
    ensures
        ({
            let (r, request) = s.push(Task::Scan { path: p, files, found }).step(answer);
            &&& is_all(s, r) && r.roots == s.roots && r.batch == s.batch
            &&& files.len() == 0 ==> request == RequestView::Again && r.tasks == s.tasks
                && r.outcome is Done && r.reports == if found {
                s.reports
            } else {
                and_told(
                    s.reports,
                    s.roots,
                    p,
                    EventKind::Modify(ModifyKind::Data(DataChange::Any)),
                )
            }
            &&& files.len() > 0 ==> r.reports == s.reports && if s.batch.add.contains_key(
                files[0],
            ) {
                request == RequestView::Again && r.tasks == s.tasks.push(
                    Task::Scan { path: p, files: files.drop_first(), found: true },
                )
            } else {
                request == RequestView::Stat(files[0]) && r.tasks == s.tasks.push(
                    Task::ScanLooked { path: p, file: files[0], files: files.drop_first() },
                )
            }
        }),
{
    reveal(LoopView::scan);
    assert(s.push(Task::Scan { path: p, files, found }).popped() =~= s);
    lemma_told(p);
    root::watched_is_reached(s.roots, p);
}

/// A new entry of a directory that was written to is reported created, and is to be watched, where
/// the watch of a root reaches it: it is a root, it lies in one, or it lies below a recursive one.
/// An entry that no root reaches is passed over.
pub proof fn new_entry_is_reported(
    s: LoopView,
    p: Seq<Seq<u8>>,
    file: Seq<Seq<u8>>,
    files: Seq<Seq<Seq<u8>>>,
    stat: Result<PathStat, i32>,
)
    ensures
        ({
            let (r, request) = s.push(Task::ScanLooked { path: p, file, files }).step(
                Answer::Stat(stat),
            );
            &&& request == RequestView::Again
            &&& is_all(s, r)
            &&& root::is_reached(s.roots, file) ==> is_found(s, r, file, stat) && r.tasks
                == s.tasks && r.outcome is Done
            &&& !root::is_reached(s.roots, file) ==> r == LoopView {
                tasks: s.tasks.push(Task::Scan { path: p, files, found: true }),
                ..s
            }
        }),
{
    reveal(LoopView::scan_looked);
    assert(s.push(Task::ScanLooked { path: p, file, files }).popped() =~= s);
    root::watched_is_reached(s.roots, file);
    lemma_found(s, file, stat);
}

} // verus!
