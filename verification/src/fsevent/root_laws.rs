//! What becomes of the roots that go and come back, and of the events of a stream.

use crate::config::{RecursiveMode, TargetMode, WatchMode};
use crate::event::{CreateKind, EventAttributes, EventKind, EventView, RemoveKind};
use crate::fsevent::flag_laws;
use crate::fsevent::flag_laws::is_set;
use crate::fsevent::roots;
use crate::fsevent::roots::{FileId, GoneView, Stat, Went};
use crate::fsevent::translate;
use crate::fsevent::translate::{
    RootChange, StreamFlags, HISTORY_DONE, IS_DIR, IS_FILE, ITEM_CREATED, ITEM_REMOVED,
    ITEM_RENAMED, ROOT_CHANGED,
};
use crate::fsevent::watcher;
use crate::path;
use crate::path_map;
use vstd::prelude::*;

verus! {

/// An event of `kind` at the root, told because the root changed.
pub open spec fn root_event(kind: EventKind, root: Seq<Seq<u8>>) -> EventView {
    EventView {
        kind,
        paths: seq![root],
        attrs: EventAttributes {
            tracker: None,
            flag: None,
            info: Some("root changed"),
            process_id: None,
        },
    }
}

/// What is told of a root that the disk was asked about: that it went if it was there, and that it
/// is back, as a folder or a file, if it was gone.
pub open spec fn told_of(was_gone: bool, stat: Option<Stat>, root: Seq<Seq<u8>>) -> Seq<EventView> {
    match stat {
        Some(stat) => if !was_gone {
            seq![]
        } else if stat.is_dir {
            seq![root_event(EventKind::Create(CreateKind::Folder), root)]
        } else {
            seq![root_event(EventKind::Create(CreateKind::File), root)]
        },
        None => if was_gone {
            seq![]
        } else {
            seq![root_event(EventKind::Remove(RemoveKind::Any), root)]
        },
    }
}

/// How many nanoseconds after `at` it is at `now`, at least 0.
pub open spec fn age(now: u64, at: u64) -> int {
    if now < at {
        0
    } else {
        now - at
    }
}

/// How long the mark of a creation stands: two seconds.
pub open spec fn is_old(now: u64, at: u64) -> bool {
    age(now, at) >= 2_000_000_000
}

/// From `a` to `b` the root went by a root change: it is gone, no mark stands for it, and a looking
/// thread runs from then on unless the watcher stopped.
pub open spec fn has_gone(a: GoneView, b: GoneView, root: Seq<Seq<u8>>) -> bool {
    &&& b.roots == a.roots.insert(root, Went::RootChange)
    &&& b.created_reported == a.created_reported.remove(root)
    &&& b.pruned_at == a.pruned_at
    &&& b.epoch == if a.epoch == u64::MAX {
        0
    } else {
        a.epoch + 1
    }
    &&& b.looking == (a.looking || !a.stopped)
    &&& b.stopped == a.stopped
}

/// From `a` to `b` the creation of the root as the file `id` was marked as reported. The marks that
/// are old are dropped then, unless that was done a moment ago.
pub open spec fn is_marked(
    a: GoneView,
    b: GoneView,
    root: Seq<Seq<u8>>,
    id: FileId,
    now: u64,
) -> bool {
    let prunes = a.pruned_at matches Some(at) ==> is_old(now, at);
    &&& b.roots == a.roots && b.epoch == a.epoch && b.looking == a.looking && b.stopped == a.stopped
    &&& b.pruned_at == if prunes {
        Some(now)
    } else {
        a.pruned_at
    }
    &&& b.created_reported.contains_key(root) && b.created_reported[root] == (now, id)
    &&& forall|q: Seq<Seq<u8>>|
        q != root ==> (#[trigger] b.created_reported.contains_key(q)
            <==> a.created_reported.contains_key(q) && !(prunes && is_old(
            now,
            a.created_reported[q].0,
        )))
    &&& forall|q: Seq<Seq<u8>>|
        q != root && #[trigger] b.created_reported.contains_key(q) ==> b.created_reported[q]
            == a.created_reported[q]
}

/// From `a` to `b` the root is known to be there.
pub open spec fn is_back(a: GoneView, b: GoneView, root: Seq<Seq<u8>>) -> bool {
    b == GoneView { roots: a.roots.remove(root), ..a }
}

/// A root that goes and a creation that is marked are recorded, and change nothing else.
pub proof fn going_and_marking_are_recorded(
    gone: GoneView,
    root: Seq<Seq<u8>>,
    id: FileId,
    now: u64,
)
    ensures
        has_gone(gone, gone.went(root), root),
        is_marked(gone, gone.mark_created(root, id, now), root, id, now),
        is_back(gone, gone.not_gone(root), root),
        gone.unmarked(root) == (GoneView {
            created_reported: gone.created_reported.remove(root),
            ..gone
        }),
        gone.forgotten(root) == (GoneView {
            roots: gone.roots.remove(root),
            created_reported: gone.created_reported.remove(root),
            ..gone
        }),
        gone.how(root) == if gone.roots.contains_key(root) {
            Some(gone.roots[root])
        } else {
            None
        },
        gone.starts_looking() <==> !gone.looking && !gone.stopped,
{
    let b = gone.mark_created(root, id, now);
    assert(gone.prunes(now) <==> (gone.pruned_at matches Some(at) ==> is_old(now, at)));
    assert forall|q: Seq<Seq<u8>>| q != root implies (#[trigger] b.created_reported.contains_key(q)
        <==> gone.created_reported.contains_key(q) && !(gone.prunes(now) && is_old(
        now,
        gone.created_reported[q].0,
    ))) by {
        assert(roots::stale(now, gone.created_reported[q].0) == is_old(
            now,
            gone.created_reported[q].0,
        ));
    }
}

/// A creation counts as reported where a mark of the root stands that is not old, and the root is
/// still the file that it was made for.
pub proof fn mark_stands_for_its_file(
    gone: GoneView,
    root: Seq<Seq<u8>>,
    id: Option<FileId>,
    now: u64,
)
    ensures
        gone.was_reported(root, id, now) <==> {
            &&& gone.created_reported.contains_key(root)
            &&& !is_old(now, gone.created_reported[root].0)
            &&& id == Some(gone.created_reported[root].1)
        },
{
}

/// A root that the disk was asked about is told of where it went or came back, and recorded so: one
/// that is not there is gone, whatever was known, and one that was gone and is there is back, with
/// a mark for its creation.
pub proof fn looked_at_root_is_told(
    gone: GoneView,
    root: Seq<Seq<u8>>,
    stat: Option<Stat>,
    now: u64,
)
    ensures
        gone.reports(root, stat) == told_of(gone.roots.contains_key(root), stat, root),
        ({
            let after = gone.looked_at(root, stat, now);
            match stat {
                Some(stat) => if gone.roots.contains_key(root) {
                    exists|back: GoneView| #[trigger]
                        is_back(gone, back, root) && is_marked(back, after, root, stat.id, now)
                } else {
                    after == gone
                },
                None => has_gone(gone, after, root),
            }
        }),
{
    assert(Seq::<Seq<Seq<u8>>>::empty().push(root) =~= seq![root]);
    assert(Seq::<EventView>::empty() =~= seq![]);
    going_and_marking_are_recorded(gone, root, FileId { dev: 0, ino: 0 }, now);
    if let Some(stat) = stat {
        let back = gone.not_gone(root);
        going_and_marking_are_recorded(back, root, stat.id, now);
        assert(is_back(gone, back, root));
    }
}

proof fn lemma_looked_at(
    gone: GoneView,
    roots: Seq<Seq<Seq<u8>>>,
    stats: Seq<Option<Stat>>,
    now: u64,
)
    requires
        roots.no_duplicates(),
        stats.len() == roots.len(),
    ensures
        ({
            let (after, _) = roots::looked_at_all(gone, roots, stats, now);
            &&& forall|q: Seq<Seq<u8>>|
                !roots.contains(q) ==> #[trigger] after.roots.contains_key(q)
                    == gone.roots.contains_key(q)
            &&& forall|i: int|
                0 <= i < roots.len() ==> after.roots.contains_key(#[trigger] roots[i]) == (
                stats[i] is None)
        }),
    decreases roots.len(),
{
    if roots.len() > 0 {
        let shorter = roots.drop_last();
        let last = roots.last();
        let (before, _) = roots::looked_at_all(gone, shorter, stats.drop_last(), now);
        let (after, _) = roots::looked_at_all(gone, roots, stats, now);
        lemma_looked_at(gone, shorter, stats.drop_last(), now);
        assert(!shorter.contains(last)) by {
            if shorter.contains(last) {
                let i = shorter.index_of(last);
                assert(roots[i] == roots[roots.len() - 1]);
            }
        }
        assert(before.roots.contains_key(last) == gone.roots.contains_key(last));
        assert forall|q: Seq<Seq<u8>>| q != last implies #[trigger] after.roots.contains_key(q)
            == before.roots.contains_key(q) by {}
        assert(after.roots.contains_key(last) == (stats.last() is None));
        assert forall|q: Seq<Seq<u8>>| !roots.contains(q) implies #[trigger]
            after.roots.contains_key(q) == gone.roots.contains_key(q) by {
            assert(roots.contains(last)) by {
                assert(roots[roots.len() - 1] == last);
            }
            assert(!shorter.contains(q)) by {
                if shorter.contains(q) {
                    assert(roots[shorter.index_of(q)] == q);
                }
            }
        }
        assert forall|i: int| 0 <= i < roots.len() implies after.roots.contains_key(
            #[trigger] roots[i],
        ) == (stats[i] is None) by {
            if i < shorter.len() {
                assert(shorter[i] == roots[i]);
                assert(roots[i] != last) by {
                    assert(roots[roots.len() - 1] == last);
                }
                assert(stats.drop_last()[i] == stats[i]);
            }
        }
    }
}

/// Several roots that the disk was asked about are told of in turn, each as if it was the only one,
/// and exactly those that are not there are gone afterwards.
pub proof fn looked_at_roots_are_told(
    gone: GoneView,
    roots: Seq<Seq<Seq<u8>>>,
    stats: Seq<Option<Stat>>,
    now: u64,
)
    requires
        roots.no_duplicates(),
        stats.len() == roots.len(),
    ensures
        ({
            let (after, events) = roots::looked_at_all(gone, roots, stats, now);
            &&& events == Seq::new(
                roots.len(),
                |i: int| told_of(gone.roots.contains_key(roots[i]), stats[i], roots[i]),
            ).flatten()
            &&& forall|q: Seq<Seq<u8>>|
                !roots.contains(q) ==> #[trigger] after.roots.contains_key(q)
                    == gone.roots.contains_key(q)
            &&& forall|i: int|
                0 <= i < roots.len() ==> after.roots.contains_key(#[trigger] roots[i]) == (
                stats[i] is None)
        }),
    decreases roots.len(),
{
    lemma_looked_at(gone, roots, stats, now);
    let told = Seq::new(
        roots.len(),
        |i: int| told_of(gone.roots.contains_key(roots[i]), stats[i], roots[i]),
    );
    told.lemma_flatten_and_flatten_alt_are_equivalent();
    if roots.len() > 0 {
        let shorter = roots.drop_last();
        let last = roots.last();
        let fewer = Seq::new(
            shorter.len(),
            |i: int|
                told_of(gone.roots.contains_key(shorter[i]), stats.drop_last()[i], shorter[i]),
        );
        let (before, events) = roots::looked_at_all(gone, shorter, stats.drop_last(), now);
        looked_at_roots_are_told(gone, shorter, stats.drop_last(), now);
        fewer.lemma_flatten_and_flatten_alt_are_equivalent();
        assert(told.drop_last() =~= fewer);
        assert(!shorter.contains(last)) by {
            if shorter.contains(last) {
                let i = shorter.index_of(last);
                assert(roots[i] == roots[roots.len() - 1]);
            }
        }
        assert(before.roots.contains_key(last) == gone.roots.contains_key(last));
        looked_at_root_is_told(before, last, stats.last(), now);
        assert(told.last() == before.reports(last, stats.last()));
        assert(told.flatten_alt() == fewer.flatten_alt() + told.last());
    } else {
        assert(told.flatten_alt() =~= Seq::empty());
    }
}

/// Whether one of `watches` covers `p`: it is watched, it lies in what is watched, or it lies
/// anywhere below what is watched recursively.
pub open spec fn is_covered(watches: Map<Seq<Seq<u8>>, WatchMode>, p: Seq<Seq<u8>>) -> bool {
    exists|w: Seq<Seq<u8>>| #[trigger]
        watches.contains_key(w) && (p == w || (p.len() > w.len() && p.take(w.len() as int) == w && (
        watches[w].recursive_mode == RecursiveMode::Recursive || (p.len() == w.len() + 1 && (w.len()
            > 0 || p[0] != seq![47u8])))))
}

/// Whether `list` holds the watched paths below `p` that are tracked, in their order.
pub open spec fn lists_tracked(
    watches: Map<Seq<Seq<u8>>, WatchMode>,
    p: Seq<Seq<u8>>,
    list: Seq<Seq<Seq<u8>>>,
) -> bool {
    &&& path_map::sorted(list)
    &&& forall|q: Seq<Seq<u8>>| #[trigger]
        list.contains(q) <==> {
            &&& watches.contains_key(q)
            &&& watches[q].target_mode == TargetMode::TrackPath
            &&& q.len() > p.len() && q.take(p.len() as int) == p
        }
}

/// Whether an event says that what is below its path may have gone or come: the root changed, or
/// the item was created, removed or renamed, and it is not a file.
pub open spec fn stirs_below(flags: StreamFlags) -> bool {
    &&& is_set(flags, ROOT_CHANGED) || is_set(flags, ITEM_CREATED) || is_set(flags, ITEM_REMOVED)
        || is_set(flags, ITEM_RENAMED)
    &&& is_set(flags, IS_FILE) ==> is_set(flags, IS_DIR)
}

/// Whether an event says that its item was created, removed or renamed.
pub open spec fn is_moved(flags: StreamFlags) -> bool {
    is_set(flags, ITEM_CREATED) || is_set(flags, ITEM_REMOVED) || is_set(flags, ITEM_RENAMED)
}

proof fn lemma_any(flags: StreamFlags)
    ensures
        flags.has_any(watcher::ROOTS_MOVED) <==> is_set(flags, ROOT_CHANGED) || is_moved(flags),
        flags.has_any(watcher::ITEM_MOVED) <==> is_moved(flags),
        flags.has_any(watcher::ITEM_WENT) <==> is_set(flags, ITEM_REMOVED) || is_set(
            flags,
            ITEM_RENAMED,
        ),
{
    let bits = flags.bits;
    assert((bits & (ROOT_CHANGED | ITEM_CREATED | ITEM_REMOVED | ITEM_RENAMED) != 0) == (bits
        & ROOT_CHANGED == ROOT_CHANGED || bits & ITEM_CREATED == ITEM_CREATED || bits & ITEM_REMOVED
        == ITEM_REMOVED || bits & ITEM_RENAMED == ITEM_RENAMED) && (bits & (ITEM_CREATED
        | ITEM_REMOVED | ITEM_RENAMED) != 0) == (bits & ITEM_CREATED == ITEM_CREATED || bits
        & ITEM_REMOVED == ITEM_REMOVED || bits & ITEM_RENAMED == ITEM_RENAMED) && (bits & (
    ITEM_REMOVED | ITEM_RENAMED) != 0) == (bits & ITEM_REMOVED == ITEM_REMOVED || bits
        & ITEM_RENAMED == ITEM_RENAMED)) by (bit_vector);
}

/// Which events are handled, which roots are below a path, and what the disk is asked about: the
/// tracked roots below the path of an event that stirs what is below, and the path itself where the
/// root changed, or where it is a tracked root that came or went.
pub proof fn disk_is_asked_where_it_matters(
    watches: Map<Seq<Seq<u8>>, WatchMode>,
    p: Seq<Seq<u8>>,
    flags: StreamFlags,
)
    requires
        watches.dom().finite(),
    ensures
        watcher::is_handled(watches, p) <==> is_covered(watches, p),
        lists_tracked(watches, p, watcher::tracked_below(watches, p)),
        watcher::looks_below(flags) <==> stirs_below(flags),
        watcher::looks_at_path(watches, p, flags) <==> is_covered(watches, p) && (is_set(
            flags,
            ROOT_CHANGED,
        ) || (watches.contains_key(p) && watches[p].target_mode == TargetMode::TrackPath
            && is_moved(flags))),
{
    lemma_any(flags);
    assert(path::root_dir() =~= seq![47u8]);
    if watcher::is_handled(watches, p) {
        let w = choose|w: Seq<Seq<u8>>| #[trigger]
            watches.contains_key(w) && watcher::watch_covers(watches[w], w, p);
        if p.len() == w.len() {
            assert(p.take(w.len() as int) =~= p);
        }
        assert(watches.contains_key(w) && p.take(w.len() as int) == w);
    }
    if is_covered(watches, p) {
        let w = choose|w: Seq<Seq<u8>>| #[trigger]
            watches.contains_key(w) && (p == w || (p.len() > w.len() && p.take(w.len() as int) == w
                && (watches[w].recursive_mode == RecursiveMode::Recursive || (p.len() == w.len() + 1
                && (w.len() > 0 || p[0] != seq![47u8])))));
        if p == w {
            assert(p.take(w.len() as int) =~= w);
        } else if p.len() == w.len() + 1 {
            assert(p.drop_last() =~= p.take(w.len() as int));
        }
        assert(watcher::watch_covers(watches[w], w, p));
    }
    let wanted = watcher::all_below(watches, p);
    let list = watcher::tracked_below(watches, p);
    path_map::lemma_order(wanted);
    assert forall|q: Seq<Seq<u8>>| #[trigger]
        list.contains(q) <==> {
            &&& watches.contains_key(q)
            &&& watches[q].target_mode == TargetMode::TrackPath
            &&& q.len() > p.len() && q.take(p.len() as int) == p
        } by {
        assert(list.to_set().contains(q) == wanted.contains(q));
        if q.len() == p.len() {
            assert(q.take(p.len() as int) =~= q);
        }
    }
}

/// The path is a root that is tracked.
pub open spec fn is_tracked_root(
    watches: Map<Seq<Seq<u8>>, WatchMode>,
    p: Seq<Seq<u8>>,
) -> bool {
    watches.contains_key(p) && watches[p].target_mode == TargetMode::TrackPath
}

/// What a change of the root at `p` comes to. One that is there has nothing to say unless it is
/// tracked and was gone: then it is back, and marked unless the flags carry its creation. One that
/// is not there went, and is recorded so if it is tracked. It has nothing to say where a root
/// change said so before.
pub proof fn changed_root_is_told(
    gone: GoneView,
    p: Seq<Seq<u8>>,
    flags: StreamFlags,
    tracking: bool,
    stat: Option<Stat>,
    now: u64,
)
    ensures
        ({
            let (after, change) = watcher::change_of_root(gone, p, flags, tracking, stat, now);
            match stat {
                Some(stat) => if tracking && gone.roots.contains_key(p) {
                    &&& change == RootChange::Present { is_dir: stat.is_dir }
                    &&& is_set(flags, ITEM_CREATED) ==> is_back(gone, after, p)
                    &&& !is_set(flags, ITEM_CREATED) ==> exists|back: GoneView| #[trigger]
                        is_back(gone, back, p) && is_marked(back, after, p, stat.id, now)
                } else {
                    after == gone && change == RootChange::Reported
                },
                None => if tracking {
                    &&& has_gone(gone, after, p)
                    &&& change == if gone.roots.contains_key(p) && gone.roots[p]
                        == Went::RootChange {
                        RootChange::StillGone
                    } else {
                        RootChange::Gone
                    }
                } else {
                    after == gone && change == RootChange::Gone
                },
            }
        }),
{
    going_and_marking_are_recorded(gone, p, FileId { dev: 0, ino: 0 }, now);
    if let Some(stat) = stat {
        let back = gone.not_gone(p);
        going_and_marking_are_recorded(back, p, stat.id, now);
        assert(is_back(gone, back, p));
    }
}

/// What a tracked root's own event comes to: its mark is used up, and it is known to be there or to
/// have gone as the disk says. An event that moves nothing changes nothing. The creation that the
/// event carries counts as reported where the mark stands for the file.
pub proof fn own_event_uses_mark(
    gone: GoneView,
    p: Seq<Seq<u8>>,
    flags: StreamFlags,
    stat: Option<Stat>,
    now: u64,
)
    ensures
        ({
            let (after, reported) = watcher::own_event(gone, p, flags, stat, now);
            let went = is_set(flags, ITEM_REMOVED) || is_set(flags, ITEM_RENAMED);
            &&& !is_moved(flags) ==> after == gone && !reported
            &&& is_moved(flags) ==> after == GoneView {
                roots: if stat is Some {
                    gone.roots.remove(p)
                } else if went && !gone.roots.contains_key(p) {
                    gone.roots.insert(p, Went::OwnEvent)
                } else {
                    gone.roots
                },
                created_reported: gone.created_reported.remove(p),
                ..gone
            }
            &&& reported <==> is_set(flags, ITEM_CREATED) && gone.created_reported.contains_key(p)
                && !is_old(now, gone.created_reported[p].0) && (stat matches Some(stat) && stat.id
                == gone.created_reported[p].1)
        }),
{
    lemma_any(flags);
}

/// The events that are told of a path each carry that path alone.
pub open spec fn are_at(
    events: Seq<EventView>,
    told: Seq<EventView>,
    p: Seq<Seq<u8>>,
) -> bool {
    &&& events.len() == told.len()
    &&& forall|i: int|
        0 <= i < told.len() ==> #[trigger] events[i] == EventView { paths: seq![p], ..told[i] }
}

/// What an event of the stream comes to at its own path: nothing where no watch covers it or it
/// ends the history. Else what its flags say is told under the path: with what became of the root
/// where it changed, and without the creation of a tracked root that was reported already.
pub proof fn event_is_told_at_its_path(
    watches: Map<Seq<Seq<u8>>, WatchMode>,
    gone: GoneView,
    p: Seq<Seq<u8>>,
    flags: StreamFlags,
    stat: Option<Stat>,
    now: u64,
    process_id: u32,
)
    requires
        watches.dom().finite(),
    ensures
        ({
            let (after, events) = watcher::own_report(
                watches,
                gone,
                p,
                flags,
                stat,
                now,
                process_id,
            );
            let tracking = is_tracked_root(watches, p);
            let said = |root: Option<RootChange>, reported: bool|
                translate::translated(flags, true, root, reported, process_id);
            if !is_covered(watches, p) || is_set(flags, HISTORY_DONE) {
                after == gone && events.len() == 0
            } else if is_set(flags, ROOT_CHANGED) {
                let change = watcher::change_of_root(gone, p, flags, tracking, stat, now);
                after == change.0 && are_at(events, said(Some(change.1), false), p)
            } else if tracking {
                let own = watcher::own_event(gone, p, flags, stat, now);
                after == own.0 && are_at(events, said(None, own.1), p)
            } else {
                after == gone && are_at(events, said(None, false), p)
            }
        }),
{
    disk_is_asked_where_it_matters(watches, p, flags);
    let (after, events) = watcher::own_report(watches, gone, p, flags, stat, now, process_id);
    let none = translate::translated(flags, true, None, false, process_id);
    lemma_any(flags);
    assert forall|told: Seq<EventView>, i: int|
        0 <= i < told.len() && told[i].paths.len() == 0 implies #[trigger] watcher::at_path(
        told,
        p,
    )[i] == (EventView { paths: seq![p], ..told[i] }) by {
        assert(told[i].paths =~= Seq::empty());
        assert(told[i].with_path(p).paths =~= seq![p]);
    }
    if !is_set(flags, HISTORY_DONE) {
        lemma_said_somewhere(flags, process_id);
        lemma_paths(flags, None, false, process_id);
        lemma_paths(flags, None, true, process_id);
        let change = watcher::change_of_root(
            gone,
            p,
            flags,
            is_tracked_root(watches, p),
            stat,
            now,
        );
        lemma_paths(flags, Some(change.1), false, process_id);
        if none.len() == 0 {
            translate::count_is_a_bound(flags, true, None, true, process_id);
            own_event_uses_mark(gone, p, flags, stat, now);
        }
    }
}

/// What the flags say carries no path yet.
proof fn lemma_paths(
    flags: StreamFlags,
    root: Option<RootChange>,
    create_reported: bool,
    process_id: u32,
)
    requires
        !is_set(flags, HISTORY_DONE),
    ensures
        forall|i: int|
            0 <= i < translate::translated(flags, true, root, create_reported, process_id).len()
                ==> (#[trigger] translate::translated(
                flags,
                true,
                root,
                create_reported,
                process_id,
            )[i]).paths.len() == 0,
{
    let all = translate::translated(flags, true, root, create_reported, process_id);
    assert forall|i: int| 0 <= i < all.len() implies (#[trigger] all[i]).paths.len() == 0 by {
        assert(all.contains(all[i]));
        flag_laws::kinds_come_from_flags(flags, root, create_reported, process_id, all[i]);
    }
}

/// A change of the root and a move of the item are told.
proof fn lemma_said_somewhere(flags: StreamFlags, process_id: u32)
    requires
        !is_set(flags, HISTORY_DONE),
    ensures
        is_set(flags, ROOT_CHANGED) || is_moved(flags) ==> translate::translated(
            flags,
            true,
            None,
            false,
            process_id,
        ).len() > 0,
{
    flag_laws::each_flag_is_told(flags, None, false, process_id);
}

/// An event of the stream comes to what became of the tracked roots below its path, where it stirs
/// them, and then to what it says of its own path.
pub proof fn event_is_told_below_and_at_its_path(
    watches: Map<Seq<Seq<u8>>, WatchMode>,
    gone: GoneView,
    p: Seq<Seq<u8>>,
    flags: StreamFlags,
    below: Seq<Option<Stat>>,
    own: Option<Stat>,
    now: u64,
    process_id: u32,
)
    requires
        watches.dom().finite(),
        below.len() == watcher::tracked_below(watches, p).len(),
    ensures
        ({
            let (after, events) = watcher::reported(
                watches,
                gone,
                p,
                flags,
                below,
                own,
                now,
                process_id,
            );
            let (between, first) = if stirs_below(flags) {
                roots::looked_at_all(gone, watcher::tracked_below(watches, p), below, now)
            } else {
                (gone, Seq::empty())
            };
            let (last, second) = watcher::own_report(
                watches,
                between,
                p,
                flags,
                own,
                now,
                process_id,
            );
            after == last && events == first + second
        }),
{
    disk_is_asked_where_it_matters(watches, p, flags);
}

} // verus!
