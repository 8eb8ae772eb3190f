//! What is watched, and what becomes of the events of a stream.

use crate::config::WatchMode;
use crate::event;
use crate::event::{Event, EventView};
use crate::fsevent::roots;
use crate::fsevent::roots::{GoneRootsState, GoneView, Stat, Went};
use crate::fsevent::translate;
use crate::fsevent::translate::{
    translate_flags, translated_event_count, RootChange, StreamFlags, IS_DIR, IS_FILE, ITEM_CREATED,
    ITEM_REMOVED, ITEM_RENAMED, ROOT_CHANGED,
};
use crate::path;
use crate::path::PathBuf;
use crate::path_map;
use crate::path_map::PathMap;
use vstd::prelude::*;

verus! {

/// The flags of an item that went or came.
pub const ITEM_MOVED: u32 = ITEM_CREATED | ITEM_REMOVED | ITEM_RENAMED;

/// The flags of an item that went without coming.
pub const ITEM_WENT: u32 = ITEM_REMOVED | ITEM_RENAMED;

/// The flags that say that roots below the path may have gone or come.
pub const ROOTS_MOVED: u32 = ROOT_CHANGED | ITEM_CREATED | ITEM_REMOVED | ITEM_RENAMED;

/// Whether the watch of `w` covers `path`.
pub open spec fn watch_covers(mode: WatchMode, w: Seq<Seq<u8>>, path: Seq<Seq<u8>>) -> bool {
    path::starts_with(path, w) && (mode.is_recursive() || path == w || path::parent(path) == Some(
        w,
    ))
}

/// Whether an event at `path` is handled: a watch covers it.
pub open spec fn is_handled(
    watches: Map<Seq<Seq<u8>>, WatchMode>,
    path: Seq<Seq<u8>>,
) -> bool {
    exists|w: Seq<Seq<u8>>| #[trigger]
        watches.contains_key(w) && watch_covers(watches[w], w, path)
}

/// Whether `path` is a root whose path is tracked.
pub open spec fn is_tracked(
    watches: Map<Seq<Seq<u8>>, WatchMode>,
    path: Seq<Seq<u8>>,
) -> bool {
    watches.contains_key(path) && watches[path].tracks_path()
}

/// The roots below `path` whose path is tracked.
pub open spec fn all_below(
    watches: Map<Seq<Seq<u8>>, WatchMode>,
    path: Seq<Seq<u8>>,
) -> Set<Seq<Seq<u8>>> {
    watches.dom().filter(
        |root: Seq<Seq<u8>>|
            is_tracked(watches, root) && root != path && path::starts_with(root, path),
    )
}

/// The tracked roots below `path`, in their order.
pub open spec fn tracked_below(
    watches: Map<Seq<Seq<u8>>, WatchMode>,
    path: Seq<Seq<u8>>,
) -> Seq<Seq<Seq<u8>>> {
    path_map::in_order(all_below(watches, path))
}

/// Whether the roots below the path of an event are looked at: a directory above them went or
/// came, or a stream path changed. A file has nothing below it.
pub open spec fn looks_below(flags: StreamFlags) -> bool {
    flags.has_any(ROOTS_MOVED) && (!flags.has(IS_FILE) || flags.has(IS_DIR))
}

/// What a `ROOT_CHANGED` event at `path` says about that root, as the disk has it.
pub open spec fn change_of_root(
    gone: GoneView,
    path: Seq<Seq<u8>>,
    flags: StreamFlags,
    tracking: bool,
    stat: Option<Stat>,
    now: u64,
) -> (GoneView, RootChange) {
    match stat {
        Some(stat) => if tracking && gone.roots.contains_key(path) {
            (
                if flags.has(ITEM_CREATED) {
                    gone.not_gone(path)
                } else {
                    gone.not_gone(path).mark_created(path, stat.id, now)
                },
                RootChange::Present { is_dir: stat.is_dir },
            )
        } else {
            (gone, RootChange::Reported)
        },
        None => if !tracking {
            (gone, RootChange::Gone)
        } else if gone.how(path) == Some(Went::RootChange) {
            (gone.went(path), RootChange::StillGone)
        } else {
            (gone.went(path), RootChange::Gone)
        },
    }
}

/// The state after a tracked root's own event, and whether the creation that the event carries was
/// reported already.
pub open spec fn own_event(
    gone: GoneView,
    path: Seq<Seq<u8>>,
    flags: StreamFlags,
    stat: Option<Stat>,
    now: u64,
) -> (GoneView, bool) {
    if !flags.has_any(ITEM_MOVED) {
        (gone, false)
    } else {
        let id = match stat {
            Some(stat) => Some(stat.id),
            None => None,
        };
        let unmarked = gone.unmarked(path);
        (
            if stat is Some {
                unmarked.not_gone(path)
            } else if flags.has_any(ITEM_WENT) && !gone.roots.contains_key(path) {
                GoneView { roots: gone.roots.insert(path, Went::OwnEvent), ..unmarked }
            } else {
                unmarked
            },
            flags.has(ITEM_CREATED) && gone.was_reported(path, id, now),
        )
    }
}

/// What is reported of an event itself, given the state after the roots below it were looked at.
pub open spec fn own_report(
    watches: Map<Seq<Seq<u8>>, WatchMode>,
    gone: GoneView,
    path: Seq<Seq<u8>>,
    flags: StreamFlags,
    stat: Option<Stat>,
    now: u64,
    process_id: u32,
) -> (GoneView, Seq<EventView>) {
    let tracking = is_tracked(watches, path);
    if !is_handled(watches, path) || translate::translated(
        flags,
        true,
        None,
        false,
        process_id,
    ).len() == 0 {
        (gone, Seq::empty())
    } else if flags.has(ROOT_CHANGED) {
        let (after, root) = change_of_root(gone, path, flags, tracking, stat, now);
        (
            after,
            at_path(translate::translated(flags, true, Some(root), false, process_id), path),
        )
    } else {
        let (after, reported) = if tracking {
            own_event(gone, path, flags, stat, now)
        } else {
            (gone, false)
        };
        (after, at_path(translate::translated(flags, true, None, reported, process_id), path))
    }
}

/// The events, with `path` added to each.
pub open spec fn at_path(events: Seq<EventView>, path: Seq<Seq<u8>>) -> Seq<EventView> {
    events.map_values(|event: EventView| event.with_path(path))
}

/// What is reported of an event of the stream, and the state after it. `below` is what the disk
/// says of the tracked roots below the path, `own` what it says of the path.
pub open spec fn reported(
    watches: Map<Seq<Seq<u8>>, WatchMode>,
    gone: GoneView,
    path: Seq<Seq<u8>>,
    flags: StreamFlags,
    below: Seq<Option<Stat>>,
    own: Option<Stat>,
    now: u64,
    process_id: u32,
) -> (GoneView, Seq<EventView>) {
    let (after, events) = if looks_below(flags) {
        roots::looked_at_all(gone, tracked_below(watches, path), below, now)
    } else {
        (gone, Seq::empty())
    };
    let (last, own_events) = own_report(watches, after, path, flags, own, now, process_id);
    (last, events + own_events)
}

/// The tracked roots below `path`.
pub fn roots_below(watches: &PathMap<WatchMode>, path: &PathBuf) -> (roots: Vec<PathBuf>)
    requires
        watches.wf(),
    ensures
        path::views(roots@) == tracked_below(watches@, path@),
{
    let (start, end) = watches.below(path);
    let ghost keys = watches.keys();
    let ghost wanted = all_below(watches@, path@);
    proof {
        watches.lemma_entries();
    }
    let mut roots: Vec<PathBuf> = Vec::new();
    let mut i: usize = start;
    assert(path::views(roots@) =~= Seq::empty());
    while i < end
        invariant
            watches.wf(),
            keys == watches.keys(),
            path_map::sorted(keys),
            start <= i <= end <= keys.len(),
            forall|k: int|
                0 <= k < keys.len() ==> watches@.contains_key(#[trigger] keys[k])
                    && watches@[keys[k]] == watches.value(k),
            forall|k: int|
                0 <= k < keys.len() ==> (path::starts_with(#[trigger] keys[k], path@) <==> start
                    <= k < end),
            wanted == all_below(watches@, path@),
            path_map::sorted(path::views(roots@)),
            forall|k: int|
                0 <= k < roots@.len() ==> wanted.contains(#[trigger] path::views(roots@)[k])
                    && exists|j: int| 0 <= j < i && #[trigger] keys[j] == path::views(roots@)[k],
            forall|j: int|
                start <= j < i && wanted.contains(#[trigger] keys[j]) ==> path::views(
                    roots@,
                ).contains(keys[j]),
        decreases end - i,
    {
        let root = watches.key_at(i);
        let ghost before = path::views(roots@);
        if watches.value_at(i).tracks() && !root.same(path) {
            let root = root.clone();
            proof {
                path::lemma_views_push(roots@, root);
                let after = before.push(root@);
                assert(wanted.contains(keys[i as int]));
                assert forall|a: int, b: int| 0 <= a < b < after.len() implies path::path_before(
                    #[trigger] after[a],
                    #[trigger] after[b],
                ) by {
                    if b == before.len() {
                        assert(wanted.contains(before[a]));
                        let j = choose|j: int| 0 <= j < i && #[trigger] keys[j] == before[a];
                        assert(path::path_before(keys[j], keys[i as int]));
                    } else {
                        assert(path::path_before(before[a], before[b]));
                    }
                }
                assert forall|k: int| 0 <= k < after.len() implies wanted.contains(
                    #[trigger] after[k],
                ) && exists|j: int| 0 <= j < i + 1 && #[trigger] keys[j] == after[k] by {
                    if k < before.len() {
                        assert(wanted.contains(before[k]));
                        let j = choose|j: int| 0 <= j < i && #[trigger] keys[j] == before[k];
                        assert(keys[j] == after[k]);
                    } else {
                        assert(keys[i as int] == after[k]);
                    }
                }
                assert forall|j: int| start <= j < i + 1 && wanted.contains(
                    #[trigger] keys[j],
                ) implies after.contains(keys[j]) by {
                    if j < i {
                        let k = choose|k: int| 0 <= k < before.len() && before[k] == keys[j];
                        assert(after[k] == keys[j]);
                    } else {
                        assert(after[before.len() as int] == keys[j]);
                    }
                }
            }
            roots.push(root);
        } else {
            assert(!wanted.contains(keys[i as int]));
        }
        i = i + 1;
    }
    proof {
        let list = path::views(roots@);
        assert(list.to_set() =~= wanted) by {
            assert forall|p: Seq<Seq<u8>>| #[trigger] list.to_set().contains(p) == wanted.contains(
                p,
            ) by {
                if list.contains(p) {
                    let k = choose|k: int| 0 <= k < list.len() && list[k] == p;
                    assert(wanted.contains(list[k]));
                }
                if wanted.contains(p) {
                    assert(watches@.contains_key(p));
                    let j = choose|j: int| 0 <= j < keys.len() && #[trigger] keys[j] == p;
                    assert(list.contains(keys[j]));
                }
            }
        }
        path_map::lemma_in_order(list);
    }
    roots
}

/// Whether a watch covers `path`.
pub fn handles(watches: &PathMap<WatchMode>, path: &PathBuf) -> (r: bool)
    requires
        watches.wf(),
    ensures
        r == is_handled(watches@, path@),
{
    let floor: usize = path.floor();
    let mut n: usize = path.len();
    loop
        invariant
            watches.wf(),
            n <= path@.len(),
            floor == path::floor(path@),
            forall|k: int|
                n < k <= path@.len() && #[trigger] watches@.contains_key(path@.take(k))
                    ==> !watch_covers(watches@[path@.take(k)], path@.take(k), path@),
        decreases n,
    {
        let ghost w = path@.take(n as int);
        if let Some(mode) = watches.get_prefix(path, n) {
            proof {
                assert(path::starts_with(path@, w));
                assert((path@ == w) == (n == path@.len())) by {
                    assert(path@.take(path@.len() as int) =~= path@);
                }
                assert((path::parent(path@) == Some(w)) == (n + 1 == path@.len() && n >= floor)) by {
                    if n + 1 == path@.len() {
                        assert(path@.drop_last() =~= w);
                    }
                }
            }
            if mode.recursive() || n == path.len() || (n + 1 == path.len() && n >= floor) {
                assert(watches@.contains_key(w) && watch_covers(watches@[w], w, path@));
                return true;
            }
        }
        if n == 0 {
            proof {
                if is_handled(watches@, path@) {
                    let v = choose|v: Seq<Seq<u8>>| #[trigger]
                        watches@.contains_key(v) && watch_covers(watches@[v], v, path@);
                    assert(path@.take(v.len() as int) == v);
                    if v.len() == 0 {
                        assert(v =~= w);
                    }
                }
            }
            return false;
        }
        n = n - 1;
    }
}

/// What the disk has to be asked about an event.
pub struct Looks {
    /// The roots below the path.
    pub below: Vec<PathBuf>,
    /// Whether the path itself.
    pub own: bool,
}

/// Whether what is reported of an event rests on what the disk says of its path.
pub open spec fn looks_at_path(
    watches: Map<Seq<Seq<u8>>, WatchMode>,
    path: Seq<Seq<u8>>,
    flags: StreamFlags,
) -> bool {
    &&& is_handled(watches, path)
    &&& flags.has(ROOT_CHANGED) || (is_tracked(watches, path) && flags.has_any(ITEM_MOVED))
}

/// What the disk has to be asked about an event at `path`.
pub fn looks(watches: &PathMap<WatchMode>, path: &PathBuf, flags: &StreamFlags) -> (looks: Looks)
    requires
        watches.wf(),
    ensures
        path::views(looks.below@) == (if looks_below(*flags) {
            tracked_below(watches@, path@)
        } else {
            Seq::empty()
        }),
        looks.own == looks_at_path(watches@, path@, *flags),
{
    let below = if flags.intersects(ROOTS_MOVED) && (!flags.contains(IS_FILE) || flags.contains(
        IS_DIR,
    )) {
        roots_below(watches, path)
    } else {
        let none: Vec<PathBuf> = Vec::new();
        assert(path::views(none@) =~= Seq::empty());
        none
    };
    let own = handles(watches, path) && (flags.contains(ROOT_CHANGED) || (tracks(watches, path)
        && flags.intersects(ITEM_MOVED)));
    Looks { below, own }
}

/// What the disk says of a path on which nothing rests does not matter.
pub proof fn unasked_does_not_matter(
    watches: Map<Seq<Seq<u8>>, WatchMode>,
    gone: GoneView,
    path: Seq<Seq<u8>>,
    flags: StreamFlags,
    a: Option<Stat>,
    b: Option<Stat>,
    now: u64,
    process_id: u32,
)
    requires
        !looks_at_path(watches, path, flags),
    ensures
        own_report(watches, gone, path, flags, a, now, process_id) == own_report(
            watches,
            gone,
            path,
            flags,
            b,
            now,
            process_id,
        ),
{
}

/// An event that no watch covers reports nothing of its own path.
pub proof fn uncovered_is_not_reported(
    watches: Map<Seq<Seq<u8>>, WatchMode>,
    gone: GoneView,
    path: Seq<Seq<u8>>,
    flags: StreamFlags,
    stat: Option<Stat>,
    now: u64,
    process_id: u32,
)
    requires
        !is_handled(watches, path),
    ensures
        own_report(watches, gone, path, flags, stat, now, process_id) == (
            gone,
            Seq::<EventView>::empty(),
        ),
{
}

/// An event that a watch covers is reported as its flags say, under its path, unless the creation it
/// carries was reported already.
pub proof fn covered_is_reported(
    watches: Map<Seq<Seq<u8>>, WatchMode>,
    gone: GoneView,
    path: Seq<Seq<u8>>,
    flags: StreamFlags,
    stat: Option<Stat>,
    now: u64,
    process_id: u32,
)
    requires
        is_handled(watches, path),
        !flags.has(ROOT_CHANGED),
        is_tracked(watches, path) ==> !own_event(gone, path, flags, stat, now).1,
    ensures
        own_report(watches, gone, path, flags, stat, now, process_id).1 == at_path(
            translate::translated(flags, true, None, false, process_id),
            path,
        ),
{
    let events = translate::translated(flags, true, None, false, process_id);
    if events.len() == 0 {
        assert(at_path(events, path) =~= Seq::empty());
    }
}

fn tracks(watches: &PathMap<WatchMode>, path: &PathBuf) -> (r: bool)
    requires
        watches.wf(),
    ensures
        r == is_tracked(watches@, path@),
{
    match watches.get(path) {
        Some(mode) => mode.tracks(),
        None => false,
    }
}

/// What a `ROOT_CHANGED` event at `path` says about that root. A root that is not tracked has
/// nothing to say while it is there: the change was its own, and its own events report it. Says
/// too whether a looking thread has to be started.
pub fn root_change(
    gone: &mut GoneRootsState,
    path: &PathBuf,
    flags: &StreamFlags,
    tracking: bool,
    stat: Option<Stat>,
    now: u64,
) -> (r: (RootChange, bool))
    requires
        old(gone).wf(),
    ensures
        final(gone).wf(),
        (final(gone)@, r.0) == change_of_root(old(gone)@, path@, *flags, tracking, stat, now),
        r.1 == (!old(gone)@.looking && final(gone)@.looking),
{
    match stat {
        Some(stat) => {
            if !tracking {
                return (RootChange::Reported, false);
            }
            if gone.is_gone(path) {
                gone.is_there(path);
                // Flags that carry the root's own creation report it; no event is left to use
                // a mark up.
                if !flags.contains(ITEM_CREATED) {
                    gone.mark_created(path.clone(), stat.id, now);
                }
                (RootChange::Present { is_dir: stat.is_dir }, false)
            } else {
                (RootChange::Reported, false)
            }
        },
        // A root seen to go by its own event only is reported as changed all the same, whichever
        // of the two FSEvents sends first.
        None => {
            if !tracking {
                return (RootChange::Gone, false);
            }
            let (how, start) = gone.went(path);
            match how {
                Some(Went::RootChange) => (RootChange::StillGone, start),
                _ => (RootChange::Gone, start),
            }
        },
    }
}

/// A tracked root's own event, which may be the root going or coming back: FSEvents does not
/// always say so through `ROOT_CHANGED`, and never for a root that is not a stream path of its
/// own, so the event is the report. Says whether the creation the event carries was reported
/// already, from the disk.
///
/// The root's first own event since its coming back was reported uses the mark up, whatever it
/// says: it may be a deletion handled once the root is back, and the next creation is then a new
/// one. The creation the event carries is the one reported only while the root is still the file
/// that was there.
pub fn root_seen(
    gone: &mut GoneRootsState,
    path: &PathBuf,
    flags: &StreamFlags,
    stat: Option<Stat>,
    now: u64,
) -> (reported: bool)
    requires
        old(gone).wf(),
    ensures
        final(gone).wf(),
        (final(gone)@, reported) == own_event(old(gone)@, path@, *flags, stat, now),
{
    if !flags.intersects(ITEM_MOVED) {
        return false;
    }
    let id = match stat {
        Some(stat) => Some(stat.id),
        None => None,
    };
    let reported = gone.take_created(path, id, now);
    if stat.is_some() {
        gone.is_there(path);
    } else if flags.intersects(ITEM_WENT) {
        gone.went_by_its_own_event(path);
    }
    assert(gone@ =~= own_event(old(gone)@, path@, *flags, stat, now).0);
    flags.contains(ITEM_CREATED) && reported
}

/// Adds `path` to each of `events`.
fn add_path_to_all(events: Vec<Event>, path: &PathBuf) -> (r: Vec<Event>)
    ensures
        event::views(r@) == at_path(event::views(events@), path@),
{
    let ghost all = event::views(events@);
    let mut events = events;
    let mut done: Vec<Event> = Vec::new();
    assert(event::views(done@) =~= at_path(all.take(0), path@));
    while events.len() > 0
        invariant
            events@.len() + done@.len() == all.len(),
            event::views(events@) == all.skip(done@.len() as int),
            event::views(done@) == at_path(all.take(done@.len() as int), path@),
        decreases events@.len(),
    {
        let ghost n = done@.len() as int;
        let ghost before = event::views(events@);
        let event = events.remove(0);
        assert(event@ == before[0]);
        assert(event::views(events@) =~= before.skip(1));
        assert(before.skip(1) =~= all.skip(n + 1));
        assert(all.take(n + 1) =~= all.take(n).push(all[n]));
        assert(at_path(all.take(n + 1), path@) =~= at_path(all.take(n), path@).push(
            all[n].with_path(path@),
        ));
        event::push_event(&mut done, event.add_path(path.clone()));
    }
    assert(all.take(done@.len() as int) =~= all);
    done
}

/// Handles an event of the stream at `path`. `below` is what the disk says of the roots below the
/// path that have to be looked at, `own` what it says of the path. Returns the events to report, and
/// whether a looking thread has to be started.
pub fn handle_event(
    watches: &PathMap<WatchMode>,
    gone: &mut GoneRootsState,
    path: &PathBuf,
    flags: &StreamFlags,
    below: &Vec<Option<Stat>>,
    own: Option<Stat>,
    now: u64,
    process_id: u32,
) -> (r: (Vec<Event>, bool))
    requires
        watches.wf(),
        old(gone).wf(),
        looks_below(*flags) ==> below@.len() == tracked_below(watches@, path@).len(),
    ensures
        final(gone).wf(),
        (final(gone)@, event::views(r.0@)) == reported(
            watches@,
            old(gone)@,
            path@,
            *flags,
            below@,
            own,
            now,
            process_id,
        ),
        r.1 == (!old(gone)@.looking && final(gone)@.looking),
{
    let ghost before = gone@;
    let looking = gone.is_looking();
    let mut events: Vec<Event> = Vec::new();
    assert(event::views(events@) =~= Seq::empty());
    if flags.intersects(ROOTS_MOVED) && (!flags.contains(IS_FILE) || flags.contains(IS_DIR)) {
        let roots = roots_below(watches, path);
        assert(roots@.len() == path::views(roots@).len());
        let (looked, _) = gone.check_roots(&roots, below, now);
        events = looked;
    }
    let ghost after = gone@;
    let ghost told = event::views(events@);
    if !handles(watches, path) || translated_event_count(flags, true) == 0 {
        assert(translate::translated(*flags, true, None, false, process_id).len() == 0
            || !is_handled(watches@, path@));
        assert(told =~= told + Seq::<EventView>::empty());
        return (events, !looking && gone.is_looking());
    }
    assert(translate::translated(*flags, true, None, false, process_id).len() != 0);
    let tracking = tracks(watches, path);
    let translated = if flags.contains(ROOT_CHANGED) {
        let (root, _) = root_change(gone, path, flags, tracking, own, now);
        translate_flags(flags, true, Some(root), false, process_id)
    } else {
        let reported = tracking && root_seen(gone, path, flags, own, now);
        translate_flags(flags, true, None, reported, process_id)
    };
    let mut own_events = add_path_to_all(translated, path);
    let ghost more = event::views(own_events@);
    let ghost first = events@;
    events.append(&mut own_events);
    assert(event::views(events@) =~= told + more);
    (events, !looking && gone.is_looking())
}

} // verus!
