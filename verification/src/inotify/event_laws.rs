//! What each event of inotify comes to: what is reported of it, what becomes of the roots, and
//! what it asks for.

use crate::config::{RecursiveMode, TargetMode};
use crate::event::{
    AccessKind, AccessMode, CreateKind, DataChange, EventAttributes, EventKind, EventView, Flag,
    MetadataKind, ModifyKind, RemoveKind, RenameMode,
};
use crate::inotify::mask;
use crate::inotify::mask::{
    ATTRIB, CLOSE_NOWRITE, CLOSE_WRITE, CREATE, DELETE, DELETE_SELF, IGNORED, ISDIR, MODIFY,
    MOVED_FROM, MOVED_TO, MOVE_SELF, OPEN, Q_OVERFLOW, UNMOUNT,
};
use crate::inotify::reading;
use crate::inotify::reading::{
    AddView, ChangesView, FileStat, QueuedView, ReadingView, SpellingView,
};
use crate::inotify::table::Handle;
use crate::report;
use crate::report::ReportView;
use crate::root;
use crate::root::{RootState, RootWatch};
use vstd::prelude::*;

verus! {

/// `reports` and, where `p` is reached by the watch of a root, an event of `kind` there.
pub open spec fn and_told(
    reports: Seq<ReportView>,
    roots: Map<Seq<Seq<u8>>, RootWatch>,
    p: Seq<Seq<u8>>,
    kind: EventKind,
    tracker: Option<usize>,
) -> Seq<ReportView> {
    if root::is_reached(roots, p) {
        reports.push(report::told(kind, seq![p], tracker))
    } else {
        reports
    }
}

/// `list` and, where `condition` holds, `p`.
pub open spec fn and_listed(
    list: Seq<Seq<Seq<u8>>>,
    condition: bool,
    p: Seq<Seq<u8>>,
) -> Seq<Seq<Seq<u8>>> {
    if condition {
        list.push(p)
    } else {
        list
    }
}

/// From `before` to `after` the root at `p`, if there is one, came to be in the state `state`, and
/// nothing else changed in the table.
pub open spec fn is_only_change(
    before: ReadingView,
    after: ReadingView,
    p: Seq<Seq<u8>>,
    state: RootState,
) -> bool {
    &&& after.table.handles == before.table.handles
    &&& after.table.bound == before.table.bound
    &&& after.table.armed == before.table.armed
    &&& forall|q: Seq<Seq<u8>>| #[trigger]
        after.table.roots.contains_key(q) <==> before.table.roots.contains_key(q)
    &&& forall|q: Seq<Seq<u8>>| #[trigger]
        after.table.roots.contains_key(q) ==> after.table.roots[q].mode
            == before.table.roots[q].mode && after.table.roots[q].state == if q == p {
            state
        } else {
            before.table.roots[q].state
        }
}

/// Whether what was at `p` had a watch of its own that goes with it: a handle, or a root that does
/// not track its path.
pub open spec fn had_own_watch(r: ReadingView, p: Seq<Seq<u8>>) -> bool {
    r.table.handles.contains_key(p) || (r.table.roots.contains_key(p)
        && r.table.roots[p].mode.target_mode == TargetMode::NoTrack)
}

/// How the entry at `p` that appeared is to be watched: as the root there asks, else as the root it
/// lies in asks, else recursively, as a root further up asks.
pub open spec fn is_entry_watch(
    r: ReadingView,
    p: Seq<Seq<u8>>,
    is_file_without_hardlinks: bool,
    add: AddView,
) -> bool {
    let roots = r.table.roots;
    &&& add.path == p
    &&& add.is_file_without_hardlinks == is_file_without_hardlinks
    &&& add.is_recursive == if roots.contains_key(p) {
        roots[p].mode.recursive_mode == RecursiveMode::Recursive
    } else if p.len() > 0 && root::reaches(p.drop_last(), roots[p.drop_last()].mode, p)
        && roots.contains_key(p.drop_last()) {
        roots[p.drop_last()].mode.recursive_mode == RecursiveMode::Recursive
    } else {
        true
    }
}

/// What an event that an entry came to `p` asks for: the entry is to be watched where the watch of
/// a root reaches it, and the roots below a directory are to be armed.
pub open spec fn asks_to_watch(
    r: ReadingView,
    after: ReadingView,
    p: Seq<Seq<u8>>,
    is_dir: bool,
    said_dir: bool,
    stat: Option<FileStat>,
) -> bool {
    let is_plain = !said_dir && (stat matches Some(stat) && stat.is_file && stat.nlink == 1);
    let entries = after.changes.entry_watches;
    &&& root::is_reached(r.table.roots, p) ==> entries.len() == r.changes.entry_watches.len() + 1
        && entries.drop_last() == r.changes.entry_watches && is_entry_watch(
        r,
        p,
        is_plain,
        entries.last(),
    )
    &&& !root::is_reached(r.table.roots, p) ==> entries == r.changes.entry_watches
    &&& after.changes == ChangesView {
        entry_watches: entries,
        appeared: and_listed(
            r.changes.appeared,
            is_dir && root::is_on_the_way(r.table.roots, p),
            p,
        ),
        ..r.changes
    }
}

/// An event of one kind says nothing of the other kinds.
proof fn lemma_alone(m: u32, bit: u32)
    requires
        bit == MOVED_FROM || bit == MOVED_TO || bit == MOVE_SELF || bit == CREATE || bit == DELETE
            || bit == DELETE_SELF || bit == UNMOUNT || bit == MODIFY || bit == CLOSE_WRITE || bit
            == CLOSE_NOWRITE || bit == ATTRIB || bit == OPEN,
        m == bit || m == bit | ISDIR,
    ensures
        mask::has(m, MOVED_FROM) <==> bit == MOVED_FROM,
        mask::has(m, MOVED_TO) <==> bit == MOVED_TO,
        mask::has(m, MOVE_SELF) <==> bit == MOVE_SELF,
        mask::has(m, CREATE) <==> bit == CREATE,
        mask::has(m, DELETE) <==> bit == DELETE,
        mask::has(m, DELETE_SELF) <==> bit == DELETE_SELF,
        mask::has(m, UNMOUNT) <==> bit == UNMOUNT,
        mask::has(m, MODIFY) <==> bit == MODIFY,
        mask::has(m, CLOSE_WRITE) <==> bit == CLOSE_WRITE,
        mask::has(m, CLOSE_NOWRITE) <==> bit == CLOSE_NOWRITE,
        mask::has(m, ATTRIB) <==> bit == ATTRIB,
        mask::has(m, OPEN) <==> bit == OPEN,
        mask::has(m, ISDIR) <==> m != bit,
{
    assert((bit == MOVED_FROM || bit == MOVED_TO || bit == MOVE_SELF || bit == CREATE || bit
        == DELETE || bit == DELETE_SELF || bit == UNMOUNT || bit == MODIFY || bit == CLOSE_WRITE
        || bit == CLOSE_NOWRITE || bit == ATTRIB || bit == OPEN) && (m == bit || m == bit | ISDIR)
        ==> ((m & MOVED_FROM == MOVED_FROM) == (bit == MOVED_FROM)) && ((m & MOVED_TO == MOVED_TO)
        == (bit == MOVED_TO)) && ((m & MOVE_SELF == MOVE_SELF) == (bit == MOVE_SELF)) && ((m
        & CREATE == CREATE) == (bit == CREATE)) && ((m & DELETE == DELETE) == (bit == DELETE))
        && ((m & DELETE_SELF == DELETE_SELF) == (bit == DELETE_SELF)) && ((m & UNMOUNT == UNMOUNT)
        == (bit == UNMOUNT)) && ((m & MODIFY == MODIFY) == (bit == MODIFY)) && ((m & CLOSE_WRITE
        == CLOSE_WRITE) == (bit == CLOSE_WRITE)) && ((m & CLOSE_NOWRITE == CLOSE_NOWRITE) == (bit
        == CLOSE_NOWRITE)) && ((m & ATTRIB == ATTRIB) == (bit == ATTRIB)) && ((m & OPEN == OPEN)
        == (bit == OPEN)) && ((m & ISDIR == ISDIR) == (m != bit))) by (bit_vector);
}

proof fn lemma_told(p: Seq<Seq<u8>>)
    ensures
        forall|kind: EventKind|
            ReportView::Event(#[trigger] EventView::new(kind).with_path(p)) == report::told(
                kind,
                seq![p],
                None,
            ),
{
    assert(Seq::<Seq<Seq<u8>>>::empty().push(p) =~= seq![p]);
}

/// An entry that was created is reported as a folder or a file, and is to be watched as the root
/// whose watch reaches it asks. A root there is present, and a directory on the way to roots has
/// them armed.
pub proof fn created_entry_is_reported(
    r: ReadingView,
    m: u32,
    cookie: u32,
    p: Seq<Seq<u8>>,
    stat: Option<FileStat>,
)
    requires
        m == CREATE || m == CREATE | ISDIR,
    ensures
        ({
            let after = r.event_at(m, cookie, p, stat);
            let said_dir = m != CREATE;
            let is_dir = said_dir || (root::is_on_the_way(r.table.roots, p) && (stat matches Some(
                stat,
            ) && stat.is_dir));
            &&& after.reports == and_told(
                r.reports,
                r.table.roots,
                p,
                EventKind::Create(
                    if said_dir {
                        CreateKind::Folder
                    } else {
                        CreateKind::File
                    },
                ),
                None,
            )
            &&& is_only_change(
                r,
                after,
                p,
                if is_dir {
                    RootState::Directory
                } else {
                    RootState::File
                },
            )
            &&& asks_to_watch(r, after, p, is_dir, said_dir, stat)
            &&& after.rename_from == r.rename_from
        }),
{
    lemma_alone(m, CREATE);
    root::watched_is_reached(r.table.roots, p);
    let after = r.event_at(m, cookie, p, stat);
    lemma_told(p);
    lemma_entry_watch(r, p, m == CREATE && reading::plain(stat));
    assert(after.changes.entry_watches.drop_last() =~= r.changes.entry_watches
        || after.changes.entry_watches == r.changes.entry_watches);
}

proof fn lemma_entry_watch(r: ReadingView, p: Seq<Seq<u8>>, is_plain: bool)
    ensures
        reading::wanted(r.table, p, is_plain) is Some <==> root::is_reached(r.table.roots, p),
        reading::wanted(r.table, p, is_plain) matches Some(add) ==> is_entry_watch(
            r,
            p,
            is_plain,
            add,
        ),
{
    let roots = r.table.roots;
    root::watched_is_reached(roots, p);
    if p.len() > 0 {
        let parent = p.drop_last();
        assert(p.take(parent.len() as int) =~= parent);
        assert(crate::path::root_dir() =~= seq![47u8]);
        if crate::path::has_parent(p) {
            assert(root::reaches(parent, roots[parent].mode, p));
        } else {
            assert(parent.len() == 0 && p[0] == seq![47u8]);
            assert(parent != p);
            assert(!root::reaches(parent, roots[parent].mode, p));
        }
    }
}

/// An entry that was deleted is reported as a folder or a file, and a watch of its own goes. A root
/// there is missing, and the roots below it are cut off.
pub proof fn deleted_entry_is_reported(
    r: ReadingView,
    m: u32,
    cookie: u32,
    p: Seq<Seq<u8>>,
    stat: Option<FileStat>,
)
    requires
        m == DELETE || m == DELETE | ISDIR,
    ensures
        ({
            let after = r.event_at(m, cookie, p, stat);
            let roots = r.table.roots;
            &&& after.reports == and_told(
                r.reports,
                roots,
                p,
                EventKind::Remove(
                    if m != DELETE {
                        RemoveKind::Folder
                    } else {
                        RemoveKind::File
                    },
                ),
                None,
            )
            &&& is_only_change(r, after, p, RootState::Missing)
            &&& after.changes == ChangesView {
                remove_watches: and_listed(r.changes.remove_watches, had_own_watch(r, p), p),
                vanished: and_listed(r.changes.vanished, root::is_on_the_way(roots, p), p),
                ..r.changes
            }
            &&& after.rename_from == r.rename_from
        }),
{
    lemma_alone(m, DELETE);
    lemma_told(p);
    root::watched_is_reached(r.table.roots, p);
}

/// That a watched path is deleted itself is reported as a folder or a file, as its handle says, and
/// its watch goes. A root there is missing.
pub proof fn deleted_self_is_reported(
    r: ReadingView,
    m: u32,
    cookie: u32,
    p: Seq<Seq<u8>>,
    stat: Option<FileStat>,
)
    requires
        m == DELETE_SELF || m == DELETE_SELF | ISDIR,
    ensures
        ({
            let after = r.event_at(m, cookie, p, stat);
            &&& after.reports == and_told(
                r.reports,
                r.table.roots,
                p,
                EventKind::Remove(
                    if !r.table.handles.contains_key(p) {
                        RemoveKind::Other
                    } else if r.table.handles[p].is_dir {
                        RemoveKind::Folder
                    } else {
                        RemoveKind::File
                    },
                ),
                None,
            )
            &&& is_only_change(r, after, p, RootState::Missing)
            &&& after.changes == ChangesView {
                remove_watches: and_listed(r.changes.remove_watches, had_own_watch(r, p), p),
                ..r.changes
            }
            &&& after.rename_from == r.rename_from
        }),
{
    lemma_alone(m, DELETE_SELF);
    lemma_told(p);
    let missing = r.in_state(p, RootState::Missing);
    lemma_state_keeps_reach(r.table.roots, p, RootState::Missing, p);
    root::watched_is_reached(r.table.roots, p);
    root::watched_is_reached(missing.table.roots, p);
}

/// That a file system goes is reported, and the watch goes without being removed again. A root
/// there is missing, and the roots below it are cut off.
pub proof fn unmount_is_reported(
    r: ReadingView,
    m: u32,
    cookie: u32,
    p: Seq<Seq<u8>>,
    stat: Option<FileStat>,
)
    requires
        m == UNMOUNT || m == UNMOUNT | ISDIR,
    ensures
        ({
            let after = r.event_at(m, cookie, p, stat);
            let roots = r.table.roots;
            &&& after.reports == and_told(
                r.reports,
                roots,
                p,
                EventKind::Remove(RemoveKind::Other),
                None,
            )
            &&& is_only_change(r, after, p, RootState::Missing)
            &&& after.changes == ChangesView {
                remove_watches_no_syscall: and_listed(
                    r.changes.remove_watches_no_syscall,
                    had_own_watch(r, p),
                    p,
                ),
                vanished: and_listed(r.changes.vanished, root::is_on_the_way(roots, p), p),
                ..r.changes
            }
            &&& after.rename_from == r.rename_from
        }),
{
    lemma_alone(m, UNMOUNT);
    lemma_told(p);
    root::watched_is_reached(r.table.roots, p);
}

/// That an entry moved away is reported with what ties it to where it comes, and a watch of its own
/// goes. A root there is missing, and the roots below it are cut off. The path is kept for the
/// entry to be paired with, beside those that left with the same cookie.
pub proof fn moved_away_is_reported(
    r: ReadingView,
    m: u32,
    cookie: u32,
    p: Seq<Seq<u8>>,
    stat: Option<FileStat>,
)
    requires
        m == MOVED_FROM || m == MOVED_FROM | ISDIR,
    ensures
        ({
            let after = r.event_at(m, cookie, p, stat);
            let roots = r.table.roots;
            &&& after.reports == and_told(
                r.reports,
                roots,
                p,
                EventKind::Modify(ModifyKind::Name(RenameMode::From)),
                Some(cookie as usize),
            )
            &&& is_only_change(r, after, p, RootState::Missing)
            &&& after.changes == ChangesView {
                remove_watches: and_listed(r.changes.remove_watches, had_own_watch(r, p), p),
                vanished: and_listed(r.changes.vanished, root::is_on_the_way(roots, p), p),
                ..r.changes
            }
            &&& after.rename_from == Some(
                (
                    cookie,
                    match r.rename_from {
                        Some((earlier, from)) => if earlier == cookie {
                            from.push(p)
                        } else {
                            seq![p]
                        },
                        None => seq![p],
                    },
                ),
            )
        }),
{
    lemma_alone(m, MOVED_FROM);
    lemma_told(p);
    root::watched_is_reached(r.table.roots, p);
    let event = EventView::new(
        EventKind::Modify(ModifyKind::Name(RenameMode::From)),
    ).with_path(p);
    assert(event.paths == seq![p]);
}

/// That a watched path moved itself is reported, and its watch goes. A root there is missing.
pub proof fn moved_self_is_reported(
    r: ReadingView,
    m: u32,
    cookie: u32,
    p: Seq<Seq<u8>>,
    stat: Option<FileStat>,
)
    requires
        m == MOVE_SELF || m == MOVE_SELF | ISDIR,
    ensures
        ({
            let after = r.event_at(m, cookie, p, stat);
            &&& after.reports == and_told(
                r.reports,
                r.table.roots,
                p,
                EventKind::Modify(ModifyKind::Name(RenameMode::From)),
                None,
            )
            &&& is_only_change(r, after, p, RootState::Missing)
            &&& after.changes == ChangesView {
                remove_watches: and_listed(r.changes.remove_watches, had_own_watch(r, p), p),
                ..r.changes
            }
            &&& after.rename_from == r.rename_from
        }),
{
    lemma_alone(m, MOVE_SELF);
    lemma_told(p);
    lemma_state_keeps_reach(r.table.roots, p, RootState::Missing, p);
    root::watched_is_reached(r.table.roots, p);
    root::watched_is_reached(r.in_state(p, RootState::Missing).table.roots, p);
}

/// Which roots reach a path rests on their modes alone.
proof fn lemma_state_keeps_reach(
    roots: Map<Seq<Seq<u8>>, RootWatch>,
    p: Seq<Seq<u8>>,
    state: RootState,
    q: Seq<Seq<u8>>,
)
    ensures
        root::is_reached(root::in_state(roots, p, state), q) <==> root::is_reached(roots, q),
{
    let after = root::in_state(roots, p, state);
    assert forall|t: Seq<Seq<u8>>| #[trigger] roots.contains_key(t) <==> after.contains_key(t) by {}
    if root::is_reached(roots, q) {
        let t = choose|t: Seq<Seq<u8>>| #[trigger]
            roots.contains_key(t) && root::reaches(t, roots[t].mode, q);
        assert(after.contains_key(t) && after[t].mode == roots[t].mode);
    }
    if root::is_reached(after, q) {
        let t = choose|t: Seq<Seq<u8>>| #[trigger]
            after.contains_key(t) && root::reaches(t, after[t].mode, q);
        assert(roots.contains_key(t) && after[t].mode == roots[t].mode);
    }
}

/// What happened at a watched path is reported as what it was, and changes nothing.
pub proof fn touch_is_reported(
    r: ReadingView,
    bit: u32,
    m: u32,
    cookie: u32,
    p: Seq<Seq<u8>>,
    stat: Option<FileStat>,
)
    requires
        bit == MODIFY || bit == CLOSE_WRITE || bit == CLOSE_NOWRITE || bit == ATTRIB || bit == OPEN,
        m == bit || m == bit | ISDIR,
    ensures
        ({
            let after = r.event_at(m, cookie, p, stat);
            &&& after.reports == and_told(
                r.reports,
                r.table.roots,
                p,
                if bit == MODIFY {
                    EventKind::Modify(ModifyKind::Data(DataChange::Any))
                } else if bit == CLOSE_WRITE {
                    EventKind::Access(AccessKind::Close(AccessMode::Write))
                } else if bit == CLOSE_NOWRITE {
                    EventKind::Access(AccessKind::Close(AccessMode::Read))
                } else if bit == ATTRIB {
                    EventKind::Modify(ModifyKind::Metadata(MetadataKind::Any))
                } else {
                    EventKind::Access(AccessKind::Open(AccessMode::Any))
                },
                None,
            )
            &&& after.table == r.table
            &&& after.changes == r.changes
            &&& after.rename_from == r.rename_from
        }),
{
    lemma_alone(m, bit);
    lemma_told(p);
    root::watched_is_reached(r.table.roots, p);
}

/// Whether the first `n` components of both paths are the same.
pub open spec fn agree(a: Seq<Seq<u8>>, b: Seq<Seq<u8>>, n: int) -> bool {
    0 <= n <= a.len() && n <= b.len() && a.take(n) == b.take(n)
}

/// Whether the entry that came to `to` is paired with `from[k]`: it is watched, no watched path of
/// `from` shares more with `to`, and none before it as much.
pub open spec fn is_pair(
    roots: Map<Seq<Seq<u8>>, RootWatch>,
    from: Seq<Seq<Seq<u8>>>,
    to: Seq<Seq<u8>>,
    k: int,
) -> bool {
    &&& 0 <= k < from.len()
    &&& root::is_reached(roots, from[k])
    &&& forall|j: int, n: int|
        0 <= j < from.len() && root::is_reached(roots, #[trigger] from[j]) && #[trigger] agree(
            from[j],
            to,
            n,
        ) ==> agree(from[k], to, n)
    &&& forall|j: int|
        0 <= j < k && root::is_reached(roots, #[trigger] from[j]) ==> exists|n: int| #[trigger]
            agree(from[k], to, n) && !agree(from[j], to, n)
}

proof fn lemma_agree(a: Seq<Seq<u8>>, b: Seq<Seq<u8>>, n: int)
    ensures
        agree(a, b, n) <==> 0 <= n <= reading::shared(a, b),
{
    let most = reading::shared(a, b) as int;
    assert(a.take(0) =~= b.take(0));
    reading::shared_is_longest(a, b, 0);
    if agree(a, b, n) {
        reading::shared_is_longest(a, b, n);
    }
    if 0 <= n <= most {
        assert(a.take(n) =~= a.take(most).take(n));
        assert(b.take(n) =~= b.take(most).take(n));
    }
}

proof fn lemma_nearest(r: ReadingView, from: Seq<Seq<Seq<u8>>>, to: Seq<Seq<u8>>) -> (k: int)
    ensures
        match reading::nearest(r.table, from, to) {
            Some(best) => {
                &&& 0 <= k < from.len()
                &&& from[k] == best
                &&& r.table.is_watched_path(best)
                &&& forall|j: int|
                    0 <= j < from.len() && r.table.is_watched_path(#[trigger] from[j])
                        ==> reading::shared(from[j], to) <= reading::shared(best, to) && (j < k
                        ==> reading::shared(from[j], to) < reading::shared(best, to))
            },
            None => forall|j: int|
                0 <= j < from.len() ==> !r.table.is_watched_path(#[trigger] from[j]),
        },
    decreases from.len(),
{
    if from.len() == 0 {
        0
    } else {
        let shorter = from.drop_last();
        let before = lemma_nearest(r, shorter, to);
        assert forall|j: int| 0 <= j < from.len() implies #[trigger] from[j] == if j
            < shorter.len() {
            shorter[j]
        } else {
            from.last()
        } by {}
        if reading::nearest(r.table, from, to) == reading::nearest(r.table, shorter, to) && (
        reading::nearest(r.table, shorter, to) is Some) {
            before
        } else {
            from.len() - 1
        }
    }
}

/// The path that an entry which came to `to` is paired with, where one of those that left is
/// watched.
proof fn lemma_pair(r: ReadingView, from: Seq<Seq<Seq<u8>>>, to: Seq<Seq<u8>>) -> (k: int)
    ensures
        match reading::nearest(r.table, from, to) {
            Some(best) => is_pair(r.table.roots, from, to, k) && from[k] == best,
            None => forall|j: int|
                0 <= j < from.len() ==> !root::is_reached(r.table.roots, #[trigger] from[j]),
        },
{
    let roots = r.table.roots;
    let k = lemma_nearest(r, from, to);
    assert forall|j: int| 0 <= j < from.len() implies root::is_reached(roots, #[trigger] from[j])
        == r.table.is_watched_path(from[j]) by {
        root::watched_is_reached(roots, from[j]);
    }
    if let Some(best) = reading::nearest(r.table, from, to) {
        assert forall|j: int, n: int|
            0 <= j < from.len() && root::is_reached(roots, #[trigger] from[j]) && #[trigger] agree(
                from[j],
                to,
                n,
            ) implies agree(from[k], to, n) by {
            lemma_agree(from[j], to, n);
            lemma_agree(from[k], to, n);
        }
        assert forall|j: int| 0 <= j < k && root::is_reached(roots, #[trigger] from[j]) implies (
        exists|n: int| #[trigger] agree(from[k], to, n) && !agree(from[j], to, n)) by {
            let n = reading::shared(from[k], to) as int;
            lemma_agree(from[j], to, n);
            lemma_agree(from[k], to, n);
            assert(agree(from[k], to, n) && !agree(from[j], to, n));
        }
    }
    k
}

/// That an entry came from elsewhere is reported with what ties it to where it left. Where one of
/// the paths that left with the same cookie is watched, both ends are reported too: the watched one
/// that shares the most with the new path, then the new path. The entry is to be watched as one
/// that was created.
pub proof fn moved_here_is_reported(
    r: ReadingView,
    m: u32,
    cookie: u32,
    p: Seq<Seq<u8>>,
    stat: Option<FileStat>,
)
    requires
        m == MOVED_TO || m == MOVED_TO | ISDIR,
    ensures
        ({
            let after = r.event_at(m, cookie, p, stat);
            let roots = r.table.roots;
            let said_dir = m != MOVED_TO;
            let is_dir = said_dir || (root::is_on_the_way(roots, p) && (stat matches Some(stat)
                && stat.is_dir));
            let tracker = Some(cookie as usize);
            let to = r.reports.push(
                report::told(
                    EventKind::Modify(ModifyKind::Name(RenameMode::To)),
                    seq![p],
                    tracker,
                ),
            );
            &&& !root::is_reached(roots, p) ==> after.reports == r.reports
            &&& root::is_reached(roots, p) ==> match r.rename_from {
                Some((left, from)) => if left == cookie && exists|i: int|
                    0 <= i < from.len() && root::is_reached(roots, #[trigger] from[i]) {
                    exists|k: int| #[trigger]
                        is_pair(roots, from, p, k) && after.reports == to.push(
                            report::told(
                                EventKind::Modify(ModifyKind::Name(RenameMode::Both)),
                                seq![from[k], p],
                                tracker,
                            ),
                        )
                } else {
                    after.reports == to
                },
                None => after.reports == to,
            }
            &&& is_only_change(
                r,
                after,
                p,
                if is_dir {
                    RootState::Directory
                } else {
                    RootState::File
                },
            )
            &&& asks_to_watch(r, after, p, is_dir, said_dir, stat)
            &&& after.rename_from == r.rename_from
        }),
{
    lemma_alone(m, MOVED_TO);
    root::watched_is_reached(r.table.roots, p);
    lemma_told(p);
    lemma_entry_watch(r, p, m == MOVED_TO && reading::plain(stat));
    let after = r.event_at(m, cookie, p, stat);
    let said = reading::rename(RenameMode::To).with_tracker(cookie as usize).with_path(p);
    assert(said.paths =~= seq![p]);
    assert(after.changes.entry_watches.drop_last() =~= r.changes.entry_watches
        || after.changes.entry_watches == r.changes.entry_watches);
    if let Some((left, from)) = r.rename_from {
        let k = lemma_pair(r, from, p);
        if left == cookie && reading::nearest(r.table, from, p) is Some {
            let both = reading::rename(RenameMode::Both).with_tracker(cookie as usize).with_path(
                from[k],
            ).with_path(p);
            assert(both.paths =~= seq![from[k], p]);
            assert(is_pair(r.table.roots, from, p, k));
        }
    }
}

/// The path of the entry `name` of the directory `dir`, or of the directory itself.
pub open spec fn entry_of(dir: Seq<Seq<u8>>, name: Option<Seq<u8>>) -> Seq<Seq<u8>> {
    match name {
        Some(name) => dir.push(name),
        None => dir,
    }
}

pub open spec fn is_single(bit: u32) -> bool {
    bit == MOVED_FROM || bit == MOVED_TO || bit == MOVE_SELF || bit == CREATE || bit == DELETE
        || bit == DELETE_SELF || bit == UNMOUNT || bit == MODIFY || bit == CLOSE_WRITE || bit
        == CLOSE_NOWRITE || bit == ATTRIB || bit == OPEN
}

proof fn lemma_seen(m: u32, asked: u32, bit: u32)
    requires
        is_single(bit),
    ensures
        mask::has(mask::seen_of(m, asked), bit) <==> m & bit == bit && (bit == UNMOUNT || asked
            & bit == bit),
        mask::has(mask::seen_of(m, asked), ISDIR) <==> m & ISDIR == ISDIR,
        (m == bit || m == bit | ISDIR) && (bit == UNMOUNT || asked & bit == bit)
            ==> mask::seen_of(m, asked) == m && m & !ISDIR != 0,
        (m == bit || m == bit | ISDIR) && bit != UNMOUNT && asked & bit != bit ==> mask::seen_of(
            m,
            asked,
        ) & !ISDIR == 0,
        m & bit == bit || m & bit == 0,
{
    let seen = mask::seen_of(m, asked);
    assert((bit == MOVED_FROM || bit == MOVED_TO || bit == MOVE_SELF || bit == CREATE || bit
        == DELETE || bit == DELETE_SELF || bit == UNMOUNT || bit == MODIFY || bit == CLOSE_WRITE
        || bit == CLOSE_NOWRITE || bit == ATTRIB || bit == OPEN) && seen == m & ((asked
        & mask::ALL_EVENTS) | mask::UNMASKED_EVENTS) ==> ((seen & bit == bit) == (m & bit == bit
        && (bit == UNMOUNT || asked & bit == bit))) && ((seen & ISDIR == ISDIR) == (m & ISDIR
        == ISDIR)) && ((m == bit || m == bit | ISDIR) && (bit
        == UNMOUNT || asked & bit == bit) ==> seen == m && m & !ISDIR != 0) && ((m == bit || m
        == bit | ISDIR) && bit != UNMOUNT && asked & bit != bit ==> seen & !ISDIR == 0) && (m & bit
        == bit || m & bit == 0)) by (bit_vector);
}

/// What an event of one kind says to the one path of its descriptor that asked for it is what it
/// says at the path, or at the entry of the path that it names. The entry is then queued to be
/// watched.
pub proof fn asked_event_is_handled(
    r: ReadingView,
    w: i32,
    bit: u32,
    m: u32,
    cookie: u32,
    name: Option<Seq<u8>>,
    s: Seq<Seq<u8>>,
    stat: Option<FileStat>,
)
    requires
        is_single(bit),
        m == bit || m == bit | ISDIR,
        r.table.bound.contains_key(w),
        r.table.bound[w].spellings == seq![s],
        bit == UNMOUNT || r.table.handles[s].mask & bit == bit,
    ensures
        ({
            let after = r.event(w, m, cookie, name, seq![stat]);
            let at = r.event_at(m, cookie, entry_of(s, name), stat);
            &&& after.reports == at.reports
            &&& after.table == at.table
            &&& after.rename_from == at.rename_from
            &&& after.changes == at.changes.queue_entry(w, name)
        }),
{
    lemma_seen(m, r.table.handles[s].mask, bit);
    lemma_no_other(m, bit);
    let spelled = reading::spelled(r.table, w, m, name);
    assert(spelled.len() == 1);
    assert(spelled[0].path == entry_of(s, name));
    assert(spelled[0].mask == m);
    assert(spelled.last() == spelled[0]);
    assert(seq![stat].last() == stat);
    assert(reading::at_spellings(r, spelled.drop_last(), cookie, seq![stat].drop_last()) == r);
}

/// An event of one kind says nothing to a path that did not ask for it.
pub proof fn unasked_event_is_passed_over(
    r: ReadingView,
    w: i32,
    bit: u32,
    m: u32,
    cookie: u32,
    name: Option<Seq<u8>>,
    s: Seq<Seq<u8>>,
    stat: Option<FileStat>,
)
    requires
        is_single(bit),
        m == bit || m == bit | ISDIR,
        r.table.bound.contains_key(w),
        r.table.bound[w].spellings == seq![s],
        bit != UNMOUNT && r.table.handles[s].mask & bit != bit,
        r.changes.entry_watches.len() == 0,
    ensures
        r.event(w, m, cookie, name, seq![stat]) == r,
{
    lemma_seen(m, r.table.handles[s].mask, bit);
    lemma_no_other(m, bit);
    let spelled = reading::spelled(r.table, w, m, name);
    assert(spelled.len() == 1);
    assert(spelled.last() == spelled[0]);
    assert(reading::at_spellings(r, spelled.drop_last(), cookie, seq![stat].drop_last()) == r);
}

proof fn lemma_no_other(m: u32, bit: u32)
    requires
        is_single(bit),
        m == bit || m == bit | ISDIR,
    ensures
        !mask::has(m, Q_OVERFLOW),
        !mask::has(m, IGNORED),
{
    assert((bit == MOVED_FROM || bit == MOVED_TO || bit == MOVE_SELF || bit == CREATE || bit
        == DELETE || bit == DELETE_SELF || bit == UNMOUNT || bit == MODIFY || bit == CLOSE_WRITE
        || bit == CLOSE_NOWRITE || bit == ATTRIB || bit == OPEN) && (m == bit || m == bit | ISDIR)
        ==> m & Q_OVERFLOW != Q_OVERFLOW && m & IGNORED != IGNORED) by (bit_vector);
}

/// That events were lost is reported, with the flag to look again, whatever descriptor the event
/// is of. Of an event of no known descriptor that is all, and of the last event of a descriptor
/// that the descriptor is to be forgotten.
pub proof fn lost_events_are_reported(
    r: ReadingView,
    w: i32,
    m: u32,
    cookie: u32,
    name: Option<Seq<u8>>,
    stats: Seq<Option<FileStat>>,
)
    ensures
        ({
            let after = r.event(w, m, cookie, name, stats);
            let rescan = ReportView::Event(
                EventView {
                    kind: EventKind::Other,
                    paths: seq![],
                    attrs: EventAttributes {
                        tracker: None,
                        flag: Some(Flag::Rescan),
                        info: None,
                        process_id: None,
                    },
                },
            );
            let told = if m & Q_OVERFLOW == Q_OVERFLOW {
                r.reports.push(rescan)
            } else {
                r.reports
            };
            &&& m & Q_OVERFLOW == Q_OVERFLOW ==> after.reports.contains(rescan)
            &&& !r.table.bound.contains_key(w) ==> after.reports == told && after.table == r.table
                && after.changes == r.changes && after.rename_from == r.rename_from
            &&& r.table.bound.contains_key(w) && m & IGNORED == IGNORED ==> after.reports == told
                && after.table == r.table && after.rename_from == r.rename_from && after.changes
                == ChangesView { ignored: r.changes.ignored.push(w), ..r.changes }
        }),
{
    let event = EventView::new(EventKind::Other).with_flag(Flag::Rescan);
    assert(event.paths =~= seq![]);
    let start = if mask::has(m, Q_OVERFLOW) {
        ReadingView { reports: r.reports.push(ReportView::Event(event)), ..r }
    } else {
        r
    };
    if m & Q_OVERFLOW == Q_OVERFLOW {
        assert(start.reports.last() == ReportView::Event(event));
        assert(start.reports.contains(ReportView::Event(event)));
    }
    if r.table.bound.contains_key(w) {
        reading::lemma_spellings_go_on(start, reading::spelled(r.table, w, m, name), cookie, stats);
    }
}

/// What an event of the kind `bit` is reported as at a path with that handle.
pub open spec fn kind_of(bit: u32, is_dir: bool, handle: Option<Handle>) -> EventKind {
    if bit == MOVED_FROM || bit == MOVE_SELF {
        EventKind::Modify(ModifyKind::Name(RenameMode::From))
    } else if bit == MOVED_TO {
        EventKind::Modify(ModifyKind::Name(RenameMode::To))
    } else if bit == CREATE {
        if is_dir {
            EventKind::Create(CreateKind::Folder)
        } else {
            EventKind::Create(CreateKind::File)
        }
    } else if bit == DELETE {
        if is_dir {
            EventKind::Remove(RemoveKind::Folder)
        } else {
            EventKind::Remove(RemoveKind::File)
        }
    } else if bit == DELETE_SELF {
        match handle {
            Some(handle) => if handle.is_dir {
                EventKind::Remove(RemoveKind::Folder)
            } else {
                EventKind::Remove(RemoveKind::File)
            },
            None => EventKind::Remove(RemoveKind::Other),
        }
    } else if bit == UNMOUNT {
        EventKind::Remove(RemoveKind::Other)
    } else if bit == MODIFY {
        EventKind::Modify(ModifyKind::Data(DataChange::Any))
    } else if bit == CLOSE_WRITE {
        EventKind::Access(AccessKind::Close(AccessMode::Write))
    } else if bit == CLOSE_NOWRITE {
        EventKind::Access(AccessKind::Close(AccessMode::Read))
    } else if bit == ATTRIB {
        EventKind::Modify(ModifyKind::Metadata(MetadataKind::Any))
    } else {
        EventKind::Access(AccessKind::Open(AccessMode::Any))
    }
}

/// The report of an event of the kind `bit` at `p`: the two ends of a move carry its cookie.
pub open spec fn report_of(
    r: ReadingView,
    bit: u32,
    m: u32,
    cookie: u32,
    p: Seq<Seq<u8>>,
) -> ReportView {
    report::told(
        kind_of(
            bit,
            m & ISDIR == ISDIR,
            if r.table.handles.contains_key(p) {
                Some(r.table.handles[p])
            } else {
                None
            },
        ),
        seq![p],
        if bit == MOVED_FROM || bit == MOVED_TO {
            Some(cookie as usize)
        } else {
            None
        },
    )
}

/// Whether the event `m` of the descriptor `w` says something of the kind `bit` to the `i`-th path
/// that has the descriptor: the path asked for it, and a root reaches the entry.
pub open spec fn says(
    r: ReadingView,
    w: i32,
    m: u32,
    name: Option<Seq<u8>>,
    i: int,
    bit: u32,
) -> bool {
    let s = r.table.bound[w].spellings[i];
    &&& 0 <= i < r.table.bound[w].spellings.len()
    &&& is_single(bit)
    &&& m & bit == bit
    &&& bit == UNMOUNT || r.table.handles[s].mask & bit == bit
    &&& root::is_reached(r.table.roots, entry_of(s, name))
}

/// What an event says is reported under every path of its descriptor that asked for it, whatever
/// else the event says.
pub proof fn every_kind_asked_for_is_reported(
    r: ReadingView,
    w: i32,
    m: u32,
    cookie: u32,
    name: Option<Seq<u8>>,
    stats: Seq<Option<FileStat>>,
    i: int,
    bit: u32,
)
    requires
        r.table.bound.contains_key(w),
        m & IGNORED != IGNORED,
        says(r, w, m, name, i, bit),
        bit == MOVED_TO ==> m & MOVED_FROM != MOVED_FROM,
    ensures
        r.event(w, m, cookie, name, stats).reports.contains(
            report_of(r, bit, m, cookie, entry_of(r.table.bound[w].spellings[i], name)),
        ),
{
    let s = r.table.bound[w].spellings[i];
    let p = entry_of(s, name);
    let asked = r.table.handles[s].mask;
    lemma_seen(m, asked, bit);
    lemma_seen(m, asked, MOVED_FROM);
    root::watched_is_reached(r.table.roots, p);
    let spelled = reading::spelled(r.table, w, m, name)[i];
    assert(spelled.path == p);
    assert(spelled.mask == mask::seen_of(m, asked));
    let event = report_of(r, bit, m, cookie, p)->Event_0;
    assert(Seq::<Seq<Seq<u8>>>::empty().push(p) =~= seq![p]);
    assert(reading::tells(r.table, spelled.mask, cookie, p, event));
    reading::asked_is_reported(r, w, m, cookie, name, stats, i, event);
}

/// Where the watched paths are the same, so is the path that an entry is paired with.
proof fn lemma_same_nearest(
    a: ReadingView,
    b: ReadingView,
    from: Seq<Seq<Seq<u8>>>,
    to: Seq<Seq<u8>>,
)
    requires
        reading::goes_on(a, b),
    ensures
        reading::nearest(b.table, from, to) == reading::nearest(a.table, from, to),
    decreases from.len(),
{
    if from.len() > 0 {
        lemma_same_nearest(a, b, from.drop_last(), to);
        assert(b.table.is_watched_path(from.last()) == a.table.is_watched_path(from.last()));
    }
}

proof fn lemma_paired(
    r: ReadingView,
    spellings: Seq<SpellingView>,
    cookie: u32,
    stats: Seq<Option<FileStat>>,
    i: int,
    best: Seq<Seq<u8>>,
)
    requires
        0 <= i < spellings.len(),
        forall|j: int|
            0 <= j < spellings.len() ==> !mask::has((#[trigger] spellings[j]).mask, MOVED_FROM),
        mask::has(spellings[i].mask, MOVED_TO),
        spellings[i].mask & !ISDIR != 0,
        r.table.is_watched_path(spellings[i].path),
        r.renamed_from(cookie, spellings[i].path) == Some(best),
    ensures
        reading::at_spellings(r, spellings, cookie, stats).rename_from == r.rename_from,
        reading::at_spellings(r, spellings, cookie, stats).reports.contains(
            ReportView::Event(
                reading::rename(RenameMode::Both).with_tracker(cookie as usize).with_path(
                    best,
                ).with_path(spellings[i].path),
            ),
        ),
    decreases spellings.len(),
{
    let s = spellings.last();
    let shorter = spellings.drop_last();
    let before = reading::at_spellings(r, shorter, cookie, stats.drop_last());
    assert forall|j: int| 0 <= j < shorter.len() implies !mask::has(
        (#[trigger] shorter[j]).mask,
        MOVED_FROM,
    ) by {
        assert(shorter[j] == spellings[j]);
    }
    assert(s == spellings[spellings.len() - 1]);
    reading::lemma_spellings_go_on(r, shorter, cookie, stats.drop_last());
    reading::lemma_event_at(before, s.mask, cookie, s.path, stats.last());
    lemma_keeps_left(r, shorter, cookie, stats.drop_last());
    if i < shorter.len() {
        assert(shorter[i] == spellings[i]);
        lemma_paired(r, shorter, cookie, stats.drop_last(), i, best);
    } else {
        match r.rename_from {
            Some((left, from)) => lemma_same_nearest(r, before, from, s.path),
            None => {},
        }
    }
}

proof fn lemma_keeps_left(
    r: ReadingView,
    spellings: Seq<SpellingView>,
    cookie: u32,
    stats: Seq<Option<FileStat>>,
)
    requires
        forall|j: int|
            0 <= j < spellings.len() ==> !mask::has((#[trigger] spellings[j]).mask, MOVED_FROM),
    ensures
        reading::at_spellings(r, spellings, cookie, stats).rename_from == r.rename_from,
    decreases spellings.len(),
{
    if spellings.len() > 0 {
        let s = spellings.last();
        let shorter = spellings.drop_last();
        assert forall|j: int| 0 <= j < shorter.len() implies !mask::has(
            (#[trigger] shorter[j]).mask,
            MOVED_FROM,
        ) by {
            assert(shorter[j] == spellings[j]);
        }
        assert(s == spellings[spellings.len() - 1]);
        lemma_keeps_left(r, shorter, cookie, stats.drop_last());
        let before = reading::at_spellings(r, shorter, cookie, stats.drop_last());
        reading::lemma_event_at(before, s.mask, cookie, s.path, stats.last());
    }
}

/// Both ends of a move are reported under every path of the descriptor that asked for it, where one
/// of the paths that left with the same cookie is watched: the watched one that shares the most
/// with the new path, then the new path.
pub proof fn both_ends_are_reported(
    r: ReadingView,
    w: i32,
    m: u32,
    cookie: u32,
    name: Option<Seq<u8>>,
    stats: Seq<Option<FileStat>>,
    i: int,
    from: Seq<Seq<Seq<u8>>>,
)
    requires
        r.table.bound.contains_key(w),
        m & IGNORED != IGNORED,
        m & MOVED_FROM != MOVED_FROM,
        says(r, w, m, name, i, MOVED_TO),
        r.rename_from == Some((cookie, from)),
        exists|j: int| 0 <= j < from.len() && root::is_reached(r.table.roots, #[trigger] from[j]),
    ensures
        ({
            let p = entry_of(r.table.bound[w].spellings[i], name);
            exists|k: int| #[trigger]
                is_pair(r.table.roots, from, p, k) && r.event(
                    w,
                    m,
                    cookie,
                    name,
                    stats,
                ).reports.contains(
                    report::told(
                        EventKind::Modify(ModifyKind::Name(RenameMode::Both)),
                        seq![from[k], p],
                        Some(cookie as usize),
                    ),
                )
        }),
{
    let s = r.table.bound[w].spellings[i];
    let p = entry_of(s, name);
    let k = lemma_pair(r, from, p);
    let start = if mask::has(m, Q_OVERFLOW) {
        ReadingView {
            reports: r.reports.push(
                ReportView::Event(EventView::new(EventKind::Other).with_flag(Flag::Rescan)),
            ),
            ..r
        }
    } else {
        r
    };
    let spelled = reading::spelled(r.table, w, m, name);
    assert forall|j: int| 0 <= j < spelled.len() implies !mask::has(
        (#[trigger] spelled[j]).mask,
        MOVED_FROM,
    ) by {
        lemma_seen(m, r.table.handles[r.table.bound[w].spellings[j]].mask, MOVED_FROM);
    }
    lemma_seen(m, r.table.handles[s].mask, MOVED_TO);
    assert(spelled[i].path == p);
    let seen = spelled[i].mask;
    assert(seen & !ISDIR != 0) by {
        assert(seen & MOVED_TO == MOVED_TO ==> seen & !ISDIR != 0) by (bit_vector);
    }
    root::watched_is_reached(r.table.roots, p);
    assert(reading::nearest(r.table, from, p) == Some(from[k]));
    lemma_paired(start, spelled, cookie, stats, i, from[k]);
    let both = reading::rename(RenameMode::Both).with_tracker(cookie as usize).with_path(
        from[k],
    ).with_path(p);
    assert(both.paths =~= seq![from[k], p]);
    assert(is_pair(r.table.roots, from, p, k));
}

/// Whether the event `m` at `p` says `x`: something of one of its kinds, or both ends of a move.
spec fn is_said_at(
    r: ReadingView,
    m: u32,
    cookie: u32,
    p: Seq<Seq<u8>>,
    x: ReportView,
) -> bool {
    &&& r.table.is_watched_path(p)
    &&& {
        ||| exists|bit: u32| #[trigger]
            is_single(bit) && mask::has(m, bit) && x == report_of(r, bit, m, cookie, p)
        ||| mask::has(m, MOVED_TO) && !mask::has(m, MOVED_FROM) && r.renamed_from(
            cookie,
            p,
        ) is Some && x == report::told(
            EventKind::Modify(ModifyKind::Name(RenameMode::Both)),
            seq![r.renamed_from(cookie, p)->0, p],
            Some(cookie as usize),
        )
    }
}

proof fn lemma_reporting_only(
    r: ReadingView,
    condition: bool,
    p: Seq<Seq<u8>>,
    event: EventView,
    x: ReportView,
)
    requires
        r.reporting(condition, p, event).reports.contains(x),
    ensures
        r.reports.contains(x) || (condition && r.table.is_watched_path(p) && x
            == ReportView::Event(event)),
{
    let after = r.reporting(condition, p, event).reports;
    let i = choose|i: int| 0 <= i < after.len() && after[i] == x;
    if i < r.reports.len() {
        assert(r.reports[i] == x);
    }
}

/// Nothing but what an event says is reported of it.
#[verifier::rlimit(60)]
proof fn lemma_event_at_only(
    r: ReadingView,
    m: u32,
    cookie: u32,
    p: Seq<Seq<u8>>,
    stat: Option<FileStat>,
    x: ReportView,
)
    requires
        r.event_at(m, cookie, p, stat).reports.contains(x),
    ensures
        r.reports.contains(x) || is_said_at(r, m, cookie, p, x),
{
    let is_dir = mask::has(m, ISDIR);
    let a = r.after_move(m, cookie, p, stat);
    let b = a.after_move_self(m, p);
    let c = b.after_create(m, p, stat);
    let d = if mask::has(m, DELETE) {
        c.deleted(p, is_dir)
    } else {
        c
    };
    let e = if mask::has(m, DELETE_SELF) {
        d.deleted_self(p)
    } else {
        d
    };
    let f = if mask::has(m, UNMOUNT) {
        e.unmounted(p)
    } else {
        e
    };
    reading::lemma_stages(r, m, cookie, p, stat);
    assert(f.touched(m, p).reports.contains(x));
    lemma_told(p);
    let modified = EventView::new(
        EventKind::Modify(ModifyKind::Data(DataChange::Any)),
    ).with_path(p);
    let written = EventView::new(
        EventKind::Access(AccessKind::Close(AccessMode::Write)),
    ).with_path(p);
    let closed = EventView::new(
        EventKind::Access(AccessKind::Close(AccessMode::Read)),
    ).with_path(p);
    let changed = EventView::new(
        EventKind::Modify(ModifyKind::Metadata(MetadataKind::Any)),
    ).with_path(p);
    let opened = EventView::new(EventKind::Access(AccessKind::Open(AccessMode::Any))).with_path(p);
    let f1 = f.reporting(mask::has(m, MODIFY), p, modified);
    let f2 = f1.reporting(mask::has(m, CLOSE_WRITE), p, written);
    let f3 = f2.reporting(mask::has(m, CLOSE_NOWRITE), p, closed);
    let f4 = f3.reporting(mask::has(m, ATTRIB), p, changed);
    lemma_reporting_only(f4, mask::has(m, OPEN), p, opened, x);
    if !f4.reports.contains(x) {
        assert(is_single(OPEN) && x == report_of(r, OPEN, m, cookie, p));
    } else {
        lemma_reporting_only(f3, mask::has(m, ATTRIB), p, changed, x);
        if !f3.reports.contains(x) {
            assert(is_single(ATTRIB) && x == report_of(r, ATTRIB, m, cookie, p));
        } else {
            lemma_reporting_only(f2, mask::has(m, CLOSE_NOWRITE), p, closed, x);
            if !f2.reports.contains(x) {
                assert(is_single(CLOSE_NOWRITE) && x == report_of(r, CLOSE_NOWRITE, m, cookie, p));
            } else {
                lemma_reporting_only(f1, mask::has(m, CLOSE_WRITE), p, written, x);
                if !f1.reports.contains(x) {
                    assert(is_single(CLOSE_WRITE) && x == report_of(r, CLOSE_WRITE, m, cookie, p));
                } else {
                    lemma_reporting_only(f, mask::has(m, MODIFY), p, modified, x);
                    if !f.reports.contains(x) {
                        assert(is_single(MODIFY) && x == report_of(r, MODIFY, m, cookie, p));
                    } else {
                        lemma_comes_only(r, m, cookie, p, stat, x);
                    }
                }
            }
        }
    }
}

/// Of what comes and goes, too, nothing but what the event says is reported.
#[verifier::rlimit(60)]
proof fn lemma_comes_only(
    r: ReadingView,
    m: u32,
    cookie: u32,
    p: Seq<Seq<u8>>,
    stat: Option<FileStat>,
    x: ReportView,
)
    requires
        r.after_move(m, cookie, p, stat).after_move_self(m, p).after_create(
            m,
            p,
            stat,
        ).after_removal(m, p).reports.contains(x),
    ensures
        r.reports.contains(x) || is_said_at(r, m, cookie, p, x),
{
    let is_dir = mask::has(m, ISDIR);
    let a = r.after_move(m, cookie, p, stat);
    let b = a.after_move_self(m, p);
    let c = b.after_create(m, p, stat);
    let d = if mask::has(m, DELETE) {
        c.deleted(p, is_dir)
    } else {
        c
    };
    let e = if mask::has(m, DELETE_SELF) {
        d.deleted_self(p)
    } else {
        d
    };
    lemma_told(p);
    reading::lemma_stages(r, m, cookie, p, stat);
    let unmounted = EventView::new(EventKind::Remove(RemoveKind::Other)).with_path(p);
    let missing = d.in_state(p, RootState::Missing);
    let gone = EventView::new(
        kind_of(
            DELETE_SELF,
            is_dir,
            if r.table.handles.contains_key(p) {
                Some(r.table.handles[p])
            } else {
                None
            },
        ),
    ).with_path(p);
    let deleted = EventView::new(kind_of(DELETE, is_dir, None)).with_path(p);
    let created = EventView::new(kind_of(CREATE, is_dir, None)).with_path(p);
    let away = reading::rename(RenameMode::From).with_path(p);
    let left = a.removing(p).in_state(p, RootState::Missing);
    if mask::has(m, UNMOUNT) {
        lemma_reporting_only(e, true, p, unmounted, x);
    }
    if !e.reports.contains(x) {
        assert(is_single(UNMOUNT) && x == report_of(r, UNMOUNT, m, cookie, p));
    } else {
        if mask::has(m, DELETE_SELF) {
            assert(d.deleted_self(p).reports == missing.reporting(true, p, gone).reports);
            lemma_reporting_only(missing, true, p, gone, x);
        }
        if !d.reports.contains(x) {
            assert(is_single(DELETE_SELF) && x == report_of(r, DELETE_SELF, m, cookie, p));
        } else {
            if mask::has(m, DELETE) {
                lemma_reporting_only(c, true, p, deleted, x);
            }
            if !c.reports.contains(x) {
                assert(is_single(DELETE) && x == report_of(r, DELETE, m, cookie, p));
            } else {
                if mask::has(m, CREATE) {
                    lemma_reporting_only(b, true, p, created, x);
                }
                if !b.reports.contains(x) {
                    assert(is_single(CREATE) && x == report_of(r, CREATE, m, cookie, p));
                } else {
                    if mask::has(m, MOVE_SELF) {
                        lemma_reporting_only(left, true, p, away, x);
                    }
                    if !a.reports.contains(x) {
                        assert(is_single(MOVE_SELF) && x == report_of(r, MOVE_SELF, m, cookie, p));
                    } else {
                        lemma_move_only(r, m, cookie, p, stat, x);
                    }
                }
            }
        }
    }
}

proof fn lemma_move_only(
    r: ReadingView,
    m: u32,
    cookie: u32,
    p: Seq<Seq<u8>>,
    stat: Option<FileStat>,
    x: ReportView,
)
    requires
        r.after_move(m, cookie, p, stat).reports.contains(x),
    ensures
        r.reports.contains(x) || is_said_at(r, m, cookie, p, x),
{
    assert(Seq::<Seq<Seq<u8>>>::empty().push(p) =~= seq![p]);
    if mask::has(m, MOVED_FROM) {
        let event = reading::rename(RenameMode::From).with_path(p).with_tracker(cookie as usize);
        let left = r.removing(p).leaving(cookie, p);
        lemma_reporting_only(left, true, p, event, x);
        if !r.reports.contains(x) {
            assert(is_single(MOVED_FROM) && x == report_of(r, MOVED_FROM, m, cookie, p));
        }
    } else if mask::has(m, MOVED_TO) {
        let event = reading::rename(RenameMode::To).with_tracker(cookie as usize).with_path(p);
        let to = r.reporting(true, p, event);
        if let Some(from) = r.renamed_from(cookie, p) {
            let pair = reading::rename(RenameMode::Both).with_tracker(cookie as usize).with_path(
                from,
            ).with_path(p);
            assert(pair.paths =~= seq![from, p]);
            lemma_reporting_only(to, true, p, pair, x);
        }
        if to.reports.contains(x) {
            lemma_reporting_only(r, true, p, event, x);
            if !r.reports.contains(x) {
                assert(is_single(MOVED_TO) && x == report_of(r, MOVED_TO, m, cookie, p));
            }
        }
    }
}

/// Whether the event `m` of the descriptor `w` says `x` to one of the paths that have it: something
/// of a kind the path asked for, or both ends of a move.
pub open spec fn is_said(
    r: ReadingView,
    w: i32,
    m: u32,
    cookie: u32,
    name: Option<Seq<u8>>,
    i: int,
    x: ReportView,
) -> bool {
    let p = entry_of(r.table.bound[w].spellings[i], name);
    ||| exists|bit: u32| #[trigger]
        says(r, w, m, name, i, bit) && x == report_of(r, bit, m, cookie, p)
    ||| says(r, w, m, name, i, MOVED_TO) && (r.rename_from matches Some((left, from)) && left
        == cookie && exists|k: int| #[trigger]
        is_pair(r.table.roots, from, p, k) && x == report::told(
            EventKind::Modify(ModifyKind::Name(RenameMode::Both)),
            seq![from[k], p],
            Some(cookie as usize),
        ))
}

/// The reports of an event are what was reported before and what the event says to the paths of its
/// descriptor.
proof fn lemma_spellings_only(
    r: ReadingView,
    w: i32,
    m: u32,
    cookie: u32,
    name: Option<Seq<u8>>,
    n: int,
    stats: Seq<Option<FileStat>>,
    x: ReportView,
)
    requires
        r.table.bound.contains_key(w),
        m & MOVED_FROM != MOVED_FROM || m & MOVED_TO != MOVED_TO,
        0 <= n <= r.table.bound[w].spellings.len(),
        reading::at_spellings(
            r,
            reading::spelled(r.table, w, m, name).take(n),
            cookie,
            stats,
        ).reports.contains(x),
    ensures
        r.reports.contains(x) || exists|i: int| is_said(r, w, m, cookie, name, i, x),
    decreases n,
{
    let all = reading::spelled(r.table, w, m, name);
    if n > 0 {
        let taken = all.take(n);
        assert(taken.drop_last() =~= all.take(n - 1));
        let before = reading::at_spellings(r, all.take(n - 1), cookie, stats.drop_last());
        if before.reports.contains(x) {
            lemma_spellings_only(r, w, m, cookie, name, n - 1, stats.drop_last(), x);
        } else {
            let s = r.table.bound[w].spellings[n - 1];
            let p = entry_of(s, name);
            let asked = r.table.handles[s].mask;
            let seen = mask::seen_of(m, asked);
            assert(taken.last() == all[n - 1]);
            assert(taken.last().path == p && taken.last().mask == seen);
            lemma_event_at_only(before, seen, cookie, p, stats.last(), x);
            reading::lemma_spellings_go_on(r, all.take(n - 1), cookie, stats.drop_last());
            root::watched_is_reached(r.table.roots, p);
            if exists|bit: u32| #[trigger]
                is_single(bit) && mask::has(seen, bit) && x == report_of(
                    before,
                    bit,
                    seen,
                    cookie,
                    p,
                ) {
                let bit = choose|bit: u32| #[trigger]
                    is_single(bit) && mask::has(seen, bit) && x == report_of(
                        before,
                        bit,
                        seen,
                        cookie,
                        p,
                    );
                lemma_seen(m, asked, bit);
                assert(says(r, w, m, name, n - 1, bit));
                assert(x == report_of(r, bit, m, cookie, p));
                assert(is_said(r, w, m, cookie, name, n - 1, x));
            } else {
                lemma_seen(m, asked, MOVED_TO);
                lemma_seen(m, asked, MOVED_FROM);
                assert(says(r, w, m, name, n - 1, MOVED_TO));
                assert forall|j: int| 0 <= j < all.take(n - 1).len() implies !mask::has(
                    (#[trigger] all.take(n - 1)[j]).mask,
                    MOVED_FROM,
                ) by {
                    lemma_seen(m, r.table.handles[r.table.bound[w].spellings[j]].mask, MOVED_FROM);
                }
                lemma_keeps_left(r, all.take(n - 1), cookie, stats.drop_last());
                if let Some((left, from)) = r.rename_from {
                    lemma_same_nearest(r, before, from, p);
                    let k = lemma_pair(r, from, p);
                    assert(is_pair(r.table.roots, from, p, k));
                    assert(is_said(r, w, m, cookie, name, n - 1, x));
                }
            }
        }
    }
}

/// Nothing is reported of an event but what it says to a path of its descriptor, and that events
/// were lost.
pub proof fn only_what_is_said_is_reported(
    r: ReadingView,
    w: i32,
    m: u32,
    cookie: u32,
    name: Option<Seq<u8>>,
    stats: Seq<Option<FileStat>>,
    x: ReportView,
)
    requires
        r.table.bound.contains_key(w),
        m & IGNORED != IGNORED,
        m & MOVED_FROM != MOVED_FROM || m & MOVED_TO != MOVED_TO,
        r.event(w, m, cookie, name, stats).reports.contains(x),
    ensures
        ({
            ||| r.reports.contains(x)
            ||| exists|i: int| is_said(r, w, m, cookie, name, i, x)
            ||| m & Q_OVERFLOW == Q_OVERFLOW && (x matches ReportView::Event(event) && event.kind
                == EventKind::Other && event.attrs.flag == Some(Flag::Rescan))
        }),
{
    let rescan = EventView::new(EventKind::Other).with_flag(Flag::Rescan);
    let start = if mask::has(m, Q_OVERFLOW) {
        ReadingView { reports: r.reports.push(ReportView::Event(rescan)), ..r }
    } else {
        r
    };
    let all = reading::spelled(r.table, w, m, name);
    assert(all.take(all.len() as int) =~= all);
    lemma_spellings_only(start, w, m, cookie, name, all.len() as int, stats, x);
    if start.reports.contains(x) {
        let j = choose|j: int| 0 <= j < start.reports.len() && start.reports[j] == x;
        if j < r.reports.len() {
            assert(r.reports[j] == x);
        }
    } else {
        let i = choose|i: int| is_said(start, w, m, cookie, name, i, x);
        let p = entry_of(r.table.bound[w].spellings[i], name);
        if exists|bit: u32| #[trigger]
            says(start, w, m, name, i, bit) && x == report_of(start, bit, m, cookie, p) {
            let bit = choose|bit: u32| #[trigger]
                says(start, w, m, name, i, bit) && x == report_of(start, bit, m, cookie, p);
            assert(says(r, w, m, name, i, bit) && x == report_of(r, bit, m, cookie, p));
        } else {
            assert(says(r, w, m, name, i, MOVED_TO));
        }
        assert(is_said(r, w, m, cookie, name, i, x));
    }
}

/// Whether the last entry queued for `name` of `w` is queued under `watches`.
pub open spec fn is_queued_as(
    c: ChangesView,
    w: i32,
    name: Option<Seq<u8>>,
    watches: Seq<AddView>,
) -> bool {
    exists|j: int|
        {
            &&& 0 <= j < c.queued.len()
            &&& (#[trigger] c.queued[j]).w == w && c.queued[j].name == name
            &&& c.queued[j].at < c.add_watches.len()
            &&& c.add_watches[c.queued[j].at as int] == watches
            &&& forall|k: int|
                j < k < c.queued.len() ==> (#[trigger] c.queued[k]).w != w || c.queued[k].name
                    != name
        }
}

proof fn lemma_queued_at(queued: Seq<QueuedView>, w: i32, name: Option<Seq<u8>>) -> (j: int)
    ensures
        match reading::queued_at(queued, w, name) {
            Some(at) => 0 <= j < queued.len() && queued[j].w == w && queued[j].name == name
                && queued[j].at == at && forall|k: int|
                j < k < queued.len() ==> (#[trigger] queued[k]).w != w || queued[k].name != name,
            None => forall|k: int|
                0 <= k < queued.len() ==> (#[trigger] queued[k]).w != w || queued[k].name != name,
        },
    decreases queued.len(),
{
    if queued.len() == 0 {
        0
    } else if queued.last().w == w && queued.last().name == name {
        queued.len() - 1
    } else {
        let shorter = queued.drop_last();
        let j = lemma_queued_at(shorter, w, name);
        assert forall|k: int| 0 <= k < queued.len() implies #[trigger] queued[k] == if k
            < shorter.len() {
            shorter[k]
        } else {
            queued.last()
        } by {}
        j
    }
}

/// An entry that is to be watched is queued under the paths that watch it, unless it was queued
/// under the same paths last. Nothing else changes.
pub proof fn entry_is_queued(c: ChangesView, w: i32, name: Option<Seq<u8>>)
    ensures
        ({
            let after = c.queue_entry(w, name);
            let is_new = c.entry_watches.len() > 0 && !is_queued_as(c, w, name, c.entry_watches);
            &&& after == ChangesView {
                entry_watches: seq![],
                add_watches: after.add_watches,
                queued: after.queued,
                ..c
            }
            &&& is_new ==> after.add_watches == c.add_watches.push(c.entry_watches)
                && after.queued == c.queued.push(
                QueuedView { w, name, at: c.add_watches.len() },
            )
            &&& !is_new ==> after.add_watches == c.add_watches && after.queued == c.queued
        }),
{
    let j = lemma_queued_at(c.queued, w, name);
    if c.entry_watches.len() == 0 {
        assert(c.entry_watches =~= seq![]);
    }
    if c.is_queued(w, name) {
        assert(c.queued[j].w == w);
        assert(is_queued_as(c, w, name, c.entry_watches));
    }
    if is_queued_as(c, w, name, c.entry_watches) {
        let i = choose|i: int|
            {
                &&& 0 <= i < c.queued.len()
                &&& (#[trigger] c.queued[i]).w == w && c.queued[i].name == name
                &&& c.queued[i].at < c.add_watches.len()
                &&& c.add_watches[c.queued[i].at as int] == c.entry_watches
                &&& forall|k: int|
                    i < k < c.queued.len() ==> (#[trigger] c.queued[k]).w != w || c.queued[k].name
                        != name
            };
        assert(c.queued[i].w == w && c.queued[j].w == w);
    }
}

} // verus!
