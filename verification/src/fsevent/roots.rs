//! The watched roots that are not there.

use crate::event;
use crate::event::{CreateKind, Event, EventKind, EventView, RemoveKind};
use crate::fsevent::translate;
use crate::path;
use crate::path::PathBuf;
use crate::path_map::PathMap;
use vstd::prelude::*;

verus! {

/// How long a creation reported from the disk stands for the root's own `ITEM_CREATED`, in
/// nanoseconds.
pub const CREATED_REPORTED_FOR: u64 = 2_000_000_000;

/// When the looking thread looks at the roots that went: so many nanoseconds after it started,
/// and so many after that.
pub const LOOK_AGAIN_FIRST: u64 = 200_000_000;

pub const LOOK_AGAIN_NEXT: u64 = 1_800_000_000;

/// Which file a path is: its device and inode.
#[derive(Clone, Copy, Debug, PartialEq, Eq, Structural)]
pub struct FileId {
    pub dev: u64,
    pub ino: u64,
}

/// What the disk says of a path that is there.
#[derive(Clone, Copy, Debug, PartialEq, Eq, Structural)]
pub struct Stat {
    pub is_dir: bool,
    pub id: FileId,
}

/// How a root was seen to go.
#[derive(Clone, Copy, Debug, PartialEq, Eq, Structural)]
pub enum Went {
    /// By its own event, which reports it. An ancestor's event has nothing more to report, but a
    /// `ROOT_CHANGED` still reports the root as changed.
    OwnEvent,
    /// By a root change: a `ROOT_CHANGED`, an ancestor's event, or missing when watched.
    RootChange,
}

/// How long after `at` it is at `now`.
pub open spec fn elapsed(now: u64, at: u64) -> int {
    if now >= at {
        now - at
    } else {
        0
    }
}

/// A mark made at `at` stands for a creation no more.
pub open spec fn stale(now: u64, at: u64) -> bool {
    elapsed(now, at) >= CREATED_REPORTED_FOR
}

/// The state of the roots that are not there.
#[verifier::ext_equal]
pub struct GoneView {
    /// The roots that are gone, and how they were seen to go.
    pub roots: Map<Seq<Seq<u8>>, Went>,
    /// The roots whose coming back was reported from the disk, when, and which file was there.
    pub created_reported: Map<Seq<Seq<u8>>, (u64, FileId)>,
    /// When the stale marks were last dropped.
    pub pruned_at: Option<u64>,
    /// Changes each time a root goes.
    pub epoch: u64,
    /// Whether a looking thread runs.
    pub looking: bool,
    pub stopped: bool,
}

impl GoneView {
    pub open spec fn new() -> GoneView {
        GoneView {
            roots: Map::empty(),
            created_reported: Map::empty(),
            pruned_at: None,
            epoch: 0,
            looking: false,
            stopped: false,
        }
    }

    pub open spec fn prunes(self, now: u64) -> bool {
        match self.pruned_at {
            Some(at) => stale(now, at),
            None => true,
        }
    }

    /// The marks that are kept at `now`: the stale ones are dropped now and then.
    pub open spec fn kept_marks(self, now: u64) -> Map<Seq<Seq<u8>>, (u64, FileId)> {
        if self.prunes(now) {
            self.created_reported.remove_keys(
                self.created_reported.dom().filter(
                    |p: Seq<Seq<u8>>| stale(now, self.created_reported[p].0),
                ),
            )
        } else {
            self.created_reported
        }
    }

    /// `root` is back as the file `id`, and that was reported from the disk.
    pub open spec fn mark_created(self, root: Seq<Seq<u8>>, id: FileId, now: u64) -> GoneView {
        GoneView {
            created_reported: self.kept_marks(now).insert(root, (now, id)),
            pruned_at: if self.prunes(now) {
                Some(now)
            } else {
                self.pruned_at
            },
            ..self
        }
    }

    /// Whether the creation of `root`, which is the file `id` now, was reported a moment ago.
    pub open spec fn was_reported(self, root: Seq<Seq<u8>>, id: Option<FileId>, now: u64) -> bool {
        self.created_reported.contains_key(root) && !stale(now, self.created_reported[root].0)
            && Some(self.created_reported[root].1) == id
    }

    /// The mark of `root` is used up.
    pub open spec fn unmarked(self, root: Seq<Seq<u8>>) -> GoneView {
        GoneView { created_reported: self.created_reported.remove(root), ..self }
    }

    /// How `root` was seen to go, if it was.
    pub open spec fn how(self, root: Seq<Seq<u8>>) -> Option<Went> {
        if self.roots.contains_key(root) {
            Some(self.roots[root])
        } else {
            None
        }
    }

    /// Whether a root that goes starts a looking thread.
    pub open spec fn starts_looking(self) -> bool {
        !self.looking && !self.stopped
    }

    /// `root` went, as a root change says.
    pub open spec fn went(self, root: Seq<Seq<u8>>) -> GoneView {
        GoneView {
            roots: self.roots.insert(root, Went::RootChange),
            created_reported: self.created_reported.remove(root),
            epoch: self.epoch.wrapping_add(1),
            looking: self.looking || !self.stopped,
            ..self
        }
    }

    /// `root` is there.
    pub open spec fn not_gone(self, root: Seq<Seq<u8>>) -> GoneView {
        GoneView { roots: self.roots.remove(root), ..self }
    }

    /// `root` is no longer watched.
    pub open spec fn forgotten(self, root: Seq<Seq<u8>>) -> GoneView {
        GoneView {
            roots: self.roots.remove(root),
            created_reported: self.created_reported.remove(root),
            ..self
        }
    }

    /// The disk says what became of `root`. A root that was not known to be gone and is not there
    /// went; one that is known to be gone and is there came back.
    pub open spec fn looked_at(
        self,
        root: Seq<Seq<u8>>,
        stat: Option<Stat>,
        now: u64,
    ) -> GoneView {
        match stat {
            Some(stat) => if self.roots.contains_key(root) {
                self.not_gone(root).mark_created(root, stat.id, now)
            } else {
                self
            },
            None => self.went(root),
        }
    }

    /// What is reported of `root` when the disk says what became of it.
    pub open spec fn reports(self, root: Seq<Seq<u8>>, stat: Option<Stat>) -> Seq<EventView> {
        match stat {
            Some(stat) => if self.roots.contains_key(root) {
                seq![created_root(stat.is_dir, root)]
            } else {
                Seq::empty()
            },
            None => if self.roots.contains_key(root) {
                Seq::empty()
            } else {
                seq![gone_root(root)]
            },
        }
    }
}

/// The event for a root that is back.
pub open spec fn created_root(is_dir: bool, root: Seq<Seq<u8>>) -> EventView {
    EventView::new(translate::created_kind(is_dir)).with_info("root changed").with_path(root)
}

/// The event for a root that is out of reach.
pub open spec fn gone_root(root: Seq<Seq<u8>>) -> EventView {
    EventView::new(EventKind::Remove(RemoveKind::Any)).with_info("root changed").with_path(root)
}

/// The state after the disk was asked about `roots`, in turn, and what is reported.
pub open spec fn looked_at_all(
    gone: GoneView,
    roots: Seq<Seq<Seq<u8>>>,
    stats: Seq<Option<Stat>>,
    now: u64,
) -> (GoneView, Seq<EventView>)
    decreases roots.len(),
{
    if roots.len() == 0 {
        (gone, Seq::empty())
    } else {
        let (before, events) = looked_at_all(gone, roots.drop_last(), stats.drop_last(), now);
        (
            before.looked_at(roots.last(), stats.last(), now),
            events + before.reports(roots.last(), stats.last()),
        )
    }
}

/// The event for a root that is back.
pub fn root_created(is_dir: bool, root: PathBuf) -> (event: Event)
    ensures
        event@ == created_root(is_dir, root@),
{
    let kind = if is_dir {
        CreateKind::Folder
    } else {
        CreateKind::File
    };
    Event::new(EventKind::Create(kind)).set_info("root changed").add_path(root)
}

/// The event for a root that is out of reach.
pub fn root_gone(root: PathBuf) -> (event: Event)
    ensures
        event@ == gone_root(root@),
{
    Event::new(EventKind::Remove(RemoveKind::Any)).set_info("root changed").add_path(root)
}

fn is_stale(now: u64, at: u64) -> (r: bool)
    ensures
        r == stale(now, at),
{
    now >= at && now - at >= CREATED_REPORTED_FOR
}

/// The `TrackPath` roots that are not there. FSEvents reports a root that comes back through
/// `ROOT_CHANGED`, except when it comes back within a few milliseconds of going; a root that
/// went is therefore looked at again shortly after, on a thread of its own.
#[derive(Debug)]
pub struct GoneRootsState {
    roots: PathMap<Went>,
    created_reported: PathMap<(u64, FileId)>,
    pruned_at: Option<u64>,
    epoch: u64,
    looking: bool,
    stopped: bool,
}

impl View for GoneRootsState {
    type V = GoneView;

    closed spec fn view(&self) -> GoneView {
        GoneView {
            roots: self.roots@,
            created_reported: self.created_reported@,
            pruned_at: self.pruned_at,
            epoch: self.epoch,
            looking: self.looking,
            stopped: self.stopped,
        }
    }
}

impl GoneRootsState {
    pub closed spec fn wf(&self) -> bool {
        self.roots.wf() && self.created_reported.wf()
    }

    pub fn new() -> (gone: Self)
        ensures
            gone.wf(),
            gone@ == GoneView::new(),
    {
        GoneRootsState {
            roots: PathMap::new(),
            created_reported: PathMap::new(),
            pruned_at: None,
            epoch: 0,
            looking: false,
            stopped: false,
        }
    }

    /// Drops the marks that are stale.
    fn prune(&mut self, now: u64)
        requires
            old(self).wf(),
        ensures
            final(self).wf(),
            final(self)@ == (GoneView {
                created_reported: old(self)@.created_reported.remove_keys(
                    old(self)@.created_reported.dom().filter(
                        |p: Seq<Seq<u8>>| stale(now, old(self)@.created_reported[p].0),
                    ),
                ),
                ..old(self)@
            }),
    {
        let ghost marks = self.created_reported@;
        let ghost keys = self.created_reported.keys();
        proof {
            self.created_reported.lemma_entries();
        }
        let n: usize = self.created_reported.len();
        let mut dropped: Vec<PathBuf> = Vec::new();
        let mut i: usize = 0;
        while i < n
            invariant
                i <= n == keys.len(),
                self.wf(),
                *self == *old(self),
                marks == self.created_reported@,
                keys == self.created_reported.keys(),
                forall|k: int|
                    0 <= k < keys.len() ==> marks.contains_key(#[trigger] keys[k])
                        && marks[keys[k]] == self.created_reported.value(k),
                forall|p: Seq<Seq<u8>>| #[trigger]
                    path::views(dropped@).contains(p) ==> marks.contains_key(p) && stale(
                        now,
                        marks[p].0,
                    ),
                forall|k: int|
                    0 <= k < i && stale(now, marks[#[trigger] keys[k]].0) ==> path::views(
                        dropped@,
                    ).contains(keys[k]),
            decreases n - i,
        {
            let at: u64 = self.created_reported.value_at(i).0;
            if is_stale(now, at) {
                let path = self.created_reported.key_at(i).clone();
                let ghost before = path::views(dropped@);
                proof {
                    path::lemma_views_push(dropped@, path);
                    assert(before.push(path@).contains(keys[i as int])) by {
                        assert(before.push(path@)[before.len() as int] == path@);
                    }
                    assert forall|p: Seq<Seq<u8>>| before.contains(p) implies before.push(
                        path@,
                    ).contains(p) by {
                        let k = choose|k: int| 0 <= k < before.len() && before[k] == p;
                        assert(before.push(path@)[k] == p);
                    }
                    assert(marks.contains_key(path@) && stale(now, marks[path@].0));
                    assert forall|p: Seq<Seq<u8>>| #[trigger]
                        before.push(path@).contains(p) implies p == path@ || before.contains(p) by {
                        let k = choose|k: int|
                            0 <= k < before.push(path@).len() && before.push(path@)[k] == p;
                        if k < before.len() {
                            assert(before[k] == p);
                        }
                    }
                }
                dropped.push(path);
            }
            i = i + 1;
        }
        let ghost stale_marks = marks.dom().filter(|p: Seq<Seq<u8>>| stale(now, marks[p].0));
        proof {
            self.created_reported.lemma_entries();
            assert forall|p: Seq<Seq<u8>>| stale_marks.contains(p) implies path::views(
                dropped@,
            ).contains(p) by {
                let k = choose|k: int| 0 <= k < keys.len() && keys[k] == p;
                assert(keys[k] == p);
            }
        }
        let ghost all = path::views(dropped@);
        let mut j: usize = 0;
        assert(all.take(0).to_set() =~= Set::empty());
        assert(marks.remove_keys(Set::empty()) =~= marks);
        while j < dropped.len()
            invariant
                j <= dropped@.len(),
                all == path::views(dropped@),
                self.wf(),
                self.roots == old(self).roots,
                self.pruned_at == old(self).pruned_at,
                self.epoch == old(self).epoch,
                self.looking == old(self).looking,
                self.stopped == old(self).stopped,
                self.created_reported@ == marks.remove_keys(all.take(j as int).to_set()),
            decreases dropped.len() - j,
        {
            self.created_reported.remove(&dropped[j]);
            proof {
                let next = all.take(j + 1);
                assert(next =~= all.take(j as int).push(all[j as int]));
                assert forall|p: Seq<Seq<u8>>| next.to_set().contains(p) == (all.take(
                    j as int,
                ).to_set().contains(p) || p == all[j as int]) by {
                    if next.contains(p) {
                        let k = choose|k: int| 0 <= k < next.len() && next[k] == p;
                        if k < j {
                            assert(all.take(j as int)[k] == p);
                        }
                    }
                    if all.take(j as int).contains(p) {
                        let k = choose|k: int|
                            0 <= k < all.take(j as int).len() && all.take(j as int)[k] == p;
                        assert(next[k] == p);
                    }
                    assert(next[j as int] == all[j as int]);
                }
                assert(self.created_reported@ =~= marks.remove_keys(next.to_set()));
            }
            j = j + 1;
        }
        proof {
            assert(all.take(j as int) =~= all);
            assert(all.to_set() =~= stale_marks);
        }
    }

    /// `root` is back as the file `id`, and that was reported from the disk. The marks that went
    /// stale are dropped now and then, since a root that never gets its own event never uses its
    /// mark up.
    pub fn mark_created(&mut self, root: PathBuf, id: FileId, now: u64)
        requires
            old(self).wf(),
        ensures
            final(self).wf(),
            final(self)@ == old(self)@.mark_created(root@, id, now),
    {
        let prunes = match self.pruned_at {
            Some(at) => is_stale(now, at),
            None => true,
        };
        if prunes {
            self.prune(now);
            self.pruned_at = Some(now);
        }
        self.created_reported.insert(root, (now, id));
        assert(self@ =~= old(self)@.mark_created(root@, id, now));
    }

    /// Whether the creation of `root`, which is the file `id` now, was reported from the disk a
    /// moment ago. A root that is another file, or none, was deleted since, and its creation is a
    /// new one. The mark is used up either way.
    pub fn take_created(&mut self, root: &PathBuf, id: Option<FileId>, now: u64) -> (reported: bool)
        requires
            old(self).wf(),
        ensures
            final(self).wf(),
            final(self)@ == old(self)@.unmarked(root@),
            reported == old(self)@.was_reported(root@, id, now),
    {
        match self.created_reported.remove(root) {
            Some((at, marked)) => {
                let same = match id {
                    Some(id) => id == marked,
                    None => false,
                };
                !is_stale(now, at) && same
            },
            None => false,
        }
    }

    /// `root` went, as a root change says; look at it again in a moment unless FSEvents reports
    /// it back first. Says how the root was seen to go before, if it was, as far as this knows:
    /// `None` for a root that was there. Says too whether a looking thread has to be started.
    pub fn went(&mut self, root: &PathBuf) -> (r: (Option<Went>, bool))
        requires
            old(self).wf(),
        ensures
            final(self).wf(),
            final(self)@ == old(self)@.went(root@),
            r.0 == old(self)@.how(root@),
            r.1 == old(self)@.starts_looking(),
    {
        self.created_reported.remove(root);
        let before = self.roots.insert(root.clone(), Went::RootChange);
        self.epoch = self.epoch.wrapping_add(1);
        if self.looking || self.stopped {
            return (before, false);
        }
        self.looking = true;
        (before, true)
    }

    /// The looking thread could not be started, or ended early.
    pub fn not_looking(&mut self)
        requires
            old(self).wf(),
        ensures
            final(self).wf(),
            final(self)@ == (GoneView { looking: false, ..old(self)@ }),
    {
        self.looking = false;
    }

    /// The roots that are gone, for the looking thread to look at.
    pub fn gone(&self) -> (roots: Vec<PathBuf>)
        requires
            self.wf(),
        ensures
            path::views(roots@).to_set() == self@.roots.dom(),
            path::views(roots@).no_duplicates(),
    {
        proof {
            self.roots.lemma_entries();
        }
        let n: usize = self.roots.len();
        let mut roots: Vec<PathBuf> = Vec::new();
        let mut i: usize = 0;
        while i < n
            invariant
                i <= n == self.roots.keys().len(),
                path::views(roots@) == self.roots.keys().take(i as int),
            decreases n - i,
        {
            let path = self.roots.key_at(i).clone();
            proof {
                path::lemma_views_push(roots@, path);
                assert(self.roots.keys().take(i + 1) =~= self.roots.keys().take(i as int).push(
                    path@,
                ));
            }
            roots.push(path);
            i = i + 1;
        }
        assert(self.roots.keys().take(i as int) =~= self.roots.keys());
        roots
    }

    pub fn epoch(&self) -> (epoch: u64)
        ensures
            epoch == self@.epoch,
    {
        self.epoch
    }

    pub fn is_looking(&self) -> (looking: bool)
        ensures
            looking == self@.looking,
    {
        self.looking
    }

    pub fn is_stopped(&self) -> (stopped: bool)
        ensures
            stopped == self@.stopped,
    {
        self.stopped
    }

    pub fn is_gone(&self, root: &PathBuf) -> (gone: bool)
        requires
            self.wf(),
        ensures
            gone == self@.roots.contains_key(root@),
    {
        self.roots.contains(root)
    }

    /// The roots whose coming back was reported, and for which a mark stands.
    pub fn marked(&self) -> (roots: Vec<PathBuf>)
        requires
            self.wf(),
        ensures
            path::views(roots@).to_set() == self@.created_reported.dom(),
            path::views(roots@).no_duplicates(),
    {
        proof {
            self.created_reported.lemma_entries();
        }
        let n: usize = self.created_reported.len();
        let mut roots: Vec<PathBuf> = Vec::new();
        let mut i: usize = 0;
        while i < n
            invariant
                i <= n == self.created_reported.keys().len(),
                path::views(roots@) == self.created_reported.keys().take(i as int),
            decreases n - i,
        {
            let path = self.created_reported.key_at(i).clone();
            proof {
                path::lemma_views_push(roots@, path);
                assert(self.created_reported.keys().take(i + 1)
                    =~= self.created_reported.keys().take(i as int).push(path@));
            }
            roots.push(path);
            i = i + 1;
        }
        assert(self.created_reported.keys().take(i as int) =~= self.created_reported.keys());
        roots
    }

    pub fn is_marked(&self, root: &PathBuf) -> (marked: bool)
        requires
            self.wf(),
        ensures
            marked == self@.created_reported.contains_key(root@),
    {
        self.created_reported.contains(root)
    }

    /// The looking thread found `root` as `stat` says: the event to report, unless the watcher
    /// stopped, or the root's coming back was seen before.
    pub fn found(&mut self, root: &PathBuf, stat: Stat, now: u64) -> (report: Option<Event>)
        requires
            old(self).wf(),
        ensures
            final(self).wf(),
            final(self)@ == (if old(self)@.stopped {
                old(self)@
            } else {
                old(self)@.looked_at(root@, Some(stat), now)
            }),
            (match report {
                Some(event) => !old(self)@.stopped && old(self)@.reports(root@, Some(stat))
                    == seq![event@],
                None => old(self)@.stopped || old(self)@.reports(root@, Some(stat)).len() == 0,
            }),
    {
        if self.stopped {
            return None;
        }
        if self.roots.remove(root).is_none() {
            assert(self@ =~= old(self)@);
            return None;
        }
        self.mark_created(root.clone(), stat.id, now);
        Some(root_created(stat.is_dir, root.clone()))
    }

    /// Whether the looking thread is done: no root went since `epoch`, or the watcher stopped.
    /// `looking` is then reset, and the guard disarmed, at once. A root that goes right after
    /// starts a looker of its own, whose `looking` the guard must not reset: that would let a
    /// third one start and leave the second out of the wait for the looker.
    pub fn done_looking(&mut self, epoch: u64, looking: &mut LookingGuard) -> (done: bool)
        requires
            old(self).wf(),
        ensures
            final(self).wf(),
            done == (old(self)@.epoch == epoch || old(self)@.stopped),
            done ==> final(self)@ == (GoneView { looking: false, ..old(self)@ }),
            done ==> !final(looking).armed,
            !done ==> final(self)@ == old(self)@ && *final(looking) == *old(looking),
    {
        if self.epoch != epoch && !self.stopped {
            return false;
        }
        self.looking = false;
        looking.armed = false;
        true
    }

    /// The watcher stops.
    pub fn stop(&mut self)
        requires
            old(self).wf(),
        ensures
            final(self).wf(),
            final(self)@ == (GoneView { stopped: true, ..old(self)@ }),
    {
        self.stopped = true;
    }

    /// `root` is no longer watched.
    pub fn forget(&mut self, root: &PathBuf)
        requires
            old(self).wf(),
        ensures
            final(self).wf(),
            final(self)@ == old(self)@.forgotten(root@),
    {
        self.roots.remove(root);
        self.created_reported.remove(root);
    }

    /// `root` is there.
    pub fn is_there(&mut self, root: &PathBuf)
        requires
            old(self).wf(),
        ensures
            final(self).wf(),
            final(self)@ == old(self)@.not_gone(root@),
    {
        self.roots.remove(root);
    }

    /// `root` is not there, as its own event says: an ancestor's event later finds it gone
    /// already.
    pub fn went_by_its_own_event(&mut self, root: &PathBuf)
        requires
            old(self).wf(),
        ensures
            final(self).wf(),
            final(self)@ == (GoneView {
                roots: if old(self)@.roots.contains_key(root@) {
                    old(self)@.roots
                } else {
                    old(self)@.roots.insert(root@, Went::OwnEvent)
                },
                ..old(self)@
            }),
    {
        if !self.roots.contains(root) {
            self.roots.insert(root.clone(), Went::OwnEvent);
        }
    }

    /// The disk says what became of each of `roots`: a root that is out of reach is reported as
    /// removed, one that is back as created. Says too whether a looking thread has to be started.
    pub fn check_roots(
        &mut self,
        roots: &Vec<PathBuf>,
        stats: &Vec<Option<Stat>>,
        now: u64,
    ) -> (r: (Vec<Event>, bool))
        requires
            old(self).wf(),
            stats@.len() == roots@.len(),
        ensures
            final(self).wf(),
            (final(self)@, event::views(r.0@)) == looked_at_all(
                old(self)@,
                path::views(roots@),
                stats@,
                now,
            ),
            r.1 == (!old(self)@.looking && final(self)@.looking),
    {
        let mut events: Vec<Event> = Vec::new();
        let mut start = false;
        let ghost paths = path::views(roots@);
        let mut i: usize = 0;
        assert(event::views(events@) =~= Seq::empty());
        while i < roots.len()
            invariant
                i <= roots@.len() == stats@.len(),
                paths == path::views(roots@),
                self.wf(),
                (self@, event::views(events@)) == looked_at_all(
                    old(self)@,
                    paths.take(i as int),
                    stats@.take(i as int),
                    now,
                ),
                start == (!old(self)@.looking && self@.looking),
                old(self)@.looking ==> self@.looking,
                self@.stopped == old(self)@.stopped,
            decreases roots.len() - i,
        {
            let ghost before = self@;
            let ghost told = event::views(events@);
            proof {
                assert(paths.take(i + 1).drop_last() =~= paths.take(i as int));
                assert(stats@.take(i + 1).drop_last() =~= stats@.take(i as int));
                assert(paths.take(i + 1).last() == roots@[i as int]@);
                assert(stats@.take(i + 1).last() == stats@[i as int]);
            }
            let root = &roots[i];
            match stats[i] {
                Some(stat) => {
                    if self.roots.remove(root).is_some() {
                        self.mark_created(root.clone(), stat.id, now);
                        event::push_event(
                            &mut events,
                            root_created(stat.is_dir, root.clone()),
                        );
                    } else {
                        assert(self@ =~= before);
                    }
                },
                None => {
                    let (how, starts) = self.went(root);
                    if starts {
                        start = true;
                    }
                    if how.is_none() {
                        event::push_event(&mut events, root_gone(root.clone()));
                    }
                },
            }
            assert(self@ =~= before.looked_at(roots@[i as int]@, stats@[i as int], now));
            assert(event::views(events@) =~= told + before.reports(
                roots@[i as int]@,
                stats@[i as int],
            ));
            i = i + 1;
        }
        assert(paths.take(i as int) =~= paths);
        assert(stats@.take(i as int) =~= stats@);
        (events, start)
    }
}

/// Resets `looking` when the looking thread ends early: a panicking handler must not keep the
/// next root that goes from being looked at. The thread disarms it when it ends normally.
#[derive(Debug)]
pub struct LookingGuard {
    pub armed: bool,
}

impl LookingGuard {
    /// The looking thread ends.
    pub fn release(self, gone: &mut GoneRootsState)
        requires
            old(gone).wf(),
        ensures
            final(gone).wf(),
            final(gone)@ == (if self.armed {
                GoneView { looking: false, ..old(gone)@ }
            } else {
                old(gone)@
            }),
    {
        if self.armed {
            gone.not_looking();
        }
    }
}

/// A root that went is reported gone once: it is not reported again before it is back.
pub proof fn gone_is_reported_once(gone: GoneView, root: Seq<Seq<u8>>, now: u64)
    ensures
        gone.looked_at(root, None, now).reports(root, None).len() == 0,
        gone.went(root).how(root) == Some(Went::RootChange),
{
}

/// A root that is back is reported back once: it is not reported again before it went.
pub proof fn back_is_reported_once(gone: GoneView, root: Seq<Seq<u8>>, stat: Stat, now: u64)
    ensures
        gone.looked_at(root, Some(stat), now).reports(root, Some(stat)).len() == 0,
{
}

/// A root that goes and comes back is reported gone, back, and nothing is left of its going.
pub proof fn gone_and_back(gone: GoneView, root: Seq<Seq<u8>>, stat: Stat, now: u64)
    requires
        !gone.roots.contains_key(root),
    ensures
        gone.reports(root, None) == seq![gone_root(root)],
        gone.looked_at(root, None, now).reports(root, Some(stat)) == seq![
            created_root(stat.is_dir, root),
        ],
        gone.looked_at(root, None, now).looked_at(root, Some(stat), now).roots == gone.roots,
{
    assert(gone.looked_at(root, None, now).looked_at(root, Some(stat), now).roots =~= gone.roots);
}

/// What the disk says of other roots does not tell whether a root is gone.
proof fn lemma_others(
    gone: GoneView,
    roots: Seq<Seq<Seq<u8>>>,
    stats: Seq<Option<Stat>>,
    now: u64,
    root: Seq<Seq<u8>>,
)
    requires
        !roots.contains(root),
    ensures
        looked_at_all(gone, roots, stats, now).0.roots.contains_key(root)
            == gone.roots.contains_key(root),
    decreases roots.len(),
{
    if roots.len() > 0 {
        assert(roots[roots.len() - 1] == roots.last());
        let shorter = roots.drop_last();
        assert forall|i: int| 0 <= i < shorter.len() implies shorter[i] != root by {
            assert(shorter[i] == roots[i]);
        }
        lemma_others(gone, shorter, stats.drop_last(), now, root);
    }
}

/// Of several roots that are looked at, each that went is reported gone and each that came back is
/// reported back.
pub proof fn each_root_is_reported(
    gone: GoneView,
    roots: Seq<Seq<Seq<u8>>>,
    stats: Seq<Option<Stat>>,
    now: u64,
    i: int,
)
    requires
        roots.no_duplicates(),
        stats.len() == roots.len(),
        0 <= i < roots.len(),
    ensures
        stats[i] is None && !gone.roots.contains_key(roots[i]) ==> looked_at_all(
            gone,
            roots,
            stats,
            now,
        ).1.contains(gone_root(roots[i])),
        stats[i] matches Some(stat) ==> gone.roots.contains_key(roots[i]) ==> looked_at_all(
            gone,
            roots,
            stats,
            now,
        ).1.contains(created_root(stat.is_dir, roots[i])),
    decreases roots.len(),
{
    let shorter = roots.drop_last();
    let (before, events) = looked_at_all(gone, shorter, stats.drop_last(), now);
    let more = before.reports(roots.last(), stats.last());
    let all = events + more;
    if i < shorter.len() {
        each_root_is_reported(gone, shorter, stats.drop_last(), now, i);
        assert(shorter[i] == roots[i]);
        assert forall|event: EventView| #[trigger]
            events.contains(event) implies all.contains(event) by {
            let k = events.index_of(event);
            assert(all[k] == event);
        }
    } else {
        assert forall|k: int| 0 <= k < shorter.len() implies shorter[k] != roots[i] by {
            assert(shorter[k] == roots[k]);
        }
        lemma_others(gone, shorter, stats.drop_last(), now, roots[i]);
        if more.len() > 0 {
            assert(all[events.len() as int] == more[0]);
        }
    }
}

/// A mark stands once, for a moment, and only for the file that was there.
pub proof fn mark_stands_once(
    gone: GoneView,
    root: Seq<Seq<u8>>,
    marked: FileId,
    id: Option<FileId>,
    now: u64,
    later: u64,
)
    ensures
        gone.mark_created(root, marked, now).was_reported(root, id, later) == (id == Some(marked)
            && !stale(later, now)),
        !gone.unmarked(root).was_reported(root, id, later),
{
}

/// A looking thread is started only when none runs, and then one runs.
pub proof fn one_looking_thread(gone: GoneView, root: Seq<Seq<u8>>)
    ensures
        gone.starts_looking() ==> !gone.looking,
        gone.starts_looking() ==> gone.went(root).looking,
        !gone.went(root).starts_looking(),
{
}

} // verus!
