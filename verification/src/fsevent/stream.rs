//! The stream of a watcher: what it watches while it runs.

use crate::config::WatchMode;
use crate::consolidating_path_trie;
use crate::error::{Error, ErrorKind, ErrorView};
use crate::fsevent::budget;
use crate::fsevent::budget::FseventsPathReservation;
use crate::fsevent::paths;
use crate::fsevent::roots::{GoneRootsState, GoneView};
use crate::path;
use crate::path::PathBuf;
use crate::path_map;
use crate::path_map::PathMap;
use crate::path_trie;
use std::sync::atomic::AtomicUsize;
use vstd::prelude::*;

verus! {

/// FSEvents-based watcher: what is watched, and the paths of the stream that watches it.
#[derive(Debug)]
pub struct FsEventWatcher {
    watches: PathMap<WatchMode>,
    paths: Vec<String>,
    max_fsevent_paths: usize,
}

/// `wanted` are the paths that a stream has to watch, in their order.
pub open spec fn are_wanted<E: Fn(&PathBuf) -> bool>(
    exists_at: E,
    watches: Map<Seq<Seq<u8>>, WatchMode>,
    gone: GoneView,
    max_paths: nat,
    anchors: Seq<Seq<Seq<u8>>>,
    wanted: Seq<Seq<Seq<u8>>>,
) -> bool {
    &&& forall|i: int|
        0 <= i < anchors.len() ==> paths::anchors_one(
            exists_at,
            paths::anchored(watches, gone),
            #[trigger] anchors[i],
        )
    &&& forall|root: Seq<Seq<u8>>| #[trigger]
        paths::anchored(watches, gone).contains(root) ==> paths::anchored_by(
            exists_at,
            root,
            anchors,
        )
    &&& consolidating_path_trie::lists(wanted, stood_for(watches, max_paths, anchors))
}

/// The paths that stand for what is watched and for the anchors.
pub open spec fn stood_for(
    watches: Map<Seq<Seq<u8>>, WatchMode>,
    max_paths: nat,
    anchors: Seq<Seq<Seq<u8>>>,
) -> Set<Seq<Seq<u8>>> {
    consolidating_path_trie::handed_out(
        paths::inserted_all(Set::empty(), path_map::in_order(watches.dom()) + anchors),
        max_paths,
    )
}

/// The paths of a stream brought up to date with those to watch.
pub open spec fn updated(current: Seq<Seq<char>>, wanted: Seq<Seq<Seq<u8>>>) -> Seq<Seq<char>> {
    paths::merged(current, paths::shown_all(wanted), paths::compared(wanted))
}

impl FsEventWatcher {
    pub closed spec fn wf(&self) -> bool {
        self.watches.wf()
    }

    /// What is watched, and how.
    pub closed spec fn watches(&self) -> Map<Seq<Seq<u8>>, WatchMode> {
        self.watches@
    }

    /// The paths of the stream.
    pub closed spec fn paths(&self) -> Seq<Seq<char>> {
        paths::texts(self.paths@)
    }

    pub closed spec fn max_paths(&self) -> nat {
        self.max_fsevent_paths as nat
    }

    pub fn new(max_fsevent_paths: usize) -> (watcher: Self)
        ensures
            watcher.wf(),
            watcher.watches() == Map::<Seq<Seq<u8>>, WatchMode>::empty(),
            watcher.paths() == Seq::<Seq<char>>::empty(),
            watcher.max_paths() == max_fsevent_paths,
    {
        let watcher = FsEventWatcher {
            watches: PathMap::new(),
            paths: Vec::new(),
            max_fsevent_paths,
        };
        assert(watcher.paths() =~= Seq::empty());
        watcher
    }

    /// What is watched, for the events of the stream.
    pub fn watched(&self) -> (watches: &PathMap<WatchMode>)
        requires
            self.wf(),
        ensures
            watches.wf(),
            watches@ == self.watches(),
    {
        &self.watches
    }

    /// The paths of the stream.
    pub fn stream_paths(&self) -> (list: &Vec<String>)
        ensures
            paths::texts(list@) == self.paths(),
    {
        &self.paths
    }

    /// Watches `path`, whose canonical path is `canonical`. Says whether a looking thread has to be
    /// started.
    pub fn append_path(
        &mut self,
        gone: &mut GoneRootsState,
        path: &PathBuf,
        mode: WatchMode,
        there: bool,
        canonical: PathBuf,
        canonical_exists: bool,
    ) -> (r: Result<bool, Error>)
        requires
            old(self).wf(),
            old(gone).wf(),
        ensures
            final(self).wf(),
            final(gone).wf(),
            final(self).paths() == old(self).paths(),
            final(self).max_paths() == old(self).max_paths(),
            (match r {
                Ok(start) => {
                    &&& paths::can_watch(path@, mode, there)
                    &&& (final(self).watches(), final(gone)@) == paths::appended(
                        old(self).watches(),
                        old(gone)@,
                        canonical@,
                        mode,
                        canonical_exists,
                    )
                    &&& start == (!old(gone)@.looking && final(gone)@.looking)
                },
                Err(error) => {
                    &&& !paths::can_watch(path@, mode, there)
                    &&& error@ == ErrorView::at(ErrorKind::PathNotFound, path@)
                    &&& final(self).watches() == old(self).watches()
                    &&& final(gone)@ == old(gone)@
                },
            }),
    {
        paths::append_path(
            &mut self.watches,
            gone,
            path,
            mode,
            there,
            canonical,
            canonical_exists,
        )
    }

    /// Watches `path`, whose canonical path is `canonical`, no longer.
    pub fn remove_path(
        &mut self,
        gone: &mut GoneRootsState,
        path: &PathBuf,
        canonical: &PathBuf,
    ) -> (r: Result<(), Error>)
        requires
            old(self).wf(),
            old(gone).wf(),
        ensures
            final(self).wf(),
            final(gone).wf(),
            final(self).paths() == old(self).paths(),
            final(self).max_paths() == old(self).max_paths(),
            final(self).watches() == (if path@.len() == 0 {
                old(self).watches()
            } else {
                old(self).watches().remove(canonical@)
            }),
            final(gone)@ == (if path@.len() == 0 {
                old(gone)@
            } else {
                old(gone)@.forgotten(canonical@)
            }),
            (match r {
                Ok(()) => path@.len() > 0 && old(self).watches().contains_key(canonical@),
                Err(error) => {
                    &&& path@.len() == 0 || !old(self).watches().contains_key(canonical@)
                    &&& error@ == ErrorView::new(ErrorKind::WatchNotFound)
                },
            }),
    {
        paths::remove_path(&mut self.watches, gone, path, canonical)
    }

    /// Brings the paths of the stream up to date with what is watched.
    pub fn update_paths_based_on_watches<E: Fn(&PathBuf) -> bool>(
        &mut self,
        gone: &GoneRootsState,
        exists_at: &E,
    )
        requires
            old(self).wf(),
            gone.wf(),
            forall|p: PathBuf| #[trigger] exists_at.requires((&p,)),
        ensures
            final(self).wf(),
            final(self).watches() == old(self).watches(),
            final(self).max_paths() == old(self).max_paths(),
            exists|anchors: Seq<Seq<Seq<u8>>>, wanted: Seq<Seq<Seq<u8>>>|
                {
                    &&& #[trigger] are_wanted(
                        *exists_at,
                        old(self).watches(),
                        gone@,
                        old(self).max_paths(),
                        anchors,
                        wanted,
                    )
                    &&& final(self).paths() == updated(old(self).paths(), wanted)
                },
    {
        let anchors = paths::missing_root_anchors(&self.watches, gone, exists_at);
        let wanted = paths::paths_to_watch(&self.watches, &anchors, self.max_fsevent_paths);
        assert(are_wanted(
            *exists_at,
            self.watches(),
            gone@,
            self.max_paths(),
            path::views(anchors@),
            path::views(wanted@),
        ));
        self.paths = paths::update_paths(&self.paths, &wanted);
    }

    /// Makes ready for a stream. Nothing has to be started when nothing is watched. Otherwise the
    /// stream's paths are brought up to date and counted among those of all streams of the process.
    ///
    /// Over roughly a tenth of the descriptors' limit across all live streams, FSEvents closes a
    /// descriptor that this process owns: so many paths are refused.
    pub fn run<'a, E: Fn(&PathBuf) -> bool>(
        &mut self,
        gone: &GoneRootsState,
        exists_at: &E,
        active_paths: &'a AtomicUsize,
        soft_limit: Option<u64>,
    ) -> (r: Result<Option<FseventsPathReservation<'a>>, Error>)
        requires
            old(self).wf(),
            gone.wf(),
            forall|p: PathBuf| #[trigger] exists_at.requires((&p,)),
        ensures
            final(self).wf(),
            final(self).watches() == old(self).watches(),
            final(self).max_paths() == old(self).max_paths(),
            (match r {
                Ok(None) => old(self).watches().dom() =~= Set::empty() && final(self).paths() == old(
                    self,
                ).paths(),
                Ok(Some(reservation)) => {
                    &&& !(old(self).watches().dom() =~= Set::empty())
                    &&& reservation.path_count() == final(self).paths().len()
                    &&& final(self).paths().len() <= budget::path_budget(soft_limit)
                },
                Err(error) => {
                    &&& !(old(self).watches().dom() =~= Set::empty())
                    &&& error@ == ErrorView::new(ErrorKind::MaxFilesWatch)
                    &&& budget::is_refusable(final(self).paths().len() as usize, soft_limit)
                },
            }),
            r != Ok::<Option<FseventsPathReservation<'a>>, Error>(None) ==> exists|
                anchors: Seq<Seq<Seq<u8>>>,
                wanted: Seq<Seq<Seq<u8>>>,
            |
                {
                    &&& #[trigger] are_wanted(
                        *exists_at,
                        old(self).watches(),
                        gone@,
                        old(self).max_paths(),
                        anchors,
                        wanted,
                    )
                    &&& final(self).paths() == updated(old(self).paths(), wanted)
                },
    {
        proof {
            self.watches.lemma_entries();
        }
        if self.watches.len() == 0 {
            assert(self.watches@.dom() =~= Set::empty());
            return Ok(None);
        }
        assert(!(self.watches@.dom() =~= Set::empty()));
        self.update_paths_based_on_watches(gone, exists_at);
        match budget::reserve(active_paths, self.paths.len(), soft_limit) {
            Ok(reservation) => Ok(Some(reservation)),
            Err(active) => {
                assert(budget::combined(
                    active,
                    self.paths.len(),
                    budget::path_budget(soft_limit) as usize,
                ) is None);
                Err(Error::new(ErrorKind::MaxFilesWatch))
            },
        }
    }
}

/// Everything that is watched is covered by the paths that a stream has to watch, as they list it.
/// They list an absolute path as it is, and every path if none of them is absolute.
pub proof fn stream_covers_watches<E: Fn(&PathBuf) -> bool>(
    exists_at: E,
    watches: Map<Seq<Seq<u8>>, WatchMode>,
    gone: GoneView,
    max_paths: nat,
    anchors: Seq<Seq<Seq<u8>>>,
    wanted: Seq<Seq<Seq<u8>>>,
    x: Seq<Seq<u8>>,
)
    requires
        are_wanted(exists_at, watches, gone, max_paths, anchors, wanted),
        watches.dom().finite(),
        forall|p: Seq<Seq<u8>>| #[trigger] watches.contains_key(p) ==> p.len() <= usize::MAX,
        forall|p: Seq<Seq<u8>>| #[trigger] anchors.contains(p) ==> p.len() <= usize::MAX,
        watches.contains_key(x) || anchors.contains(x),
    ensures
        consolidating_path_trie::covers(
            wanted.to_set(),
            path_trie::listed_as(
                consolidating_path_trie::is_rooted(stood_for(watches, max_paths, anchors)),
                x,
            ),
        ),
        path::is_absolute(x) || !consolidating_path_trie::is_rooted(
            stood_for(watches, max_paths, anchors),
        ) ==> consolidating_path_trie::covers(wanted.to_set(), x),
{
    path_map::lemma_all_listed(watches.dom());
    let listed = path_map::in_order(watches.dom());
    let all = listed + anchors;
    assert(all.contains(x)) by {
        if watches.contains_key(x) {
            assert(listed.to_set().contains(x));
            let i = choose|i: int| 0 <= i < listed.len() && listed[i] == x;
            assert(all[i] == x);
        } else {
            let i = choose|i: int| 0 <= i < anchors.len() && anchors[i] == x;
            assert(all[listed.len() + i] == x);
        }
    }
    paths::inserted_all_covers(Set::empty(), all, x);
    assert forall|i: int| 0 <= i < all.len() implies (#[trigger] all[i]).len() <= usize::MAX by {
        if i < listed.len() {
            assert(listed.to_set().contains(listed[i]));
            assert(watches.contains_key(all[i]));
        } else {
            assert(anchors.contains(anchors[i - listed.len()]));
        }
    }
    paths::inserted_all_finite(all, usize::MAX as nat);
    consolidating_path_trie::handed_out_covers(
        paths::inserted_all(Set::empty(), all),
        max_paths,
        x,
    );
    consolidating_path_trie::list_covers(wanted, stood_for(watches, max_paths, anchors), x);
}

} // verus!
