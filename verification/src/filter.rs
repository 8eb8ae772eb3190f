//! Ignoring paths.

use crate::path;
use crate::path::PathBuf;
use std::sync::Arc;
use vstd::prelude::*;

verus! {

/// The type of a path passed to an [`IgnoreFilter`].
#[derive(Copy, Clone, PartialEq, Eq, Debug, Hash, Structural)]
pub enum EntryKind {
    /// The path is a directory.
    Dir,
    /// The path is anything but a directory.
    File,
    /// The watcher cannot tell, for example because the path does not exist (anymore).
    Unknown,
}

impl EntryKind {
    pub open spec fn spec_of(is_dir: bool) -> EntryKind {
        if is_dir {
            EntryKind::Dir
        } else {
            EntryKind::File
        }
    }

    /// The kind that a look at the file system gives.
    pub open spec fn looked_up(is_dir: Option<bool>) -> EntryKind {
        match is_dir {
            Some(is_dir) => EntryKind::spec_of(is_dir),
            None => EntryKind::Unknown,
        }
    }

    /// The kind of an entry of which it is known whether it is a directory.
    pub fn of(is_dir: bool) -> (kind: EntryKind)
        ensures
            kind == EntryKind::spec_of(is_dir),
    {
        if is_dir {
            EntryKind::Dir
        } else {
            EntryKind::File
        }
    }
}

/// Decides which paths a watcher ignores.
///
/// The default filter ignores nothing. Clones share the same function, and two filters are equal
/// only if they do.
pub struct IgnoreFilter<F>(Option<Arc<F>>);

impl<F> View for IgnoreFilter<F> {
    type V = Option<F>;

    closed spec fn view(&self) -> Option<F> {
        match self.0 {
            Some(ignored) => Some(*ignored),
            None => None,
        }
    }
}

/// What the filter is asked about a path, and what it answers.
pub open spec fn answers<F: Fn(&PathBuf, EntryKind) -> bool>(
    ignored: F,
    path: Seq<Seq<u8>>,
    kind: EntryKind,
    answer: bool,
) -> bool {
    exists|p: PathBuf| p@ == path && #[trigger] ignored.ensures((&p, kind), answer)
}

/// Whether the filter can be asked about `path`.
pub open spec fn askable<F: Fn(&PathBuf, EntryKind) -> bool>(
    filter: Option<F>,
    path: Seq<Seq<u8>>,
    kind: EntryKind,
) -> bool {
    filter matches Some(ignored) ==> forall|p: PathBuf|
        p@ == path ==> #[trigger] ignored.requires((&p, kind))
}

/// The kind under which the filter is asked about the first `n` components of `path`.
pub open spec fn asked_kind(path: Seq<Seq<u8>>, kind: EntryKind, n: int) -> EntryKind {
    if n == path.len() {
        kind
    } else {
        EntryKind::Dir
    }
}

/// Whether the filter is asked about the first `n` components of `path`: the path itself, and the
/// parent directories that have more than `above` components.
pub open spec fn is_asked(path: Seq<Seq<u8>>, above: int, n: int) -> bool {
    n == path.len() || above < n < path.len()
}

/// Whether the filter can be asked about `path` and its parent directories that have more than
/// `above` components.
pub open spec fn askable_above<F: Fn(&PathBuf, EntryKind) -> bool>(
    filter: Option<F>,
    path: Seq<Seq<u8>>,
    kind: EntryKind,
    above: int,
) -> bool {
    forall|n: int| #[trigger]
        is_asked(path, above, n) ==> askable(filter, path.take(n), asked_kind(path, kind, n))
}

/// `r` tells whether the filter matches `path` or one of its parent directories that have more
/// than `above` components: it says yes to one of them, or no to all of them.
pub open spec fn matches_above<F: Fn(&PathBuf, EntryKind) -> bool>(
    filter: Option<F>,
    path: Seq<Seq<u8>>,
    kind: EntryKind,
    above: int,
    r: bool,
) -> bool {
    match filter {
        Some(ignored) => if r {
            exists|n: int| #[trigger]
                is_asked(path, above, n) && answers(
                    ignored,
                    path.take(n),
                    asked_kind(path, kind, n),
                    true,
                )
        } else {
            forall|n: int| #[trigger]
                is_asked(path, above, n) ==> answers(
                    ignored,
                    path.take(n),
                    asked_kind(path, kind, n),
                    false,
                )
        },
        None => !r,
    }
}

/// A directory that the filter always matches hides everything below it.
pub proof fn ignored_directory_hides_what_is_below<F: Fn(&PathBuf, EntryKind) -> bool>(
    ignored: F,
    path: Seq<Seq<u8>>,
    kind: EntryKind,
    above: int,
    n: int,
    r: bool,
)
    requires
        above < n < path.len(),
        !answers(ignored, path.take(n), EntryKind::Dir, false),
        matches_above(Some(ignored), path, kind, above, r),
    ensures
        r,
{
    assert(is_asked(path, above, n));
}

/// The filter without a function ignores nothing.
pub proof fn default_filter_matches_nothing<F: Fn(&PathBuf, EntryKind) -> bool>(
    path: Seq<Seq<u8>>,
    kind: EntryKind,
    above: int,
    r: bool,
)
    requires
        matches_above(None::<F>, path, kind, above, r),
    ensures
        !r,
{
}

/// Whether `watch` may tell of the first `n` components of `path` what it tells of a watch that
/// covers the path: it watches them, and recursively, or the path itself or its parent.
pub open spec fn covered_from<W: Fn(&PathBuf) -> Option<bool>>(
    watch: W,
    path: Seq<Seq<u8>>,
    n: int,
    covers: bool,
) -> bool {
    exists|p: PathBuf, told: Option<bool>| #[trigger]
        watch.ensures((&p,), told) && p@ == path.take(n) && covers == (told matches Some(recursive)
            && (recursive || n + 1 >= path.len()))
}

/// Whether the nearest watch that covers `path` is at its first `n` components.
pub open spec fn nearest_watch<W: Fn(&PathBuf) -> Option<bool>>(
    watch: W,
    path: Seq<Seq<u8>>,
    n: int,
) -> bool {
    &&& path::floor(path) <= n <= path.len()
    &&& covered_from(watch, path, n, true)
    &&& forall|k: int| n < k <= path.len() ==> #[trigger] covered_from(watch, path, k, false)
}

/// Whether no watch covers `path`.
pub open spec fn unwatched<W: Fn(&PathBuf) -> Option<bool>>(watch: W, path: Seq<Seq<u8>>) -> bool {
    forall|k: int|
        path::floor(path) <= k <= path.len() ==> #[trigger] covered_from(watch, path, k, false)
}

/// An entry is a directory or a file where it is known which, and of unknown kind otherwise.
pub proof fn entry_kinds_are_told(is_dir: bool, found: Option<bool>)
    ensures
        EntryKind::spec_of(is_dir) == EntryKind::Dir <==> is_dir,
        EntryKind::spec_of(is_dir) == EntryKind::File <==> !is_dir,
        EntryKind::looked_up(found) == EntryKind::Dir <==> found == Some(true),
        EntryKind::looked_up(found) == EntryKind::File <==> found == Some(false),
        EntryKind::looked_up(found) == EntryKind::Unknown <==> found is None,
{
}

/// Where the filter function says the same of a path whenever it is asked, a path is ignored
/// exactly when the function says so of the path, or of a directory above it that it is asked
/// about.
pub proof fn ignored_is_matched_itself_or_above<F: Fn(&PathBuf, EntryKind) -> bool>(
    ignored: F,
    says: spec_fn(Seq<Seq<u8>>, EntryKind) -> bool,
    path: Seq<Seq<u8>>,
    kind: EntryKind,
    above: int,
    r: bool,
)
    requires
        forall|p: Seq<Seq<u8>>, k: EntryKind, answer: bool| #[trigger]
            answers(ignored, p, k, answer) ==> answer == says(p, k),
        matches_above(Some(ignored), path, kind, above, r),
    ensures
        r <==> says(path, kind) || exists|n: int|
            above < n < path.len() && #[trigger] says(path.take(n), EntryKind::Dir),
{
    assert(path.take(path.len() as int) =~= path);
    if r {
        let n = choose|n: int| #[trigger]
            is_asked(path, above, n) && answers(
                ignored,
                path.take(n),
                asked_kind(path, kind, n),
                true,
            );
        assert(says(path.take(n), asked_kind(path, kind, n)));
    } else {
        assert(is_asked(path, above, path.len() as int));
        assert forall|n: int| above < n < path.len() implies !#[trigger] says(
            path.take(n),
            EntryKind::Dir,
        ) by {
            assert(is_asked(path, above, n));
        }
    }
}

/// Whether the watch that `told` tells of the first `n` components of `path` covers it: it is
/// recursive, or it is that of the path or of the directory it is in.
pub open spec fn is_covered_at(
    told: spec_fn(Seq<Seq<u8>>) -> Option<bool>,
    path: Seq<Seq<u8>>,
    n: int,
) -> bool {
    told(path.take(n)) == Some(true) || (told(path.take(n)) == Some(false) && (n == path.len() || n
        == path.len() - 1))
}

/// Where a path is told to be watched or not, and how, in the same way whenever that is asked, the
/// nearest watch is the longest of the path and the directories above it whose watch covers it. A
/// path is unwatched where there is none.
pub proof fn nearest_watch_is_longest<W: Fn(&PathBuf) -> Option<bool>>(
    watch: W,
    told: spec_fn(Seq<Seq<u8>>) -> Option<bool>,
    path: Seq<Seq<u8>>,
    n: int,
)
    requires
        forall|p: PathBuf, answer: Option<bool>| #[trigger]
            watch.ensures((&p,), answer) ==> answer == told(p@),
    ensures
        nearest_watch(watch, path, n) ==> {
            &&& 0 <= n <= path.len()
            &&& path.len() > 0 && path[0] == seq![47u8] ==> n > 0
            &&& is_covered_at(told, path, n)
            &&& forall|k: int| n < k <= path.len() ==> !#[trigger] is_covered_at(told, path, k)
        },
        unwatched(watch, path) ==> forall|k: int|
            0 <= k <= path.len() && (path.len() > 0 && path[0] == seq![47u8] ==> k > 0)
                ==> !#[trigger] is_covered_at(told, path, k),
{
    assert(path::root_dir() =~= seq![47u8]);
    assert forall|k: int, covers: bool|
        k <= path.len() && #[trigger] covered_from(watch, path, k, covers) implies covers
        == is_covered_at(told, path, k) by {
        let (p, a) = choose|p: PathBuf, a: Option<bool>| #[trigger]
            watch.ensures((&p,), a) && p@ == path.take(k) && covers == (a matches Some(recursive)
                && (recursive || k + 1 >= path.len()));
        assert(a == told(path.take(k)));
    }
    if nearest_watch(watch, path, n) {
        assert forall|k: int| n < k <= path.len() implies !#[trigger] is_covered_at(
            told,
            path,
            k,
        ) by {
            assert(covered_from(watch, path, k, false));
        }
    }
    if unwatched(watch, path) {
        assert forall|k: int|
            0 <= k <= path.len() && (path.len() > 0 && path[0] == seq![47u8] ==> k
                > 0) implies !#[trigger] is_covered_at(told, path, k) by {
            assert(covered_from(watch, path, k, false));
        }
    }
}

impl<F: Fn(&PathBuf, EntryKind) -> bool> IgnoreFilter<F> {
    /// Creates a filter that ignores the paths for which `ignored` returns `true`.
    pub fn new(ignored: F) -> (filter: Self)
        ensures
            filter@ == Some(ignored),
    {
        IgnoreFilter(Some(Arc::new(ignored)))
    }

    /// Returns whether the filter function returns `true` for `path` itself. It is asked about
    /// nothing else.
    #[must_use]
    pub fn matches(&self, path: &PathBuf, kind: EntryKind) -> (r: bool)
        requires
            askable(self@, path@, kind),
        ensures
            (match self@ {
                Some(ignored) => answers(ignored, path@, kind, r),
                None => !r,
            }),
    {
        match &self.0 {
            Some(ignored) => {
                assert((self@->0).requires((path, kind)));
                (**ignored)(path, kind)
            },
            None => false,
        }
    }

    /// Whether the filter matches `path`, or one of its parent directories that have more than
    /// `above` components.
    fn matches_above(&self, path: &PathBuf, kind: EntryKind, above: usize) -> (r: bool)
        requires
            askable_above(self@, path@, kind, above as int),
        ensures
            matches_above(self@, path@, kind, above as int, r),
    {
        if self.0.is_none() {
            return false;
        }
        assert(path@.take(path@.len() as int) =~= path@);
        assert(is_asked(path@, above as int, path@.len() as int));
        if self.matches(path, kind) {
            return true;
        }
        let mut n: usize = path.len();
        while n > 0 && n - 1 > above
            invariant
                n <= path@.len(),
                askable_above(self@, path@, kind, above as int),
                self@ is Some,
                answers(self@->0, path@.take(path@.len() as int), kind, false),
                forall|k: int|
                    n <= k && #[trigger] is_asked(path@, above as int, k) ==> answers(
                        self@->0,
                        path@.take(k),
                        asked_kind(path@, kind, k),
                        false,
                    ),
            decreases n,
        {
            n = n - 1;
            let parent = path.prefix(n);
            assert(is_asked(path@, above as int, n as int));
            if self.matches(&parent, EntryKind::Dir) {
                return true;
            }
        }
        false
    }

    /// Returns whether `path` is ignored: the filter matches `path` or one of its parent
    /// directories.
    #[must_use]
    pub fn is_ignored(&self, path: &PathBuf, kind: EntryKind) -> (r: bool)
        requires
            askable_above(self@, path@, kind, 0),
        ensures
            matches_above(self@, path@, kind, 0, r),
    {
        self.matches_above(path, kind, 0)
    }

    /// Whether nothing is ignored: there is no need to look the kind of a path up.
    pub fn ignores_nothing(&self) -> (r: bool)
        ensures
            r == (self@ is None),
    {
        self.0.is_none()
    }

    /// Like [`IgnoreFilter::is_ignored`], with the kind of `path` that the file system gave, if it
    /// gave one.
    #[must_use]
    pub fn is_path_ignored(&self, path: &PathBuf, is_dir: Option<bool>) -> (r: bool)
        requires
            askable_above(self@, path@, EntryKind::looked_up(is_dir), 0),
        ensures
            matches_above(self@, path@, EntryKind::looked_up(is_dir), 0, r),
    {
        let kind = match is_dir {
            Some(is_dir) => EntryKind::of(is_dir),
            None => EntryKind::Unknown,
        };
        self.is_ignored(path, kind)
    }

    /// Whether a walk of a directory tree yields an entry, and descends into it. The root of the
    /// walk, at depth 0, is not filtered.
    pub fn walks(&self, path: &PathBuf, depth: usize, is_dir: bool) -> (r: bool)
        requires
            depth > 0 ==> askable(self@, path@, EntryKind::spec_of(is_dir)),
        ensures
            depth == 0 ==> r,
            depth > 0 ==> (match self@ {
                Some(ignored) => answers(ignored, path@, EntryKind::spec_of(is_dir), !r),
                None => r,
            }),
    {
        depth == 0 || !self.matches(path, EntryKind::of(is_dir))
    }

    /// Returns whether an event for `path` must be delivered: a watch covers the path and the
    /// path is not ignored.
    ///
    /// `watch` returns whether a path is watched, and whether recursively. A watch covers the
    /// watched path itself, its direct children and, if it is recursive, everything below. The
    /// filter is only asked about paths below the watch.
    pub fn is_watched<W: Fn(&PathBuf) -> Option<bool>>(
        &self,
        path: &PathBuf,
        kind: EntryKind,
        watch: W,
    ) -> (r: bool)
        requires
            forall|p: PathBuf| #[trigger] watch.requires((&p,)),
            forall|n: int| #[trigger]
                nearest_watch(watch, path@, n) && n < path@.len() ==> askable_above(
                    self@,
                    path@,
                    kind,
                    n,
                ),
        ensures
            unwatched(watch, path@) && !r || exists|n: int|
                {
                    &&& #[trigger] nearest_watch(watch, path@, n)
                    &&& if n == path@.len() {
                        r
                    } else {
                        matches_above(self@, path@, kind, n, !r)
                    }
                },
    {
        let floor: usize = path.floor();
        let mut n: usize = path.len();
        loop
            invariant
                floor == path::floor(path@),
                floor <= n <= path@.len(),
                forall|p: PathBuf| #[trigger] watch.requires((&p,)),
                forall|k: int| #[trigger]
                    nearest_watch(watch, path@, k) && k < path@.len() ==> askable_above(
                        self@,
                        path@,
                        kind,
                        k,
                    ),
                forall|k: int|
                    n < k <= path@.len() ==> #[trigger] covered_from(watch, path@, k, false),
            decreases n,
        {
            let ancestor = path.prefix(n);
            let told = watch(&ancestor);
            let covers = match told {
                Some(recursive) => recursive || path.len() - n <= 1,
                None => false,
            };
            assert(covered_from(watch, path@, n as int, covers));
            if covers {
                assert(nearest_watch(watch, path@, n as int));
                return n == path.len() || !self.matches_above(path, kind, n);
            }
            if n == floor {
                return false;
            }
            n = n - 1;
        }
    }
}

impl<F> Clone for IgnoreFilter<F> {
    fn clone(&self) -> (copy: Self)
        ensures
            copy@ == self@,
    {
        match &self.0 {
            Some(ignored) => IgnoreFilter(Some(Arc::clone(ignored))),
            None => IgnoreFilter(None),
        }
    }
}

impl<F> Default for IgnoreFilter<F> {
    fn default() -> (filter: Self)
        ensures
            filter@ is None,
    {
        IgnoreFilter(None)
    }
}

/// `Arc::ptr_eq` tells whether two `Arc`s share their allocation, and then they hold the same
/// value. That clones share it is not said here: the value of an `Arc` does not tell.
#[verifier::external_body]
fn share<F>(a: &Arc<F>, b: &Arc<F>) -> (r: bool)
    ensures
        r ==> a == b,
{
    Arc::ptr_eq(a, b)
}

impl<F> vstd::std_specs::cmp::PartialEqSpecImpl for IgnoreFilter<F> {
    open spec fn obeys_eq_spec() -> bool {
        false
    }

    open spec fn eq_spec(&self, other: &Self) -> bool {
        self@ == other@
    }
}

impl<F> PartialEq for IgnoreFilter<F> {
    fn eq(&self, other: &Self) -> (r: bool)
        ensures
            r ==> self@ == other@,
            self@ is None && other@ is None ==> r,
    {
        match (&self.0, &other.0) {
            (Some(a), Some(b)) => share(a, b),
            (None, None) => true,
            _ => false,
        }
    }
}

impl<F> Eq for IgnoreFilter<F> {

}

} // verus!
