//! The paths that a stream watches.

use crate::config::WatchMode;
use crate::consolidating_path_trie;
use crate::consolidating_path_trie::ConsolidatingPathTrie;
use crate::error::{Error, ErrorKind, ErrorView};
use crate::fsevent::roots::{GoneRootsState, GoneView};
use crate::fsevent::watcher;
use crate::path;
use crate::path::PathBuf;
use crate::path_map;
use crate::path_map::PathMap;
use vstd::prelude::*;

verus! {

/// How deep an anchor must be below the root of the file system, in components.
pub const MIN_ANCHOR_DEPTH: usize = 3;

/// How many named components `p` has.
pub open spec fn depth(p: Seq<Seq<u8>>) -> nat
    decreases p.len(),
{
    if p.len() == 0 {
        0
    } else if path::rank(p.last()) == 3 {
        depth(p.drop_last()) + 1
    } else {
        depth(p.drop_last())
    }
}

/// How many named components `path` has.
pub fn path_depth(path: &PathBuf) -> (n: usize)
    ensures
        n == depth(path@),
{
    let mut n: usize = 0;
    let mut i: usize = 0;
    assert(path@.take(0) =~= Seq::empty());
    while i < path.len()
        invariant
            i <= path@.len(),
            n <= i,
            n == depth(path@.take(i as int)),
        decreases path@.len() - i,
    {
        assert(path@.take(i + 1).drop_last() =~= path@.take(i as int));
        if path.is_name(i) {
            n = n + 1;
        }
        i = i + 1;
    }
    assert(path@.take(i as int) =~= path@);
    n
}

/// `exists` may say so of `p`.
pub open spec fn may_exist<E: Fn(&PathBuf) -> bool>(
    exists_at: E,
    p: Seq<Seq<u8>>,
    answer: bool,
) -> bool {
    exists|q: PathBuf| q@ == p && #[trigger] exists_at.ensures((&q,), answer)
}

/// `anchor` is what is watched for the missing `root`: the deepest ancestor of its parent that is
/// there, if the parent is not, and if it is deep enough.
pub open spec fn is_anchor<E: Fn(&PathBuf) -> bool>(
    exists_at: E,
    root: Seq<Seq<u8>>,
    anchor: Option<Seq<Seq<u8>>>,
) -> bool {
    if !path::has_parent(root) {
        anchor is None
    } else {
        ||| anchor is None && may_exist(exists_at, root.drop_last(), true)
        ||| anchor is None && forall|n: int|
            path::floor(root) <= n < root.len() ==> #[trigger] may_exist(
                exists_at,
                root.take(n),
                false,
            )
        ||| exists|n: int|
            {
                &&& #[trigger] is_deepest_existing(exists_at, root, n)
                &&& anchor == if depth(root.take(n)) >= MIN_ANCHOR_DEPTH {
                    Some(root.take(n))
                } else {
                    None
                }
            }
    }
}

/// The deepest ancestor of `root` that is there has `n` components, and it is not the parent.
pub open spec fn is_deepest_existing<E: Fn(&PathBuf) -> bool>(
    exists_at: E,
    root: Seq<Seq<u8>>,
    n: int,
) -> bool {
    &&& path::floor(root) <= n < root.len() - 1
    &&& may_exist(exists_at, root.take(n), true)
    &&& forall|k: int|
        n < k < root.len() ==> #[trigger] may_exist(exists_at, root.take(k), false)
}

/// For a `TrackPath` root whose parent is not there, the deepest ancestor that is. FSEvents'
/// `WatchRoot` re-arms a missing root natively only when its last component is the one missing;
/// a root further down is not reported when it appears, nor when the ancestor that exists is
/// moved. Watching that ancestor too brings the events of the directories in between to the
/// callback, which looks at the roots below them. It costs a recursive stream on the ancestor
/// until the next stream rebuild, by which time the root usually exists, and folds the roots
/// below the ancestor into it.
///
/// An ancestor fewer than [`MIN_ANCHOR_DEPTH`] components below the root of the file system,
/// such as `/Users/me` or `/private/tmp`, is never watched for this: it would bring every event
/// of a home directory to the callback. Such a root keeps FSEvents' native behaviour, which
/// follows the missing last component only.
pub fn missing_root_anchor<E: Fn(&PathBuf) -> bool>(root: &PathBuf, exists_at: &E) -> (anchor:
    Option<PathBuf>)
    requires
        forall|p: PathBuf| #[trigger] exists_at.requires((&p,)),
    ensures
        is_anchor(
            *exists_at,
            root@,
            match anchor {
                Some(anchor) => Some(anchor@),
                None => None,
            },
        ),
{
    let floor: usize = root.floor();
    if root.len() <= floor {
        return None;
    }
    let mut n: usize = root.len() - 1;
    let parent = root.prefix(n);
    assert(parent@ =~= root@.drop_last());
    if exists_at(&parent) {
        return None;
    }
    assert(may_exist(*exists_at, root@.take(n as int), false));
    while n > floor
        invariant
            floor == path::floor(root@),
            floor <= n < root@.len(),
            path::has_parent(root@),
            forall|p: PathBuf| #[trigger] exists_at.requires((&p,)),
            forall|k: int|
                n <= k < root@.len() ==> #[trigger] may_exist(*exists_at, root@.take(k), false),
        decreases n,
    {
        n = n - 1;
        let ancestor = root.prefix(n);
        let there = exists_at(&ancestor);
        assert(may_exist(*exists_at, root@.take(n as int), there));
        if there {
            assert(is_deepest_existing(*exists_at, root@, n as int));
            return if path_depth(&ancestor) >= MIN_ANCHOR_DEPTH {
                Some(ancestor)
            } else {
                None
            };
        }
    }
    None
}

/// `canonical` may say so of `p`.
pub open spec fn may_be_canonical<C: Fn(&PathBuf) -> Option<PathBuf>>(
    canonical: C,
    p: Seq<Seq<u8>>,
    answer: Option<Seq<Seq<u8>>>,
) -> bool {
    exists|q: PathBuf, a: Option<PathBuf>| #[trigger]
        canonical.ensures((&q,), a) && q@ == p && answer == (match a {
            Some(a) => Some(a@),
            None => None,
        })
}

/// `path` from the directory `current`, if it is known.
pub open spec fn absolute(path: Seq<Seq<u8>>, current: Option<Seq<Seq<u8>>>) -> Seq<Seq<u8>> {
    match current {
        Some(current) => if path::is_absolute(path) {
            path
        } else {
            path::joined(current, path)
        },
        None => path,
    }
}

/// The deepest ancestor of `p` that has a canonical path has `n` components, and that path is
/// `found`.
pub open spec fn canonical_from<C: Fn(&PathBuf) -> Option<PathBuf>>(
    canonical: C,
    p: Seq<Seq<u8>>,
    n: int,
    found: Seq<Seq<u8>>,
) -> bool {
    &&& path::floor(p) <= n <= p.len()
    &&& may_be_canonical(canonical, p.take(n), Some(found))
    &&& forall|k: int|
        n < k <= p.len() ==> #[trigger] may_be_canonical(canonical, p.take(k), None)
}

/// `r` is `p` with its deepest existing ancestor made canonical.
pub open spec fn is_canonical<C: Fn(&PathBuf) -> Option<PathBuf>>(
    canonical: C,
    p: Seq<Seq<u8>>,
    r: Seq<Seq<u8>>,
) -> bool {
    ||| r == p && forall|k: int|
        path::floor(p) <= k <= p.len() ==> #[trigger] may_be_canonical(canonical, p.take(k), None)
    ||| exists|n: int, found: Seq<Seq<u8>>|
        {
            &&& #[trigger] canonical_from(canonical, p, n, found)
            &&& r == if n == p.len() {
                found
            } else {
                path::joined(found, p.skip(n))
            }
        }
}

/// The path as FSEvents reports it: canonical, even when it does not exist yet. The deepest
/// existing ancestor is canonicalized and the missing tail is appended as given, so that a
/// missing path below a symlinked prefix (`/tmp`, `/var`) matches the events for it, and is found
/// again by the same name once it exists. `current` is the current directory.
pub fn canonicalize_lenient<C: Fn(&PathBuf) -> Option<PathBuf>>(
    path: &PathBuf,
    current: Option<PathBuf>,
    canonical: &C,
) -> (r: PathBuf)
    requires
        forall|p: PathBuf| #[trigger] canonical.requires((&p,)),
    ensures
        is_canonical(
            *canonical,
            absolute(
                path@,
                match current {
                    Some(current) => Some(current@),
                    None => None,
                },
            ),
            r@,
        ),
{
    let whole = if path.is_absolute() {
        path.clone()
    } else {
        match &current {
            Some(current) => current.join(path),
            None => path.clone(),
        }
    };
    let ghost p = absolute(
        path@,
        match current {
            Some(current) => Some(current@),
            None => None,
        },
    );
    let floor: usize = whole.floor();
    let mut n: usize = whole.len();
    loop
        invariant
            whole@ == p,
            p == absolute(
                path@,
                match current {
                    Some(current) => Some(current@),
                    None => None,
                },
            ),
            floor == path::floor(whole@),
            floor <= n <= whole@.len(),
            forall|p: PathBuf| #[trigger] canonical.requires((&p,)),
            forall|k: int|
                n < k <= whole@.len() ==> #[trigger] may_be_canonical(
                    *canonical,
                    whole@.take(k),
                    None,
                ),
        decreases n,
    {
        let ancestor = whole.prefix(n);
        if let Some(found) = canonical(&ancestor) {
            assert(may_be_canonical(*canonical, whole@.take(n as int), Some(found@)));
            assert(canonical_from(*canonical, whole@, n as int, found@));
            if n == whole.len() {
                return found;
            }
            let tail = PathBuf::new().join_from(&whole, n);
            assert(tail@ =~= whole@.skip(n as int));
            return found.join(&tail);
        }
        assert(may_be_canonical(*canonical, whole@.take(n as int), None));
        if n == floor {
            return whole;
        }
        n = n - 1;
    }
}

/// What is watched after `path` was asked for: `canonical` is its canonical path.
pub open spec fn appended(
    watches: Map<Seq<Seq<u8>>, WatchMode>,
    gone: GoneView,
    canonical: Seq<Seq<u8>>,
    mode: WatchMode,
    canonical_exists: bool,
) -> (Map<Seq<Seq<u8>>, WatchMode>, GoneView) {
    (
        watches.insert(canonical, mode),
        if mode.tracks_path() && !canonical_exists {
            gone.went(canonical)
        } else {
            gone
        },
    )
}

/// Whether a path can be watched: it is there, or tracked, and it is not empty.
pub open spec fn can_watch(path: Seq<Seq<u8>>, mode: WatchMode, there: bool) -> bool {
    (there || mode.tracks_path()) && path.len() > 0
}

/// Watches `path`, whose canonical path is `canonical`. A root that is not there yet is looked at
/// again once the stream runs, since one that appears before the stream starts is not reported by
/// FSEvents. Says whether a looking thread has to be started.
pub fn append_path(
    watches: &mut PathMap<WatchMode>,
    gone: &mut GoneRootsState,
    path: &PathBuf,
    mode: WatchMode,
    there: bool,
    canonical: PathBuf,
    canonical_exists: bool,
) -> (r: Result<bool, Error>)
    requires
        old(watches).wf(),
        old(gone).wf(),
    ensures
        final(watches).wf(),
        final(gone).wf(),
        (match r {
            Ok(start) => {
                &&& can_watch(path@, mode, there)
                &&& (final(watches)@, final(gone)@) == appended(
                    old(watches)@,
                    old(gone)@,
                    canonical@,
                    mode,
                    canonical_exists,
                )
                &&& start == (!old(gone)@.looking && final(gone)@.looking)
            },
            Err(error) => {
                &&& !can_watch(path@, mode, there)
                &&& error@ == ErrorView::at(ErrorKind::PathNotFound, path@)
                &&& final(watches)@ == old(watches)@
                &&& final(gone)@ == old(gone)@
            },
        }),
{
    if (!there && !mode.tracks()) || path.len() == 0 {
        return Err(Error::at(ErrorKind::PathNotFound, path.clone()));
    }
    let mut start = false;
    if mode.tracks() && !canonical_exists {
        let (_, starts) = gone.went(&canonical);
        start = starts;
    }
    watches.insert(canonical, mode);
    Ok(start)
}

/// Watches `path`, whose canonical path is `canonical`, no longer.
pub fn remove_path(
    watches: &mut PathMap<WatchMode>,
    gone: &mut GoneRootsState,
    path: &PathBuf,
    canonical: &PathBuf,
) -> (r: Result<(), Error>)
    requires
        old(watches).wf(),
        old(gone).wf(),
    ensures
        final(watches).wf(),
        final(gone).wf(),
        final(watches)@ == (if path@.len() == 0 {
            old(watches)@
        } else {
            old(watches)@.remove(canonical@)
        }),
        final(gone)@ == (if path@.len() == 0 {
            old(gone)@
        } else {
            old(gone)@.forgotten(canonical@)
        }),
        (match r {
            Ok(()) => path@.len() > 0 && old(watches)@.contains_key(canonical@),
            Err(error) => {
                &&& path@.len() == 0 || !old(watches)@.contains_key(canonical@)
                &&& error@ == ErrorView::new(ErrorKind::WatchNotFound)
            },
        }),
{
    if path.len() == 0 {
        return Err(Error::new(ErrorKind::WatchNotFound));
    }
    gone.forget(canonical);
    match watches.remove(canonical) {
        Some(_) => Ok(()),
        None => Err(Error::new(ErrorKind::WatchNotFound)),
    }
}

/// The roots whose anchors are watched: the tracked ones that are gone.
pub open spec fn anchored(
    watches: Map<Seq<Seq<u8>>, WatchMode>,
    gone: GoneView,
) -> Set<Seq<Seq<u8>>> {
    gone.roots.dom().filter(|root: Seq<Seq<u8>>| watcher::is_tracked(watches, root))
}

/// `anchor` is the anchor of a root that needs one.
pub open spec fn anchors_one<E: Fn(&PathBuf) -> bool>(
    exists_at: E,
    roots: Set<Seq<Seq<u8>>>,
    anchor: Seq<Seq<u8>>,
) -> bool {
    exists|root: Seq<Seq<u8>>| #[trigger]
        roots.contains(root) && is_anchor(exists_at, root, Some(anchor))
}

/// The anchor of `root` is among `anchors`, if it has one.
pub open spec fn anchored_by<E: Fn(&PathBuf) -> bool>(
    exists_at: E,
    root: Seq<Seq<u8>>,
    anchors: Seq<Seq<Seq<u8>>>,
) -> bool {
    is_anchor(exists_at, root, None) || exists|i: int|
        0 <= i < anchors.len() && is_anchor(exists_at, root, Some(#[trigger] anchors[i]))
}

/// The anchors of the `TrackPath` roots that are gone, as far as this knows: missing when
/// watched, or seen to go while a stream ran. The roots that are there cost nothing. The
/// anchors are found here only, at a stream rebuild: a root whose ancestors go two levels
/// deep while the stream runs is anchored at the next `watch`, `unwatch` or commit, and one
/// that is back keeps its anchor until then.
pub fn missing_root_anchors<E: Fn(&PathBuf) -> bool>(
    watches: &PathMap<WatchMode>,
    gone: &GoneRootsState,
    exists_at: &E,
) -> (anchors: Vec<PathBuf>)
    requires
        watches.wf(),
        gone.wf(),
        forall|p: PathBuf| #[trigger] exists_at.requires((&p,)),
    ensures
        forall|i: int|
            0 <= i < anchors@.len() ==> anchors_one(
                *exists_at,
                anchored(watches@, gone@),
                #[trigger] path::views(anchors@)[i],
            ),
        forall|root: Seq<Seq<u8>>| #[trigger]
            anchored(watches@, gone@).contains(root) ==> anchored_by(
                *exists_at,
                root,
                path::views(anchors@),
            ),
{
    let roots = gone.gone();
    let ghost list = path::views(roots@);
    let ghost wanted = anchored(watches@, gone@);
    let mut anchors: Vec<PathBuf> = Vec::new();
    let mut i: usize = 0;
    while i < roots.len()
        invariant
            i <= roots@.len(),
            list == path::views(roots@),
            list.to_set() == gone@.roots.dom(),
            wanted == anchored(watches@, gone@),
            watches.wf(),
            gone.wf(),
            forall|p: PathBuf| #[trigger] exists_at.requires((&p,)),
            forall|k: int|
                0 <= k < anchors@.len() ==> anchors_one(
                    *exists_at,
                    wanted,
                    #[trigger] path::views(anchors@)[k],
                ),
            forall|j: int|
                0 <= j < i && wanted.contains(#[trigger] list[j]) ==> anchored_by(
                    *exists_at,
                    list[j],
                    path::views(anchors@),
                ),
        decreases roots.len() - i,
    {
        let root = &roots[i];
        assert(list[i as int] == root@);
        assert(list.contains(root@));
        let tracks = match watches.get(root) {
            Some(mode) => mode.tracks(),
            None => false,
        };
        let ghost before = path::views(anchors@);
        if tracks {
            assert(wanted.contains(list[i as int]));
            if let Some(anchor) = missing_root_anchor(root, exists_at) {
                proof {
                    path::lemma_views_push(anchors@, anchor);
                    let after = before.push(anchor@);
                    assert forall|k: int| 0 <= k < after.len() implies anchors_one(
                        *exists_at,
                        wanted,
                        #[trigger] after[k],
                    ) by {
                        if k < before.len() {
                            assert(after[k] == before[k]);
                        } else {
                            assert(wanted.contains(list[i as int]));
                        }
                    }
                    assert forall|j: int| 0 <= j < i + 1 && wanted.contains(
                        #[trigger] list[j],
                    ) implies anchored_by(*exists_at, list[j], after) by {
                        if j < i {
                            if !is_anchor(*exists_at, list[j], None) {
                                let k = choose|k: int|
                                    0 <= k < before.len() && is_anchor(
                                        *exists_at,
                                        list[j],
                                        Some(#[trigger] before[k]),
                                    );
                                assert(after[k] == before[k]);
                            }
                        } else {
                            assert(after[before.len() as int] == anchor@);
                        }
                    }
                }
                anchors.push(anchor);
            }
        }
        i = i + 1;
    }
    proof {
        assert forall|root: Seq<Seq<u8>>| #[trigger] wanted.contains(root) implies anchored_by(
            *exists_at,
            root,
            path::views(anchors@),
        ) by {
            assert(list.to_set().contains(root));
            let j = choose|j: int| 0 <= j < list.len() && list[j] == root;
            assert(wanted.contains(list[j]));
        }
    }
    anchors
}

/// All of `paths` inserted, one after the other, with children consolidation.
pub open spec fn inserted_all(
    start: Set<Seq<Seq<u8>>>,
    paths: Seq<Seq<Seq<u8>>>,
) -> Set<Seq<Seq<u8>>>
    decreases paths.len(),
{
    if paths.len() == 0 {
        start
    } else {
        consolidating_path_trie::inserted(
            inserted_all(start, paths.drop_last()),
            paths.last(),
            true,
        )
    }
}

/// What was inserted is covered.
pub proof fn inserted_all_covers(
    start: Set<Seq<Seq<u8>>>,
    paths: Seq<Seq<Seq<u8>>>,
    x: Seq<Seq<u8>>,
)
    ensures
        paths.contains(x) || consolidating_path_trie::covers(start, x)
            ==> consolidating_path_trie::covers(inserted_all(start, paths), x),
    decreases paths.len(),
{
    if paths.len() > 0 {
        let before = inserted_all(start, paths.drop_last());
        inserted_all_covers(start, paths.drop_last(), x);
        consolidating_path_trie::inserted_covers(before, paths.last(), true, x);
        if paths.contains(x) && x != paths.last() {
            let i = choose|i: int| 0 <= i < paths.len() && paths[i] == x;
            assert(paths.drop_last()[i] == x);
        }
    }
}

/// A stream watches finitely many paths, of which none lies below another, and none is longer than
/// the longest that was inserted.
pub proof fn inserted_all_finite(paths: Seq<Seq<Seq<u8>>>, max: nat)
    requires
        forall|i: int| 0 <= i < paths.len() ==> (#[trigger] paths[i]).len() <= max,
    ensures
        forall|p: Seq<Seq<u8>>| #[trigger]
            inserted_all(Set::empty(), paths).contains(p) ==> p.len() <= max,
        inserted_all(Set::empty(), paths).finite(),
        consolidating_path_trie::apart(inserted_all(Set::empty(), paths)),
    decreases paths.len(),
{
    if paths.len() > 0 {
        inserted_all_finite(paths.drop_last(), max);
        assert(paths.last() == paths[paths.len() - 1]);
        consolidating_path_trie::inserted_lengths(
            inserted_all(Set::empty(), paths.drop_last()),
            paths.last(),
            true,
            max,
        );
        consolidating_path_trie::inserted_covers(
            inserted_all(Set::empty(), paths.drop_last()),
            paths.last(),
            true,
            paths.last(),
        );
    }
}

/// The paths a stream has to watch: the watched ones and the anchors, as few of them as stand for
/// all, and at most `max_paths` if that can be.
pub fn paths_to_watch(
    watches: &PathMap<WatchMode>,
    anchors: &Vec<PathBuf>,
    max_paths: usize,
) -> (paths: Vec<PathBuf>)
    requires
        watches.wf(),
    ensures
        consolidating_path_trie::lists(
            path::views(paths@),
            consolidating_path_trie::handed_out(
                inserted_all(
                    Set::empty(),
                    path_map::in_order(watches@.dom()) + path::views(anchors@),
                ),
                max_paths as nat,
            ),
        ),
{
    let mut trie = ConsolidatingPathTrie::new(true, max_paths);
    proof {
        watches.lemma_entries();
    }
    let ghost keys = watches.keys();
    let ghost more = path::views(anchors@);
    let ghost all = keys + more;
    let n: usize = watches.len();
    let mut i: usize = 0;
    assert(all.take(0) =~= Seq::empty());
    while i < n
        invariant
            i <= n == keys.len(),
            keys == watches.keys(),
            all == keys + more,
            trie.wf(),
            trie.children_consolidation(),
            trie.max_paths() == max_paths,
            trie@ == inserted_all(Set::empty(), all.take(i as int)),
        decreases n - i,
    {
        trie.insert(watches.key_at(i));
        assert(all.take(i + 1).drop_last() =~= all.take(i as int));
        i = i + 1;
    }
    let mut j: usize = 0;
    while j < anchors.len()
        invariant
            j <= anchors@.len(),
            n == keys.len(),
            more == path::views(anchors@),
            all == keys + more,
            trie.wf(),
            trie.children_consolidation(),
            trie.max_paths() == max_paths,
            trie@ == inserted_all(Set::empty(), all.take(n + j)),
        decreases anchors.len() - j,
    {
        trie.insert(&anchors[j]);
        assert(all.take(n + j + 1).drop_last() =~= all.take(n + j));
        j = j + 1;
    }
    assert(all.take(n + j) =~= all);
    trie.values()
}

/// What a text that is not UTF-8 is shown as.
pub uninterp spec fn lossy_text(text: Seq<u8>) -> Seq<char>;

/// `String::from_utf8_lossy` decodes a text, with a replacement for what is not UTF-8.
#[verifier::external_body]
fn lossy(text: &Vec<u8>) -> (shown: String)
    ensures
        shown@ == lossy_text(text@),
{
    String::from_utf8_lossy(text).into_owned()
}

/// A text in lower case, as Unicode has it.
pub uninterp spec fn lowercase_text(text: Seq<char>) -> Seq<char>;

/// `str::to_lowercase` gives the lower case equivalent of a text, as Unicode has it.
#[verifier::external_body]
fn lowercase(text: &String) -> (lower: String)
    ensures
        lower@ == lowercase_text(text@),
{
    text.to_lowercase()
}

/// What a path is shown as.
pub open spec fn shown(p: Seq<Seq<u8>>) -> Seq<char> {
    lossy_text(path::rendered(p))
}

/// The views of a list of texts.
pub open spec fn texts(list: Seq<String>) -> Seq<Seq<char>> {
    list.map_values(|s: String| s@)
}

/// What paths are shown as.
pub open spec fn shown_all(paths: Seq<Seq<Seq<u8>>>) -> Seq<Seq<char>> {
    paths.map_values(|p: Seq<Seq<u8>>| shown(p))
}

/// The names by which paths are compared.
pub open spec fn compared(paths: Seq<Seq<Seq<u8>>>) -> Seq<Seq<char>> {
    paths.map_values(|p: Seq<Seq<u8>>| lowercase_text(shown(p)))
}

/// What stays of the paths of a stream: those that are still to be watched.
pub open spec fn staying(current: Seq<Seq<char>>, names: Seq<Seq<char>>) -> Seq<Seq<char>>
    decreases current.len(),
{
    if current.len() == 0 {
        Seq::empty()
    } else {
        let before = staying(current.drop_last(), names);
        if names.contains(current.last()) {
            before.push(current.last())
        } else {
            before
        }
    }
}

/// What is new: those of `texts` whose names are not among `there`.
pub open spec fn joining(
    texts: Seq<Seq<char>>,
    names: Seq<Seq<char>>,
    there: Seq<Seq<char>>,
) -> Seq<Seq<char>>
    decreases texts.len(),
{
    if texts.len() == 0 {
        Seq::empty()
    } else {
        let before = joining(texts.drop_last(), names.drop_last(), there);
        if there.contains(names.last()) {
            before
        } else {
            before.push(texts.last())
        }
    }
}

/// The paths of a stream brought up to date with `texts`, which are compared by their names.
pub open spec fn merged(
    current: Seq<Seq<char>>,
    texts: Seq<Seq<char>>,
    names: Seq<Seq<char>>,
) -> Seq<Seq<char>> {
    staying(current, names) + joining(texts, names, staying(current, names))
}

/// Every text is among the merged ones, itself or by its name.
pub proof fn merged_has_each(
    current: Seq<Seq<char>>,
    texts: Seq<Seq<char>>,
    names: Seq<Seq<char>>,
    i: int,
)
    requires
        texts.len() == names.len(),
        0 <= i < texts.len(),
    ensures
        merged(current, texts, names).contains(texts[i]) || merged(current, texts, names).contains(
            names[i],
        ),
{
    let there = staying(current, names);
    let new = joining(texts, names, there);
    if there.contains(names[i]) {
        let k = there.index_of(names[i]);
        assert((there + new)[k] == names[i]);
    } else {
        lemma_joining(texts, names, there, i);
        let k = new.index_of(texts[i]);
        assert((there + new)[there.len() + k] == texts[i]);
    }
}

/// Nothing is among the merged texts but the texts and their names.
pub proof fn merged_has_no_other(
    current: Seq<Seq<char>>,
    texts: Seq<Seq<char>>,
    names: Seq<Seq<char>>,
    text: Seq<char>,
)
    requires
        texts.len() == names.len(),
        merged(current, texts, names).contains(text),
    ensures
        texts.contains(text) || names.contains(text),
{
    let there = staying(current, names);
    let new = joining(texts, names, there);
    let k = (there + new).index_of(text);
    if k < there.len() {
        lemma_staying(current, names, k);
    } else {
        assert(new[k - there.len()] == text);
        lemma_joined(texts, names, there, k - there.len());
    }
}

proof fn lemma_staying(current: Seq<Seq<char>>, names: Seq<Seq<char>>, k: int)
    requires
        0 <= k < staying(current, names).len(),
    ensures
        names.contains(staying(current, names)[k]),
    decreases current.len(),
{
    if k < staying(current.drop_last(), names).len() {
        lemma_staying(current.drop_last(), names, k);
    }
}

proof fn lemma_joining(
    texts: Seq<Seq<char>>,
    names: Seq<Seq<char>>,
    there: Seq<Seq<char>>,
    i: int,
)
    requires
        texts.len() == names.len(),
        0 <= i < texts.len(),
        !there.contains(names[i]),
    ensures
        joining(texts, names, there).contains(texts[i]),
    decreases texts.len(),
{
    let before = joining(texts.drop_last(), names.drop_last(), there);
    let all = joining(texts, names, there);
    if i < texts.len() - 1 {
        lemma_joining(texts.drop_last(), names.drop_last(), there, i);
        let k = before.index_of(texts[i]);
        assert(all[k] == texts[i]);
    } else {
        assert(all[before.len() as int] == texts[i]);
    }
}

proof fn lemma_joined(
    texts: Seq<Seq<char>>,
    names: Seq<Seq<char>>,
    there: Seq<Seq<char>>,
    k: int,
)
    requires
        texts.len() == names.len(),
        0 <= k < joining(texts, names, there).len(),
    ensures
        texts.contains(joining(texts, names, there)[k]),
    decreases texts.len(),
{
    let before = joining(texts.drop_last(), names.drop_last(), there);
    if k < before.len() {
        lemma_joined(texts.drop_last(), names.drop_last(), there, k);
        let i = texts.drop_last().index_of(before[k]);
        assert(texts[i] == before[k]);
    } else {
        assert(texts[texts.len() - 1] == texts.last());
    }
}

fn contains_text(list: &Vec<String>, text: &String) -> (r: bool)
    ensures
        r == texts(list@).contains(text@),
{
    let mut i: usize = 0;
    while i < list.len()
        invariant
            i <= list@.len(),
            forall|j: int| 0 <= j < i ==> #[trigger] texts(list@)[j] != text@,
        decreases list.len() - i,
    {
        if list[i] == *text {
            assert(texts(list@)[i as int] == text@);
            return true;
        }
        i = i + 1;
    }
    false
}

/// The texts of a stream brought up to date with those of the paths to watch, whose names they are
/// compared by: the ones that are no longer watched go, the others stay where they are, and the new
/// ones come last.
pub fn merge_paths(current: &Vec<String>, shown: &Vec<String>, names: &Vec<String>) -> (r: Vec<
    String,
>)
    requires
        shown@.len() == names@.len(),
    ensures
        texts(r@) == merged(texts(current@), texts(shown@), texts(names@)),
{
    let ghost now = texts(current@);
    let ghost wanted = texts(shown@);
    let ghost called = texts(names@);
    let mut stay: Vec<String> = Vec::new();
    let mut r: Vec<String> = Vec::new();
    let mut k: usize = 0;
    assert(now.take(0) =~= Seq::empty());
    assert(texts(stay@) =~= Seq::empty());
    assert(texts(r@) =~= Seq::empty());
    while k < current.len()
        invariant
            k <= current@.len(),
            now == texts(current@),
            called == texts(names@),
            texts(stay@) == staying(now.take(k as int), called),
            texts(r@) == texts(stay@),
        decreases current.len() - k,
    {
        proof {
            assert(now.take(k + 1).drop_last() =~= now.take(k as int));
            assert(now.take(k + 1).last() == current@[k as int]@);
        }
        if contains_text(names, &current[k]) {
            let ghost before = stay@;
            let ghost listed = r@;
            let copy = current[k].clone();
            stay.push(copy);
            assert(texts(stay@) =~= texts(before).push(copy@));
            let other = current[k].clone();
            r.push(other);
            assert(texts(r@) =~= texts(listed).push(other@));
        }
        k = k + 1;
    }
    assert(now.take(k as int) =~= now);
    let ghost there = texts(stay@);
    let mut n: usize = 0;
    assert(wanted.take(0) =~= Seq::empty());
    assert(texts(r@) =~= there + joining(wanted.take(0), called.take(0), there));
    while n < shown.len()
        invariant
            n <= shown@.len(),
            shown@.len() == names@.len(),
            wanted == texts(shown@),
            called == texts(names@),
            there == texts(stay@),
            texts(r@) == there + joining(wanted.take(n as int), called.take(n as int), there),
        decreases shown.len() - n,
    {
        proof {
            assert(wanted.take(n + 1).drop_last() =~= wanted.take(n as int));
            assert(wanted.take(n + 1).last() == shown@[n as int]@);
            assert(called.take(n + 1).drop_last() =~= called.take(n as int));
            assert(called.take(n + 1).last() == names@[n as int]@);
        }
        if !contains_text(&stay, &names[n]) {
            let ghost before = r@;
            let copy = shown[n].clone();
            r.push(copy);
            assert(texts(r@) =~= texts(before).push(copy@));
            assert(texts(r@) =~= there + joining(
                wanted.take(n + 1),
                called.take(n + 1),
                there,
            ));
        }
        n = n + 1;
    }
    assert(wanted.take(n as int) =~= wanted);
    assert(called.take(n as int) =~= called);
    r
}

/// Brings the paths of a stream up to date with those to watch. Paths are compared in lower case.
pub fn update_paths(current: &Vec<String>, paths_to_watch: &Vec<PathBuf>) -> (r: Vec<String>)
    ensures
        texts(r@) == merged(
            texts(current@),
            shown_all(path::views(paths_to_watch@)),
            compared(path::views(paths_to_watch@)),
        ),
{
    let ghost wanted = path::views(paths_to_watch@);
    let mut shown_paths: Vec<String> = Vec::new();
    let mut names: Vec<String> = Vec::new();
    let mut i: usize = 0;
    while i < paths_to_watch.len()
        invariant
            i <= paths_to_watch@.len(),
            wanted == path::views(paths_to_watch@),
            shown_paths@.len() == i,
            names@.len() == i,
            forall|j: int| 0 <= j < i ==> (#[trigger] shown_paths@[j])@ == shown(wanted[j]),
            forall|j: int| 0 <= j < i ==> (#[trigger] names@[j])@ == lowercase_text(
                shown(wanted[j]),
            ),
        decreases paths_to_watch.len() - i,
    {
        let text = lossy(&paths_to_watch[i].to_bytes());
        names.push(lowercase(&text));
        shown_paths.push(text);
        i = i + 1;
    }
    assert(texts(names@) =~= compared(wanted));
    assert(texts(shown_paths@) =~= shown_all(wanted));
    merge_paths(current, &shown_paths, &names)
}

} // verus!
