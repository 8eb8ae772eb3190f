//! What the paths of a stream come to.

use crate::config::{TargetMode, WatchMode};
use crate::consolidating_path_trie;
use crate::fsevent::budget;
use crate::fsevent::paths;
use crate::fsevent::root_laws;
use crate::fsevent::roots::{FileId, GoneView};
use crate::fsevent::stream;
use crate::path;
use crate::path::PathBuf;
use crate::path_map;
use vstd::prelude::*;

verus! {

/// The number of components of `p` that are names: neither the root nor `.` nor `..`.
pub open spec fn name_count(p: Seq<Seq<u8>>) -> nat {
    p.filter(
        |c: Seq<u8>| c != seq![47u8] && c != seq![46u8] && c != seq![46u8, 46u8],
    ).len()
}

proof fn lemma_depth(p: Seq<Seq<u8>>)
    ensures
        paths::depth(p) == name_count(p),
    decreases p.len(),
{
    reveal(Seq::filter);
    assert(path::root_dir() =~= seq![47u8]);
    assert(path::cur_dir() =~= seq![46u8]);
    assert(path::parent_dir() =~= seq![46u8, 46u8]);
    if p.len() > 0 {
        lemma_depth(p.drop_last());
    }
}

/// Whether the deepest ancestor of `root` that is there has `n` components.
pub open spec fn is_deepest(
    there: spec_fn(Seq<Seq<u8>>) -> bool,
    root: Seq<Seq<u8>>,
    n: int,
) -> bool {
    &&& 0 <= n < root.len()
    &&& root[0] == seq![47u8] ==> n > 0
    &&& there(root.take(n))
    &&& forall|k: int| n < k < root.len() ==> !there(#[trigger] root.take(k))
}

/// What is watched for a missing root, where the disk says the same whenever it is asked: the
/// deepest ancestor that is there, if it is not the parent and has three names or more.
pub proof fn anchor_is_deepest_ancestor_there<E: Fn(&PathBuf) -> bool>(
    exists_at: E,
    there: spec_fn(Seq<Seq<u8>>) -> bool,
    root: Seq<Seq<u8>>,
    anchor: Option<Seq<Seq<u8>>>,
)
    requires
        forall|p: PathBuf, answer: bool| #[trigger]
            exists_at.ensures((&p,), answer) ==> answer == there(p@),
        paths::is_anchor(exists_at, root, anchor),
    ensures
        match anchor {
            Some(anchor) => exists|n: int| #[trigger]
                is_deepest(there, root, n) && anchor == root.take(n) && n + 1 < root.len()
                    && name_count(anchor) >= 3,
            None => forall|n: int| #[trigger]
                is_deepest(there, root, n) ==> n + 1 == root.len() || name_count(root.take(n)) < 3,
        },
{
    assert(path::root_dir() =~= seq![47u8]);
    assert forall|p: Seq<Seq<u8>>, answer: bool| #[trigger]
        paths::may_exist(exists_at, p, answer) implies answer == there(p) by {
        let q = choose|q: PathBuf| q@ == p && #[trigger] exists_at.ensures((&q,), answer);
        assert(answer == there(q@));
    }
    if path::has_parent(root) {
        assert(root.drop_last() =~= root.take(root.len() - 1));
        if anchor is None && paths::may_exist(exists_at, root.drop_last(), true) {
            assert forall|n: int| #[trigger] is_deepest(there, root, n) implies n + 1
                == root.len() by {
                if n + 1 < root.len() {
                    assert(!there(root.take(root.len() - 1)));
                }
            }
        } else if anchor is None && forall|n: int|
            path::floor(root) <= n < root.len() ==> #[trigger] paths::may_exist(
                exists_at,
                root.take(n),
                false,
            ) {
            assert forall|n: int| !#[trigger] is_deepest(there, root, n) by {
                if is_deepest(there, root, n) {
                    assert(paths::may_exist(exists_at, root.take(n), false));
                }
            }
        } else {
            let m = choose|m: int|
                {
                    &&& #[trigger] paths::is_deepest_existing(exists_at, root, m)
                    &&& anchor == if paths::depth(root.take(m)) >= paths::MIN_ANCHOR_DEPTH {
                        Some(root.take(m))
                    } else {
                        None
                    }
                };
            lemma_depth(root.take(m));
            assert(is_deepest(there, root, m)) by {
                assert forall|k: int| m < k < root.len() implies !there(
                    #[trigger] root.take(k),
                ) by {
                    assert(paths::may_exist(exists_at, root.take(k), false));
                }
            }
            assert forall|n: int| #[trigger] is_deepest(there, root, n) implies n == m by {
                if n < m {
                    assert(!there(root.take(m)));
                } else if m < n {
                    assert(!there(root.take(n)));
                }
            }
        }
    } else {
        assert forall|n: int| !#[trigger] is_deepest(there, root, n) by {}
    }
}

/// A path from the current directory, if that is known: an absolute path is taken as it is.
pub proof fn relative_path_starts_at_current(
    p: Seq<Seq<u8>>,
    current: Seq<Seq<u8>>,
)
    ensures
        paths::absolute(p, None) == p,
        p.len() > 0 && p[0] == seq![47u8] ==> paths::absolute(p, Some(current)) == p,
        !(p.len() > 0 && p[0] == seq![47u8]) ==> paths::absolute(p, Some(current)) == path::joined(
            current,
            p,
        ),
{
    assert(path::root_dir() =~= seq![47u8]);
}

/// Whether the longest start of `p` that has a canonical path has `n` components.
pub open spec fn is_longest_known(
    canon: spec_fn(Seq<Seq<u8>>) -> Option<Seq<Seq<u8>>>,
    p: Seq<Seq<u8>>,
    n: int,
) -> bool {
    &&& 0 <= n <= p.len()
    &&& p.len() > 0 && p[0] == seq![47u8] ==> n > 0
    &&& canon(p.take(n)) is Some
    &&& forall|k: int| n < k <= p.len() ==> canon(#[trigger] p.take(k)) is None
}

/// The canonical form of a path, where the system says the same whenever it is asked: that of the
/// longest start of the path which has one, followed by the rest of the path as given. A path of
/// which no start has one stays as it is.
pub proof fn known_start_is_made_canonical<C: Fn(&PathBuf) -> Option<PathBuf>>(
    canonical: C,
    canon: spec_fn(Seq<Seq<u8>>) -> Option<Seq<Seq<u8>>>,
    p: Seq<Seq<u8>>,
    r: Seq<Seq<u8>>,
)
    requires
        forall|q: PathBuf, answer: Option<PathBuf>| #[trigger]
            canonical.ensures((&q,), answer) ==> canon(q@) == match answer {
                Some(a) => Some(a@),
                None => None,
            },
        paths::is_canonical(canonical, p, r),
    ensures
        forall|n: int| #[trigger]
            is_longest_known(canon, p, n) ==> r == if n == p.len() {
                canon(p)->0
            } else {
                path::joined(canon(p.take(n))->0, p.skip(n))
            },
        (forall|n: int| !#[trigger] is_longest_known(canon, p, n)) ==> r == p,
{
    assert(path::root_dir() =~= seq![47u8]);
    assert forall|q: Seq<Seq<u8>>, answer: Option<Seq<Seq<u8>>>| #[trigger]
        paths::may_be_canonical(canonical, q, answer) implies answer == canon(q) by {
        let (x, a) = choose|x: PathBuf, a: Option<PathBuf>| #[trigger]
            canonical.ensures((&x,), a) && x@ == q && answer == (match a {
                Some(a) => Some(a@),
                None => None,
            });
        assert(canon(x@) == answer);
    }
    assert(p.take(p.len() as int) =~= p);
    if r == p && forall|k: int|
        path::floor(p) <= k <= p.len() ==> #[trigger] paths::may_be_canonical(
            canonical,
            p.take(k),
            None,
        ) {
        assert forall|n: int| !#[trigger] is_longest_known(canon, p, n) by {
            if is_longest_known(canon, p, n) {
                assert(paths::may_be_canonical(canonical, p.take(n), None));
            }
        }
    } else {
        let (m, found) = choose|m: int, found: Seq<Seq<u8>>|
            {
                &&& #[trigger] paths::canonical_from(canonical, p, m, found)
                &&& r == if m == p.len() {
                    found
                } else {
                    path::joined(found, p.skip(m))
                }
            };
        assert(is_longest_known(canon, p, m)) by {
            assert forall|k: int| m < k <= p.len() implies canon(#[trigger] p.take(k)) is None by {
                assert(paths::may_be_canonical(canonical, p.take(k), None));
            }
        }
        assert forall|n: int| #[trigger] is_longest_known(canon, p, n) implies n == m by {
            if n < m {
                assert(canon(p.take(m)) is None);
            } else if m < n {
                assert(canon(p.take(n)) is None);
            }
        }
    }
}

/// A path can be watched if it is not empty and is there or tracked. It is then watched in the mode
/// asked for, and the others as before. One that is tracked and not there is gone from then on.
pub proof fn path_is_watched_in_its_mode(
    watches: Map<Seq<Seq<u8>>, WatchMode>,
    gone: GoneView,
    p: Seq<Seq<u8>>,
    canonical: Seq<Seq<u8>>,
    mode: WatchMode,
    there: bool,
)
    ensures
        paths::can_watch(p, mode, there) <==> p.len() > 0 && (there || mode.target_mode
            == TargetMode::TrackPath),
        ({
            let (after, then) = paths::appended(watches, gone, canonical, mode, there);
            &&& after == watches.insert(canonical, mode)
            &&& if mode.target_mode == TargetMode::TrackPath && !there {
                root_laws::has_gone(gone, then, canonical)
            } else {
                then == gone
            }
        }),
        forall|q: Seq<Seq<u8>>| #[trigger]
            paths::anchored(watches, gone).contains(q) <==> gone.roots.contains_key(q)
                && watches.contains_key(q) && watches[q].target_mode == TargetMode::TrackPath,
{
    root_laws::going_and_marking_are_recorded(gone, canonical, FileId { dev: 0, ino: 0 }, 0);
}

/// The texts of `current` that are among `names`.
pub open spec fn kept(current: Seq<Seq<char>>, names: Seq<Seq<char>>) -> Seq<Seq<char>> {
    current.filter(|t: Seq<char>| names.contains(t))
}

/// The texts whose names are not among `there`.
pub open spec fn new_ones(
    texts: Seq<Seq<char>>,
    names: Seq<Seq<char>>,
    there: Seq<Seq<char>>,
) -> Seq<Seq<char>> {
    texts.zip_with(names).filter(|x: (Seq<char>, Seq<char>)| !there.contains(x.1)).map_values(
        |x: (Seq<char>, Seq<char>)| x.0,
    )
}

proof fn lemma_kept(current: Seq<Seq<char>>, names: Seq<Seq<char>>)
    ensures
        paths::staying(current, names) == kept(current, names),
    decreases current.len(),
{
    reveal(Seq::filter);
    if current.len() > 0 {
        lemma_kept(current.drop_last(), names);
    }
}

proof fn lemma_new(texts: Seq<Seq<char>>, names: Seq<Seq<char>>, there: Seq<Seq<char>>)
    requires
        texts.len() == names.len(),
    ensures
        paths::joining(texts, names, there) == new_ones(texts, names, there),
    decreases texts.len(),
{
    reveal(Seq::filter);
    let both = texts.zip_with(names);
    if texts.len() == 0 {
        assert(paths::joining(texts, names, there) =~= new_ones(texts, names, there));
    } else {
        lemma_new(texts.drop_last(), names.drop_last(), there);
        assert(both.drop_last() =~= texts.drop_last().zip_with(names.drop_last()));
        assert(both.last() == (texts.last(), names.last()));
        assert(paths::joining(texts, names, there) =~= new_ones(texts, names, there));
    }
}

/// The paths of a stream that are still to be watched stay where they are, the others go, and the
/// new ones come last, in their order. Paths are compared by their text in lower case.
pub proof fn new_paths_come_last(current: Seq<Seq<char>>, wanted: Seq<Seq<Seq<u8>>>)
    ensures
        ({
            let texts = Seq::new(
                wanted.len(),
                |i: int| paths::lossy_text(path::rendered(wanted[i])),
            );
            let names = Seq::new(wanted.len(), |i: int| paths::lowercase_text(texts[i]));
            let there = kept(current, names);
            stream::updated(current, wanted) == there + new_ones(texts, names, there)
        }),
{
    let texts = Seq::new(wanted.len(), |i: int| paths::lossy_text(path::rendered(wanted[i])));
    let names = Seq::new(wanted.len(), |i: int| paths::lowercase_text(texts[i]));
    assert(paths::shown_all(wanted) =~= texts);
    assert(paths::compared(wanted) =~= names);
    lemma_kept(current, names);
    lemma_new(texts, names, kept(current, names));
}

/// The streams of a process may watch one path for every twelve descriptors that it may open, and
/// any number where that is not known. Paths are counted where they are within the budget together
/// with those that are active, and refused otherwise.
pub proof fn budget_is_a_twelfth(soft: u64, active: usize, count: usize, budget: usize)
    ensures
        soft <= usize::MAX ==> 12 * budget::path_budget(Some(soft)) <= soft < 12
            * budget::path_budget(Some(soft)) + 12,
        soft > usize::MAX ==> budget::path_budget(Some(soft)) == usize::MAX,
        budget::path_budget(None) == usize::MAX,
        active + count <= budget ==> budget::combined(active, count, budget) == Some(
            (active + count) as usize,
        ),
        active + count > budget ==> budget::combined(active, count, budget) is None,
        budget::is_refusable(count, Some(soft)) <==> usize::MAX + count > budget::path_budget(
            Some(soft),
        ),
{
    if budget::is_refusable(count, Some(soft)) {
        let a = choose|a: usize| #[trigger]
            budget::combined(a, count, budget::path_budget(Some(soft)) as usize) is None;
        assert(a + count > budget::path_budget(Some(soft)));
    }
    if usize::MAX + count > budget::path_budget(Some(soft)) {
        assert(budget::combined(
            usize::MAX,
            count,
            budget::path_budget(Some(soft)) as usize,
        ) is None);
    }
}

/// The roots that are watched through an anchor are those that are watched, track their path and
/// are gone.
pub proof fn gone_tracked_roots_are_anchored(
    watches: Map<Seq<Seq<u8>>, WatchMode>,
    gone: GoneView,
    root: Seq<Seq<u8>>,
)
    ensures
        paths::anchored(watches, gone).contains(root) <==> {
            &&& watches.contains_key(root)
            &&& watches[root].target_mode == TargetMode::TrackPath
            &&& gone.roots.contains_key(root)
        },
{
}

/// The paths of a stream stand for the watched paths, in their order, and for the anchors after
/// them. Each is taken in after the ones before it, and a directory with ten watched entries stands
/// for them.
pub proof fn watches_and_anchors_are_taken_in(
    watches: Map<Seq<Seq<u8>>, WatchMode>,
    max_paths: nat,
    anchors: Seq<Seq<Seq<u8>>>,
    start: Set<Seq<Seq<u8>>>,
    list: Seq<Seq<Seq<u8>>>,
    p: Seq<Seq<u8>>,
)
    requires
        watches.dom().finite(),
    ensures
        exists|roots: Seq<Seq<Seq<u8>>>|
            {
                &&& #[trigger] path_map::sorted(roots)
                &&& roots.to_set() == watches.dom()
                &&& stream::stood_for(watches, max_paths, anchors)
                    == consolidating_path_trie::handed_out(
                    paths::inserted_all(set![], roots + anchors),
                    max_paths,
                )
            },
        paths::inserted_all(start, seq![]) == start,
        paths::inserted_all(start, list.push(p)) == consolidating_path_trie::inserted(
            paths::inserted_all(start, list),
            p,
            true,
        ),
{
    path_map::lemma_order(watches.dom());
    assert(path_map::sorted(path_map::in_order(watches.dom())));
    assert(list.push(p).drop_last() =~= list);
    assert(Set::<Seq<Seq<u8>>>::empty() =~= set![]);
}

} // verus!
