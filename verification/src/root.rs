//! The paths the user watches.

use crate::config::{RecursiveMode, TargetMode, WatchMode};
use crate::path;
use crate::path::PathBuf;
use crate::path_list;
use crate::path_map;
use crate::path_map::PathMap;
use vstd::prelude::*;

verus! {

#[derive(Clone, Copy, Debug, PartialEq, Eq, Structural)]
pub enum RootState {
    Missing,
    File,
    Directory,
}

/// A path the user watches. With `TargetMode::TrackPath` the path is tracked through every
/// ancestor: the ones that exist are watched for their entries, so that the root is reported
/// removed when any of them goes away, and created and watched again when it is reachable again.
#[derive(Clone, Copy, Debug, PartialEq, Eq, Structural)]
pub struct RootWatch {
    pub mode: WatchMode,
    pub state: RootState,
}

/// The root at `p`, if there is one, is in the state `state`.
pub open spec fn in_state(
    roots: Map<Seq<Seq<u8>>, RootWatch>,
    p: Seq<Seq<u8>>,
    state: RootState,
) -> Map<Seq<Seq<u8>>, RootWatch> {
    if roots.contains_key(p) {
        roots.insert(p, RootWatch { state, ..roots[p] })
    } else {
        roots
    }
}

/// Whether a tracked root lies strictly below `p`.
pub open spec fn leads_to_root(roots: Map<Seq<Seq<u8>>, RootWatch>, p: Seq<Seq<u8>>) -> bool {
    exists|r: Seq<Seq<u8>>| #[trigger]
        roots.contains_key(r) && roots[r].mode.tracks_path() && path::lies_below(r, p)
}

/// Whether a root is right below `dir`.
pub open spec fn is_parent_of_root(
    roots: Map<Seq<Seq<u8>>, RootWatch>,
    dir: Seq<Seq<u8>>,
) -> bool {
    exists|r: Seq<Seq<u8>>| #[trigger] roots.contains_key(r) && path::parent(r) == Some(dir)
}

pub open spec fn is_below_recursive_root(
    roots: Map<Seq<Seq<u8>>, RootWatch>,
    p: Seq<Seq<u8>>,
) -> bool {
    exists|r: Seq<Seq<u8>>| #[trigger]
        roots.contains_key(r) && roots[r].mode.is_recursive() && path::lies_below(p, r)
}

/// Whether events at `p` are reported: `p` or its parent is a root, or a root above is recursive.
pub open spec fn is_watched_path(roots: Map<Seq<Seq<u8>>, RootWatch>, p: Seq<Seq<u8>>) -> bool {
    ||| roots.contains_key(p)
    ||| path::has_parent(p) && roots.contains_key(p.drop_last())
    ||| is_below_recursive_root(roots, p)
}

/// Whether a watch of `root` reaches `p`: it is the root, or lies in it, or, for a recursive watch,
/// anywhere below it. An absolute path lies in no relative one.
pub open spec fn reaches(root: Seq<Seq<u8>>, mode: WatchMode, p: Seq<Seq<u8>>) -> bool {
    ||| p == root
    ||| {
        &&& p.len() > root.len()
        &&& p.take(root.len() as int) == root
        &&& root.len() > 0 || p[0] != seq![47u8]
        &&& mode.recursive_mode == RecursiveMode::Recursive || p.len() == root.len() + 1
    }
}

/// Whether the watch of one of `roots` reaches `p`.
pub open spec fn is_reached(roots: Map<Seq<Seq<u8>>, RootWatch>, p: Seq<Seq<u8>>) -> bool {
    exists|r: Seq<Seq<u8>>| #[trigger] roots.contains_key(r) && reaches(r, roots[r].mode, p)
}

/// Whether `p` is on the way to one of `roots` that tracks its path: the root lies below `p`.
pub open spec fn is_on_the_way(roots: Map<Seq<Seq<u8>>, RootWatch>, p: Seq<Seq<u8>>) -> bool {
    exists|r: Seq<Seq<u8>>| #[trigger]
        roots.contains_key(r) && roots[r].mode.target_mode == TargetMode::TrackPath && r.len()
            > p.len() && r.take(p.len() as int) == p && (p.len() > 0 || r[0] != seq![47u8])
}

/// The paths that are reported are those that the watch of a root reaches, and the paths that lead
/// to a root are those on the way to a tracked one.
pub proof fn watched_is_reached(roots: Map<Seq<Seq<u8>>, RootWatch>, p: Seq<Seq<u8>>)
    ensures
        is_watched_path(roots, p) <==> is_reached(roots, p),
        leads_to_root(roots, p) <==> is_on_the_way(roots, p),
{
    assert(path::root_dir() =~= seq![47u8]);
    if is_watched_path(roots, p) {
        if roots.contains_key(p) {
            assert(reaches(p, roots[p].mode, p));
        } else if path::has_parent(p) && roots.contains_key(p.drop_last()) {
            let r = p.drop_last();
            assert(p.take(r.len() as int) =~= r);
            assert(reaches(r, roots[r].mode, p));
        } else {
            let r = choose|r: Seq<Seq<u8>>| #[trigger]
                roots.contains_key(r) && roots[r].mode.is_recursive() && path::lies_below(p, r);
            assert(reaches(r, roots[r].mode, p));
        }
    }
    if is_reached(roots, p) {
        let r = choose|r: Seq<Seq<u8>>| #[trigger]
            roots.contains_key(r) && reaches(r, roots[r].mode, p);
        if p != r && !roots[r].mode.is_recursive() {
            assert(p.take(r.len() as int) =~= p.drop_last());
        }
    }
    if leads_to_root(roots, p) {
        let r = choose|r: Seq<Seq<u8>>| #[trigger]
            roots.contains_key(r) && roots[r].mode.tracks_path() && path::lies_below(r, p);
        assert(r.len() > p.len() && r.take(p.len() as int) == p);
    }
    if is_on_the_way(roots, p) {
        let r = choose|r: Seq<Seq<u8>>| #[trigger]
            roots.contains_key(r) && roots[r].mode.target_mode == TargetMode::TrackPath && r.len()
                > p.len() && r.take(p.len() as int) == p && (p.len() > 0 || r[0] != seq![47u8]);
        assert(path::lies_below(r, p));
    }
}

/// Whether a root strictly below `p` is tracked and missing, or tracked and there.
pub open spec fn is_tracked_below(
    roots: Map<Seq<Seq<u8>>, RootWatch>,
    p: Seq<Seq<u8>>,
    missing: bool,
) -> spec_fn(Seq<Seq<u8>>) -> bool {
    |r: Seq<Seq<u8>>|
        r != p && roots[r].mode.tracks_path() && (roots[r].state == RootState::Missing) == missing
}

/// The tracked roots strictly below `p` that are missing, or those that are there, in their order.
pub open spec fn tracked_roots_below(
    roots: Map<Seq<Seq<u8>>, RootWatch>,
    p: Seq<Seq<u8>>,
    missing: bool,
) -> Seq<Seq<Seq<u8>>> {
    path::chosen(path_map::at_and_below(roots.dom(), p), is_tracked_below(roots, p, missing))
}

/// Whether `list` holds the tracked roots below `p` that are missing, or those that are there, in
/// their order and each once.
pub open spec fn lists_tracked(
    roots: Map<Seq<Seq<u8>>, RootWatch>,
    p: Seq<Seq<u8>>,
    missing: bool,
    list: Seq<Seq<Seq<u8>>>,
) -> bool {
    &&& path_map::sorted(list)
    &&& list.no_duplicates()
    &&& forall|q: Seq<Seq<u8>>| #[trigger]
        list.contains(q) <==> {
            &&& roots.contains_key(q)
            &&& roots[q].mode.target_mode == TargetMode::TrackPath
            &&& (roots[q].state == RootState::Missing) == missing
            &&& q.len() > p.len() && q.take(p.len() as int) == p
        }
}

/// The tracked roots below a path are listed in their order, and no other.
pub proof fn tracked_below_are_listed(
    roots: Map<Seq<Seq<u8>>, RootWatch>,
    p: Seq<Seq<u8>>,
    missing: bool,
)
    requires
        roots.dom().finite(),
    ensures
        lists_tracked(roots, p, missing, tracked_roots_below(roots, p, missing)),
{
    let all = path_map::at_and_below(roots.dom(), p);
    let wanted = is_tracked_below(roots, p, missing);
    let list = tracked_roots_below(roots, p, missing);
    path_map::lemma_below_sorted(roots.dom(), p);
    lemma_chosen_sorted(all, wanted);
    path_map::lemma_sorted_no_duplicates(list);
    assert forall|q: Seq<Seq<u8>>| #[trigger]
        list.contains(q) <==> {
            &&& roots.contains_key(q)
            &&& roots[q].mode.target_mode == TargetMode::TrackPath
            &&& (roots[q].state == RootState::Missing) == missing
            &&& q.len() > p.len() && q.take(p.len() as int) == p
        } by {
        path_map::lemma_listed(roots.dom(), p, q);
        assert(list.contains(q) <==> all.contains(q) && wanted(q));
        if q != p && path::starts_with(q, p) && q.len() == p.len() {
            assert(q.take(p.len() as int) =~= q);
        }
    }
}

/// What is chosen of a sorted list is sorted, and is what was wanted of it.
pub proof fn lemma_chosen_sorted(
    list: Seq<Seq<Seq<u8>>>,
    wanted: spec_fn(Seq<Seq<u8>>) -> bool,
)
    requires
        path_map::sorted(list),
    ensures
        path_map::sorted(path::chosen(list, wanted)),
        forall|q: Seq<Seq<u8>>| #[trigger]
            path::chosen(list, wanted).contains(q) <==> list.contains(q) && wanted(q),
    decreases list.len(),
{
    let after = path::chosen(list, wanted);
    if list.len() > 0 {
        let shorter = list.drop_last();
        let before = path::chosen(shorter, wanted);
        assert(path_map::sorted(shorter));
        lemma_chosen_sorted(shorter, wanted);
        assert forall|q: Seq<Seq<u8>>| #[trigger]
            after.contains(q) <==> list.contains(q) && wanted(q) by {
            assert(list.contains(q) <==> shorter.contains(q) || q == list.last()) by {
                if list.contains(q) {
                    let i = list.index_of(q);
                    if i < shorter.len() {
                        assert(shorter[i] == q);
                    }
                }
                if shorter.contains(q) {
                    assert(list[shorter.index_of(q)] == q);
                }
                assert(list[list.len() - 1] == list.last());
            }
            if wanted(list.last()) {
                assert(after.contains(q) <==> before.contains(q) || q == list.last()) by {
                    if after.contains(q) {
                        let i = after.index_of(q);
                        if i < before.len() {
                            assert(before[i] == q);
                        }
                    }
                    if before.contains(q) {
                        assert(after[before.index_of(q)] == q);
                    }
                    assert(after[after.len() - 1] == list.last());
                }
            }
        }
        assert forall|i: int, j: int| 0 <= i < j < after.len() implies path::path_before(
            #[trigger] after[i],
            #[trigger] after[j],
        ) by {
            if j < before.len() {
                assert(before[i] == after[i] && before[j] == after[j]);
            } else {
                assert(before[i] == after[i]);
                assert(before.contains(before[i]));
                assert(shorter.contains(before[i]));
                let k = shorter.index_of(before[i]);
                assert(list[k] == before[i]);
                assert(path::path_before(list[k], list[list.len() - 1]));
            }
        }
    }
}

pub fn set_state(roots: &mut PathMap<RootWatch>, path: &PathBuf, state: RootState)
    requires
        old(roots).wf(),
    ensures
        final(roots).wf(),
        final(roots)@ == in_state(old(roots)@, path@, state),
{
    if let Some(root) = roots.get(path) {
        let changed = RootWatch { state, ..*root };
        roots.insert(path.clone(), changed);
    }
}

/// Whether a tracked root lies strictly below `path`.
pub fn has_tracked_below(roots: &PathMap<RootWatch>, path: &PathBuf) -> (r: bool)
    requires
        roots.wf(),
    ensures
        r == leads_to_root(roots@, path@),
{
    let (start, end) = roots.below(path);
    proof {
        roots.lemma_entries();
    }
    let ghost keys = roots.keys();
    let mut i: usize = start;
    while i < end
        invariant
            roots.wf(),
            start <= i <= end <= keys.len(),
            keys == roots.keys(),
            forall|k: int|
                0 <= k < keys.len() ==> roots@.contains_key(#[trigger] keys[k])
                    && roots@[keys[k]] == roots.value(k),
            forall|k: int|
                0 <= k < keys.len() ==> (path::starts_with(#[trigger] keys[k], path@) <==> start
                    <= k < end),
            forall|k: int|
                start <= k < i ==> !(roots@[#[trigger] keys[k]].mode.tracks_path()
                    && path::lies_below(keys[k], path@)),
        decreases end - i,
    {
        let root = roots.key_at(i);
        if roots.value_at(i).mode.tracks() && root.len() > path.len() && root.floor()
            <= path.len() {
            assert(roots@.contains_key(keys[i as int]));
            assert(path::starts_with(keys[i as int], path@));
            return true;
        }
        i = i + 1;
    }
    proof {
        if leads_to_root(roots@, path@) {
            let r = choose|r: Seq<Seq<u8>>| #[trigger]
                roots@.contains_key(r) && roots@[r].mode.tracks_path() && path::lies_below(
                    r,
                    path@,
                );
            let k = choose|k: int| 0 <= k < keys.len() && #[trigger] keys[k] == r;
            assert(path::starts_with(keys[k], path@));
        }
    }
    false
}

/// Whether a root is right below `dir`.
pub fn has_root_in(roots: &PathMap<RootWatch>, dir: &PathBuf) -> (r: bool)
    requires
        roots.wf(),
    ensures
        r == is_parent_of_root(roots@, dir@),
{
    let (start, end) = roots.below(dir);
    proof {
        roots.lemma_entries();
    }
    let ghost keys = roots.keys();
    let mut i: usize = start;
    while i < end
        invariant
            roots.wf(),
            start <= i <= end <= keys.len(),
            keys == roots.keys(),
            forall|k: int| 0 <= k < keys.len() ==> roots@.contains_key(#[trigger] keys[k]),
            forall|k: int|
                0 <= k < keys.len() ==> (path::starts_with(#[trigger] keys[k], dir@) <==> start <= k
                    < end),
            forall|k: int| start <= k < i ==> path::parent(#[trigger] keys[k]) != Some(dir@),
        decreases end - i,
    {
        if roots.key_at(i).parent_is(dir) {
            assert(roots@.contains_key(keys[i as int]));
            return true;
        }
        i = i + 1;
    }
    proof {
        assert forall|r: Seq<Seq<u8>>| #[trigger] roots@.contains_key(r) implies path::parent(r)
            != Some(dir@) by {
            let k = choose|k: int| 0 <= k < keys.len() && #[trigger] keys[k] == r;
            if path::parent(r) == Some(dir@) {
                assert(path::starts_with(keys[k], dir@)) by {
                    assert(r.take(dir@.len() as int) =~= r.drop_last());
                }
            }
        }
    }
    false
}

pub fn has_recursive_above(roots: &PathMap<RootWatch>, path: &PathBuf) -> (r: bool)
    requires
        roots.wf(),
    ensures
        r == is_below_recursive_root(roots@, path@),
{
    let floor: usize = path.floor();
    let mut n: usize = path.len();
    while n > floor
        invariant
            roots.wf(),
            floor == path::floor(path@),
            n <= path@.len(),
            forall|k: int|
                n <= k < path@.len() && k >= floor && roots@.contains_key(
                    #[trigger] path@.take(k),
                ) ==> !roots@[path@.take(k)].mode.is_recursive(),
        decreases n,
    {
        n = n - 1;
        if let Some(root) = roots.get_prefix(path, n) {
            if root.mode.recursive() {
                assert(roots@.contains_key(path@.take(n as int)));
                assert(path::lies_below(path@, path@.take(n as int)));
                return true;
            }
        }
    }
    proof {
        if is_below_recursive_root(roots@, path@) {
            let r = choose|r: Seq<Seq<u8>>| #[trigger]
                roots@.contains_key(r) && roots@[r].mode.is_recursive() && path::lies_below(
                    path@,
                    r,
                );
            assert(path@.take(r.len() as int) == r);
        }
    }
    false
}

/// Whether events at `path` are reported.
pub fn reports(roots: &PathMap<RootWatch>, path: &PathBuf) -> (r: bool)
    requires
        roots.wf(),
    ensures
        r == is_watched_path(roots@, path@),
{
    if roots.contains(path) {
        return true;
    }
    if path.len() > path.floor() {
        assert(path@.take(path@.len() - 1) =~= path@.drop_last());
        if roots.contains_prefix(path, path.len() - 1) {
            return true;
        }
    }
    has_recursive_above(roots, path)
}

/// The tracked roots strictly below `path` that are missing, or those that are there, in their
/// order.
pub fn tracked_below(roots: &PathMap<RootWatch>, path: &PathBuf, missing: bool) -> (list: Vec<
    PathBuf,
>)
    requires
        roots.wf(),
    ensures
        path::views(list@) == tracked_roots_below(roots@, path@, missing),
{
    let below = roots.keys_below(path);
    let keep = |root: &PathBuf| -> (r: bool)
        requires
            roots.wf(),
            roots@.contains_key(root@),
        ensures
            r == is_tracked_below(roots@, path@, missing)(root@),
        {
            match roots.get(root) {
                Some(watch) => !root.same(path) && watch.mode.tracks() && (watch.state
                    == RootState::Missing) == missing,
                None => false,
            }
        };
    path_list::chosen_paths(&below, keep, Ghost(is_tracked_below(roots@, path@, missing)))
}

} // verus!
