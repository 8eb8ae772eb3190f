//! What a set of watched paths comes to when paths stand for others.

use crate::consolidating_path_trie;
use crate::consolidating_path_trie::{added, cut, entries_of, handed_out, holds, inserted, narrowed};
use crate::path;
use vstd::prelude::*;

verus! {

/// Whether `p` is `q` or lies below it.
pub open spec fn is_at_or_below(p: Seq<Seq<u8>>, q: Seq<Seq<u8>>) -> bool {
    p.len() >= q.len() && p.take(q.len() as int) == q
}

/// The names in the directory `dir` under which one of `paths` lies.
pub open spec fn names_in(paths: Set<Seq<Seq<u8>>>, dir: Seq<Seq<u8>>) -> Set<Seq<u8>> {
    Set::new(
        |name: Seq<u8>|
            exists|p: Seq<Seq<u8>>| #[trigger]
                paths.contains(p) && p.len() > dir.len() && p.take(dir.len() as int) == dir
                    && p[dir.len() as int] == name,
    )
}

/// Whether a directory is full of watched entries: ten or more.
pub open spec fn is_crowded(paths: Set<Seq<Seq<u8>>>, dir: Seq<Seq<u8>>) -> bool {
    names_in(paths, dir).len() >= 10
}

/// `paths` with `p` in place of what is at and below it.
pub open spec fn with_in_place(paths: Set<Seq<Seq<u8>>>, p: Seq<Seq<u8>>) -> Set<Seq<Seq<u8>>> {
    Set::new(|q: Seq<Seq<u8>>| q == p || (paths.contains(q) && !is_at_or_below(q, p)))
}

proof fn lemma_added(paths: Set<Seq<Seq<u8>>>, p: Seq<Seq<u8>>)
    ensures
        added(paths, p) == with_in_place(paths, p),
{
    assert(added(paths, p) =~= with_in_place(paths, p));
}

proof fn lemma_entries(paths: Set<Seq<Seq<u8>>>, path: Seq<Seq<u8>>, n: int)
    requires
        0 <= n < path.len(),
    ensures
        entries_of(with_in_place(paths, path.take(n + 1)), path.take(n)) == names_in(
            paths.insert(path),
            path.take(n),
        ),
        with_in_place(with_in_place(paths, path.take(n + 1)), path.take(n)) == with_in_place(
            paths,
            path.take(n),
        ),
{
    let dir = path.take(n);
    let child = path.take(n + 1);
    let set = with_in_place(paths, child);
    let all = paths.insert(path);
    assert(child =~= dir.push(path[n]));
    assert forall|name: Seq<u8>| #[trigger] entries_of(set, dir).contains(name) == names_in(
        all,
        dir,
    ).contains(name) by {
        let entry = dir.push(name);
        if entries_of(set, dir).contains(name) {
            let p = choose|p: Seq<Seq<u8>>| #[trigger]
                set.contains(p) && path::starts_with(p, entry);
            assert(p.take(n + 1)[n] == entry[n]);
            assert(p.take(n) =~= p.take(n + 1).take(n));
            assert(entry.take(n) =~= dir);
            if p == child {
                assert(path.take(n) == dir && path[n] == name);
                assert(all.contains(path));
            } else {
                assert(all.contains(p) && p.take(n) == dir && p[n] == name);
            }
        }
        if names_in(all, dir).contains(name) {
            let p = choose|p: Seq<Seq<u8>>| #[trigger]
                all.contains(p) && p.len() > dir.len() && p.take(dir.len() as int) == dir
                    && p[dir.len() as int] == name;
            assert(p.take(n + 1) =~= p.take(n).push(p[n]));
            if p == path || is_at_or_below(p, child) {
                assert(p.take(n + 1)[n] == name);
                assert(child == entry);
                assert(child.take(n + 1) =~= child);
                assert(set.contains(child) && path::starts_with(child, entry));
            } else {
                assert(set.contains(p) && path::starts_with(p, entry));
            }
        }
    }
    assert(entries_of(set, dir) =~= names_in(all, dir));
    assert forall|q: Seq<Seq<u8>>| is_at_or_below(q, child) implies is_at_or_below(q, dir) by {
        assert(q.take(n) =~= q.take(n + 1).take(n));
        assert(child.take(n) =~= dir);
    }
    assert(child.take(n) =~= dir);
    assert(with_in_place(set, dir) =~= with_in_place(paths, dir));
}

/// Whether `path` comes in at its ancestor with `m` components: that one and all between it and the
/// path are crowded, and the next one up, if there is one, is not.
pub open spec fn comes_in_at(paths: Set<Seq<Seq<u8>>>, path: Seq<Seq<u8>>, m: int) -> bool {
    let lowest = if path.len() > 0 && path[0] == seq![47u8] {
        1int
    } else {
        0
    };
    &&& lowest <= m <= path.len()
    &&& forall|k: int|
        m <= k < path.len() ==> is_crowded(paths.insert(path), #[trigger] path.take(k))
    &&& m > lowest ==> !is_crowded(paths.insert(path), path.take(m - 1))
}

proof fn lemma_rolled(paths: Set<Seq<Seq<u8>>>, path: Seq<Seq<u8>>, n: int) -> (m: int)
    requires
        path::floor(path) - 1 <= n < path.len(),
        forall|k: int|
            n < k < path.len() ==> is_crowded(paths.insert(path), #[trigger] path.take(k)),
    ensures
        comes_in_at(paths, path, m),
        consolidating_path_trie::rolled_up(with_in_place(paths, path.take(n + 1)), path, n)
            == with_in_place(paths, path.take(m)),
    decreases n + 1,
{
    assert(path::root_dir() =~= seq![47u8]);
    let set = with_in_place(paths, path.take(n + 1));
    if n < path::floor(path) {
        n + 1
    } else {
        lemma_entries(paths, path, n);
        lemma_added(set, path.take(n));
        if is_crowded(paths.insert(path), path.take(n)) {
            lemma_rolled(paths, path, n - 1)
        } else {
            n + 1
        }
    }
}

/// A path that is covered already changes nothing. Another one takes the place of what is below it,
/// or a directory above it does: with children consolidation a directory stands for what is below
/// it once it has ten watched entries, and so does the one above it if it then has ten, and so on.
pub proof fn path_or_crowded_directory_comes_in(
    paths: Set<Seq<Seq<u8>>>,
    path: Seq<Seq<u8>>,
    children_consolidation: bool,
)
    ensures
        (exists|p: Seq<Seq<u8>>| #[trigger] paths.contains(p) && is_at_or_below(path, p))
            ==> inserted(paths, path, children_consolidation) == paths,
        !(exists|p: Seq<Seq<u8>>| #[trigger] paths.contains(p) && is_at_or_below(path, p)) ==> if
            children_consolidation {
            exists|m: int| #[trigger]
                comes_in_at(paths, path, m) && inserted(paths, path, true) == with_in_place(
                    paths,
                    path.take(m),
                )
        } else {
            inserted(paths, path, false) == with_in_place(paths, path)
        },
{
    if exists|p: Seq<Seq<u8>>| #[trigger] paths.contains(p) && is_at_or_below(path, p) {
        let p = choose|p: Seq<Seq<u8>>| #[trigger] paths.contains(p) && is_at_or_below(path, p);
        assert(paths.contains(p) && path::starts_with(path, p));
    } else {
        if consolidating_path_trie::covers(paths, path) {
            let p = choose|p: Seq<Seq<u8>>| #[trigger]
                paths.contains(p) && path::starts_with(path, p);
            assert(paths.contains(p) && is_at_or_below(path, p));
        }
        lemma_added(paths, path);
        assert(path.take(path.len() as int) =~= path);
        if children_consolidation {
            let m = lemma_rolled(paths, path, path.len() - 1);
            assert(comes_in_at(paths, path, m));
        }
    }
}

/// `paths` with each that has more than `d` components cut off after `d`.
pub open spec fn cut_at(paths: Set<Seq<Seq<u8>>>, d: nat) -> Set<Seq<Seq<u8>>> {
    Set::new(
        |q: Seq<Seq<u8>>|
            (q.len() <= d && paths.contains(q)) || (q.len() == d && exists|p: Seq<Seq<u8>>|
                #[trigger] paths.contains(p) && is_at_or_below(p, q)),
    )
}

/// Whether all of `paths` share their first `n` components, and go on differently.
pub open spec fn parts_after(paths: Set<Seq<Seq<u8>>>, n: nat) -> bool {
    &&& forall|p: Seq<Seq<u8>>, q: Seq<Seq<u8>>|
        #[trigger] paths.contains(p) && #[trigger] paths.contains(q) ==> p.len() > n && p.take(
            n as int,
        ) == q.take(n as int)
    &&& exists|p: Seq<Seq<u8>>, q: Seq<Seq<u8>>|
        #[trigger] paths.contains(p) && #[trigger] paths.contains(q) && p[n as int] != q[n as int]
}

/// Whether paths are cut off after no fewer than `l` components: those that they share, and one
/// more if one of them goes on below that.
pub open spec fn is_least(paths: Set<Seq<Seq<u8>>>, l: nat) -> bool {
    ||| (forall|n: nat| !parts_after(paths, n)) && l == 0
    ||| exists|n: nat| #[trigger]
        parts_after(paths, n) && l == if exists|p: Seq<Seq<u8>>| #[trigger]
            paths.contains(p) && p.len() > n + 1 {
            n + 1
        } else {
            n
        }
}

proof fn lemma_least(paths: Set<Seq<Seq<u8>>>)
    ensures
        is_least(paths, consolidating_path_trie::min_depth(paths)),
{
    if exists|n: nat| consolidating_path_trie::part_at(paths, n) {
        let n = choose|n: nat| consolidating_path_trie::part_at(paths, n);
        assert(parts_after(paths, n));
    } else {
        assert forall|n: nat| !parts_after(paths, n) by {
            assert(!consolidating_path_trie::part_at(paths, n));
        }
    }
}

proof fn lemma_cut(paths: Set<Seq<Seq<u8>>>, d: nat, e: nat)
    requires
        d <= e,
    ensures
        cut(paths, d as int) == cut_at(paths, d),
        cut_at(cut_at(paths, e), d) == cut_at(paths, d),
{
    assert forall|q: Seq<Seq<u8>>| paths.contains(q) implies is_at_or_below(q, q) by {
        assert(q.take(q.len() as int) =~= q);
    }
    assert forall|q: Seq<Seq<u8>>| #[trigger] cut(paths, d as int).contains(q) == cut_at(
        paths,
        d,
    ).contains(q) by {
        if holds(paths, q) {
            let p = choose|p: Seq<Seq<u8>>| #[trigger]
                paths.contains(p) && path::starts_with(p, q);
            assert(paths.contains(p) && is_at_or_below(p, q));
        }
        if exists|p: Seq<Seq<u8>>| #[trigger] paths.contains(p) && is_at_or_below(p, q) {
            let p = choose|p: Seq<Seq<u8>>| #[trigger] paths.contains(p) && is_at_or_below(p, q);
            assert(paths.contains(p) && path::starts_with(p, q));
        }
        if paths.contains(q) {
            assert(path::starts_with(q, q)) by {
                assert(is_at_or_below(q, q));
            }
            assert(holds(paths, q));
        }
    }
    assert(cut(paths, d as int) =~= cut_at(paths, d));
    let longer = cut_at(paths, e);
    assert forall|q: Seq<Seq<u8>>| #[trigger] cut_at(longer, d).contains(q) == cut_at(
        paths,
        d,
    ).contains(q) by {
        if cut_at(longer, d).contains(q) {
            let p = if q.len() == d && exists|p: Seq<Seq<u8>>| #[trigger]
                longer.contains(p) && is_at_or_below(p, q) {
                choose|p: Seq<Seq<u8>>| #[trigger] longer.contains(p) && is_at_or_below(p, q)
            } else {
                q
            };
            assert(longer.contains(p) && is_at_or_below(p, q)) by {
                assert(q.take(q.len() as int) =~= q);
            }
            if paths.contains(p) {
            } else {
                let y = choose|y: Seq<Seq<u8>>| #[trigger]
                    paths.contains(y) && is_at_or_below(y, p);
                assert(y.take(q.len() as int) =~= y.take(p.len() as int).take(q.len() as int));
                assert(paths.contains(y) && is_at_or_below(y, q));
            }
        }
        if cut_at(paths, d).contains(q) && !(q.len() < d || (q.len() <= d && paths.contains(q))) {
            let y = choose|y: Seq<Seq<u8>>| #[trigger] paths.contains(y) && is_at_or_below(y, q);
            if y.len() <= e {
                assert(longer.contains(y));
            } else {
                let z = y.take(e as int);
                assert(is_at_or_below(y, z));
                assert(longer.contains(z));
                assert(z.take(q.len() as int) =~= y.take(q.len() as int));
                assert(is_at_or_below(z, q));
            }
        }
        if q.len() <= d && paths.contains(q) {
            assert(longer.contains(q));
        }
    }
    assert(cut_at(longer, d) =~= cut_at(paths, d));
}

proof fn lemma_narrowed(
    paths: Set<Seq<Seq<u8>>>,
    depth: nat,
    min: nat,
    max_paths: nat,
) -> (d: nat)
    requires
        paths.finite(),
        paths.len() <= usize::MAX,
        forall|e: nat| e > depth ==> (#[trigger] cut_at(paths, e)).len() > max_paths,
    ensures
        narrowed(cut_at(paths, depth), depth, min, max_paths) == cut_at(paths, d),
        d <= depth,
        d >= min || d == depth,
        cut_at(paths, d).len() <= max_paths || d <= min,
        forall|e: nat| e > d ==> (#[trigger] cut_at(paths, e)).len() > max_paths,
    decreases depth,
{
    let now = cut_at(paths, depth);
    lemma_cut(paths, depth, depth);
    consolidating_path_trie::cut_covers(paths, depth as int, Seq::empty());
    assert(now.len() <= usize::MAX);
    if consolidating_path_trie::too_many(now, max_paths) && depth > min {
        let less = (depth - 1) as nat;
        lemma_cut(paths, less, depth);
        lemma_cut(now, less, less);
        assert(cut(now, depth - 1) == cut_at(paths, less));
        assert forall|e: nat| e > less implies (#[trigger] cut_at(paths, e)).len() > max_paths by {
            if e == depth {
                assert(cut_at(paths, e) == now);
            }
        }
        lemma_narrowed(paths, less, min, max_paths)
    } else {
        depth
    }
}

/// All paths are handed out where there are at most `max_paths`, or there is no limit. Otherwise
/// they are cut off after as many components as leave at most `max_paths` of them, but never so
/// short that what they share is all that is left: no more is cut off than has to be.
pub proof fn no_more_is_cut_off_than_has_to_be(paths: Set<Seq<Seq<u8>>>, max_paths: nat)
    requires
        paths.finite(),
        paths.len() <= usize::MAX,
        forall|p: Seq<Seq<u8>>| #[trigger] paths.contains(p) ==> p.len() <= usize::MAX,
    ensures
        max_paths == 0 || paths.len() <= max_paths ==> handed_out(paths, max_paths) == paths,
        max_paths > 0 && paths.len() > max_paths ==> exists|d: nat, l: nat|
            {
                &&& handed_out(paths, max_paths) == #[trigger] cut_at(paths, d)
                &&& #[trigger] is_least(paths, l)
                &&& cut_at(paths, d).len() <= max_paths || d <= l
                &&& d >= l || forall|p: Seq<Seq<u8>>| #[trigger]
                    paths.contains(p) ==> p.len() <= d
                &&& forall|e: nat| e > d ==> (#[trigger] cut_at(paths, e)).len() > max_paths
            },
{
    if max_paths > 0 && paths.len() > max_paths {
        let l = consolidating_path_trie::min_depth(paths);
        let depth = consolidating_path_trie::max_depth(paths);
        lemma_least(paths);
        consolidating_path_trie::lemma_max_depth(paths);
        assert forall|e: nat| e >= depth implies #[trigger] cut_at(paths, e) == paths by {
            assert forall|q: Seq<Seq<u8>>| #[trigger] cut_at(paths, e).contains(q)
                == paths.contains(q) by {
                if cut_at(paths, e).contains(q) && !paths.contains(q) {
                    let p = choose|p: Seq<Seq<u8>>| #[trigger]
                        paths.contains(p) && is_at_or_below(p, q);
                    assert(p.take(q.len() as int) =~= p);
                }
            }
            assert(cut_at(paths, e) =~= paths);
        }
        assert(cut_at(paths, depth) == paths);
        let d = lemma_narrowed(paths, depth, l, max_paths);
        assert(handed_out(paths, max_paths) == cut_at(paths, d));
    }
}

} // verus!
