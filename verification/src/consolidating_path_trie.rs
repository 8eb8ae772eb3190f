//! A set of paths to watch that keeps itself small: a path stands for everything below it.

use crate::path;
use crate::path::PathBuf;
use crate::path_trie;
use crate::path_trie::{consolidate_at_depth, PathTrie, TrieView};
use vstd::prelude::*;

verus! {

/// How many children make a directory stand for all of them.
pub const CHILDREN_CONSOLIDATION_THRESHOLD: usize = 10;

/// Whether `path` is one of `paths` or lies below one.
pub open spec fn covers(paths: Set<Seq<Seq<u8>>>, path: Seq<Seq<u8>>) -> bool {
    exists|p: Seq<Seq<u8>>| #[trigger] paths.contains(p) && path::starts_with(path, p)
}

/// Whether one of `paths` is `path` or lies below it.
pub open spec fn holds(paths: Set<Seq<Seq<u8>>>, path: Seq<Seq<u8>>) -> bool {
    exists|p: Seq<Seq<u8>>| #[trigger] paths.contains(p) && path::starts_with(p, path)
}

/// No path lies below another.
pub open spec fn apart(paths: Set<Seq<Seq<u8>>>) -> bool {
    forall|p: Seq<Seq<u8>>, q: Seq<Seq<u8>>|
        #[trigger] paths.contains(p) && #[trigger] paths.contains(q) && path::starts_with(p, q)
            ==> p == q
}

/// `path` in place of everything at and below it.
pub open spec fn added(paths: Set<Seq<Seq<u8>>>, path: Seq<Seq<u8>>) -> Set<Seq<Seq<u8>>> {
    paths.filter(|p: Seq<Seq<u8>>| !path::starts_with(p, path)).insert(path)
}

/// The entries of the directory `dir` that are among `paths` or lead to one of them.
pub open spec fn entries_of(paths: Set<Seq<Seq<u8>>>, dir: Seq<Seq<u8>>) -> Set<Seq<u8>> {
    Set::new(|name: Seq<u8>| holds(paths, dir.push(name)))
}

/// The ancestors of `path` with at most `n` components, nearest first, put in place of what is
/// below them for as long as each has entries enough.
pub open spec fn rolled_up(paths: Set<Seq<Seq<u8>>>, path: Seq<Seq<u8>>, n: int) -> Set<
    Seq<Seq<u8>>,
>
    decreases n + 1,
{
    if n < path::floor(path) || entries_of(paths, path.take(n)).len()
        < CHILDREN_CONSOLIDATION_THRESHOLD {
        paths
    } else {
        rolled_up(added(paths, path.take(n)), path, n - 1)
    }
}

/// What is watched when `path` is to be watched too.
pub open spec fn inserted(
    paths: Set<Seq<Seq<u8>>>,
    path: Seq<Seq<u8>>,
    children_consolidation: bool,
) -> Set<Seq<Seq<u8>>> {
    if covers(paths, path) {
        paths
    } else if children_consolidation {
        rolled_up(added(paths, path), path, path.len() - 1)
    } else {
        added(paths, path)
    }
}

/// Each path with more than `d` components replaced by its first `d`.
pub open spec fn cut(paths: Set<Seq<Seq<u8>>>, d: int) -> Set<Seq<Seq<u8>>> {
    Set::new(
        |q: Seq<Seq<u8>>| q.len() < d && paths.contains(q) || q.len() == d && holds(paths, q),
    )
}

/// The paths part at depth `n`: they share their first `n` components, and not the next.
pub open spec fn part_at(paths: Set<Seq<Seq<u8>>>, n: nat) -> bool {
    &&& forall|p: Seq<Seq<u8>>, q: Seq<Seq<u8>>|
        #[trigger] paths.contains(p) && #[trigger] paths.contains(q) ==> p.len() > n && p.take(
            n as int,
        ) == q.take(n as int)
    &&& exists|p: Seq<Seq<u8>>, q: Seq<Seq<u8>>|
        #[trigger] paths.contains(p) && #[trigger] paths.contains(q) && p[n as int] != q[n as int]
}

/// The depth above which paths are not merged: the one where they part, or the next one when they
/// go on below it, so that distinct subtrees stay apart.
pub open spec fn min_depth(paths: Set<Seq<Seq<u8>>>) -> nat {
    if exists|n: nat| part_at(paths, n) {
        let n = choose|n: nat| part_at(paths, n);
        if exists|p: Seq<Seq<u8>>| #[trigger] paths.contains(p) && p.len() > n + 1 {
            n + 1
        } else {
            n
        }
    } else {
        0
    }
}

/// Whether there are more than `max_paths`, as far as that can be counted.
pub open spec fn too_many(paths: Set<Seq<Seq<u8>>>, max_paths: nat) -> bool {
    path_trie::fitting(paths.len()) > max_paths
}

/// The deepest paths merged, a level at a time from `depth` up, until there are at most
/// `max_paths` or `min` is reached.
pub open spec fn narrowed(paths: Set<Seq<Seq<u8>>>, depth: nat, min: nat, max_paths: nat) -> Set<
    Seq<Seq<u8>>,
>
    decreases depth,
{
    if too_many(paths, max_paths) && depth > min {
        narrowed(cut(paths, depth - 1), (depth - 1) as nat, min, max_paths)
    } else {
        paths
    }
}

/// The depth of the deepest of `paths`.
pub open spec fn max_depth(paths: Set<Seq<Seq<u8>>>) -> nat {
    choose|depth: nat| path_trie::is_deepest(paths, 0, depth)
}

/// What is handed to the system of `paths`, at most `max_paths` of them if that can be. 0 is no
/// limit.
pub open spec fn handed_out(paths: Set<Seq<Seq<u8>>>, max_paths: nat) -> Set<Seq<Seq<u8>>> {
    if max_paths > 0 && too_many(paths, max_paths) {
        narrowed(paths, max_depth(paths), min_depth(paths), max_paths)
    } else {
        paths
    }
}

/// Whether one of the paths is absolute.
pub open spec fn is_rooted(paths: Set<Seq<Seq<u8>>>) -> bool {
    exists|p: Seq<Seq<u8>>| #[trigger] paths.contains(p) && path::is_absolute(p)
}

/// The list holds exactly the paths, in the order of their names, as a tree lists them: beside an
/// absolute path, the relative ones whose names come after `/` are listed below it.
pub open spec fn lists(list: Seq<Seq<Seq<u8>>>, paths: Set<Seq<Seq<u8>>>) -> bool {
    exists|own: Seq<Seq<Seq<u8>>>| #[trigger]
        path_trie::sorted_by_names(own) && own.to_set() == paths && list == own.map_values(
            |p: Seq<Seq<u8>>| path_trie::listed_as(is_rooted(paths), p),
        )
}

/// What the paths cover, the list covers as it is listed. Beside an absolute path, that is not so of
/// the relative ones whose names come after `/`: the list covers them below `/`.
pub proof fn list_covers(list: Seq<Seq<Seq<u8>>>, paths: Set<Seq<Seq<u8>>>, x: Seq<Seq<u8>>)
    requires
        lists(list, paths),
        covers(paths, x),
        apart(paths),
    ensures
        covers(list.to_set(), path_trie::listed_as(is_rooted(paths), x)),
        path::is_absolute(x) || !is_rooted(paths) ==> covers(list.to_set(), x),
{
    let rooted = is_rooted(paths);
    let own = choose|own: Seq<Seq<Seq<u8>>>| #[trigger]
        path_trie::sorted_by_names(own) && own.to_set() == paths && list == own.map_values(
            |p: Seq<Seq<u8>>| path_trie::listed_as(rooted, p),
        );
    let p = choose|p: Seq<Seq<u8>>| #[trigger] paths.contains(p) && path::starts_with(x, p);
    assert(own.to_set().contains(p));
    let i = own.index_of(p);
    let y = path_trie::listed_as(rooted, p);
    let z = path_trie::listed_as(rooted, x);
    assert(list[i] == y);
    assert(list.to_set().contains(y));
    if p.len() == 0 {
        if rooted {
            let a = choose|a: Seq<Seq<u8>>| #[trigger] paths.contains(a) && path::is_absolute(a);
            assert(a.take(0) =~= p);
            assert(path::starts_with(a, p));
            assert(a == p);
        }
    } else {
        assert(x.take(p.len() as int)[0] == x[0]);
        if y != p {
            assert(z.take(y.len() as int) =~= seq![path::root_dir()] + x.take(p.len() as int));
        }
    }
    assert(path::starts_with(z, y));
    path::name_order_is_total();
    let f = |a: Seq<u8>, b: Seq<u8>| path::name_before(a, b);
    assert(!f(path::root_dir(), path::root_dir()));
}

proof fn lemma_starts_with_both(x: Seq<Seq<u8>>, p: Seq<Seq<u8>>, q: Seq<Seq<u8>>)
    requires
        path::starts_with(x, p),
        path::starts_with(x, q),
        p.len() <= q.len(),
    ensures
        path::starts_with(q, p),
{
    assert(q.take(p.len() as int) =~= x.take(q.len() as int).take(p.len() as int));
    assert(x.take(q.len() as int).take(p.len() as int) =~= x.take(p.len() as int));
}

proof fn lemma_itself(p: Seq<Seq<u8>>)
    ensures
        path::starts_with(p, p),
        path::starts_with(p, Seq::empty()),
{
    assert(p.take(p.len() as int) =~= p);
    assert(p.take(0) =~= Seq::empty());
}

/// A path that was covered stays covered when an ancestor of it, or another path, is put in place
/// of what is below; and no path lies below another.
pub proof fn added_covers(paths: Set<Seq<Seq<u8>>>, path: Seq<Seq<u8>>, x: Seq<Seq<u8>>)
    ensures
        covers(added(paths, path), path),
        covers(paths, x) ==> covers(added(paths, path), x),
        apart(paths) && !covers(paths, path) ==> apart(added(paths, path)),
        paths.finite() ==> added(paths, path).finite(),
{
    let new = added(paths, path);
    lemma_itself(path);
    assert(new.contains(path));
    if covers(paths, x) {
        let p = choose|p: Seq<Seq<u8>>| #[trigger] paths.contains(p) && path::starts_with(x, p);
        if path::starts_with(p, path) {
            path::starts_with_transitive(x, p, path);
        } else {
            assert(new.contains(p));
        }
    }
}

/// A covered path stays covered, and paths stay apart, when ancestors are put in place of what is
/// below them.
proof fn lemma_rolled_up(
    paths: Set<Seq<Seq<u8>>>,
    path: Seq<Seq<u8>>,
    n: int,
    x: Seq<Seq<u8>>,
)
    requires
        n < path.len(),
    ensures
        covers(paths, x) ==> covers(rolled_up(paths, path, n), x),
        apart(paths) && paths.contains(path.take(n + 1)) && n + 1 >= 0 ==> apart(
            rolled_up(paths, path, n),
        ),
        paths.finite() ==> rolled_up(paths, path, n).finite(),
    decreases n + 1,
{
    if n < path::floor(path) || entries_of(paths, path.take(n)).len()
        < CHILDREN_CONSOLIDATION_THRESHOLD {
    } else {
        let anc = path.take(n);
        added_covers(paths, anc, x);
        if apart(paths) && paths.contains(path.take(n + 1)) {
            assert(path.take(n + 1).take(n) =~= anc);
            lemma_not_covered(paths, path.take(n + 1), anc);
        }
        lemma_rolled_up(added(paths, anc), path, n - 1, x);
    }
}

/// A proper ancestor of one of the paths is not covered.
proof fn lemma_not_covered(
    paths: Set<Seq<Seq<u8>>>,
    path: Seq<Seq<u8>>,
    ancestor: Seq<Seq<u8>>,
)
    requires
        apart(paths),
        paths.contains(path),
        ancestor.len() < path.len(),
        ancestor == path.take(ancestor.len() as int),
    ensures
        !covers(paths, ancestor),
{
    if covers(paths, ancestor) {
        let p = choose|p: Seq<Seq<u8>>| #[trigger]
            paths.contains(p) && path::starts_with(ancestor, p);
        path::starts_with_transitive(path, ancestor, p);
        assert(p == path);
    }
}

/// What was inserted is covered, and stays covered whatever is inserted later; no path that is
/// watched lies below another.
pub proof fn inserted_covers(
    paths: Set<Seq<Seq<u8>>>,
    path: Seq<Seq<u8>>,
    children_consolidation: bool,
    x: Seq<Seq<u8>>,
)
    ensures
        covers(inserted(paths, path, children_consolidation), path),
        covers(paths, x) ==> covers(inserted(paths, path, children_consolidation), x),
        apart(paths) ==> apart(inserted(paths, path, children_consolidation)),
        paths.finite() ==> inserted(paths, path, children_consolidation).finite(),
{
    if !covers(paths, path) {
        added_covers(paths, path, x);
        added_covers(paths, path, path);
        assert(path.take(path.len() as int) =~= path);
        lemma_rolled_up(added(paths, path), path, path.len() - 1, x);
        lemma_rolled_up(added(paths, path), path, path.len() - 1, path);
    }
}

/// No path gets longer.
pub proof fn inserted_lengths(
    paths: Set<Seq<Seq<u8>>>,
    path: Seq<Seq<u8>>,
    children_consolidation: bool,
    max: nat,
)
    requires
        forall|p: Seq<Seq<u8>>| #[trigger] paths.contains(p) ==> p.len() <= max,
        path.len() <= max,
    ensures
        forall|p: Seq<Seq<u8>>| #[trigger]
            inserted(paths, path, children_consolidation).contains(p) ==> p.len() <= max,
{
    if !covers(paths, path) && children_consolidation {
        lemma_rolled_up_lengths(added(paths, path), path, path.len() - 1, max);
    }
}

proof fn lemma_rolled_up_lengths(
    paths: Set<Seq<Seq<u8>>>,
    path: Seq<Seq<u8>>,
    n: int,
    max: nat,
)
    requires
        forall|p: Seq<Seq<u8>>| #[trigger] paths.contains(p) ==> p.len() <= max,
        path.len() <= max,
        n < path.len(),
    ensures
        forall|p: Seq<Seq<u8>>| #[trigger]
            rolled_up(paths, path, n).contains(p) ==> p.len() <= max,
    decreases n + 1,
{
    if n < path::floor(path) || entries_of(paths, path.take(n)).len()
        < CHILDREN_CONSOLIDATION_THRESHOLD {
        assert(rolled_up(paths, path, n) == paths);
    } else {
        let more = added(paths, path.take(n));
        assert forall|p: Seq<Seq<u8>>| #[trigger] more.contains(p) implies p.len() <= max by {}
        lemma_rolled_up_lengths(more, path, n - 1, max);
        assert(rolled_up(paths, path, n) == rolled_up(more, path, n - 1));
    }
}

/// Cutting paths off keeps what they cover, and keeps them apart.
pub proof fn cut_covers(paths: Set<Seq<Seq<u8>>>, d: int, x: Seq<Seq<u8>>)
    requires
        d >= 0,
    ensures
        covers(paths, x) ==> covers(cut(paths, d), x),
        apart(paths) ==> apart(cut(paths, d)),
        paths.finite() ==> cut(paths, d).finite(),
        paths.finite() ==> cut(paths, d).len() <= paths.len(),
        forall|p: Seq<Seq<u8>>| #[trigger] cut(paths, d).contains(p) ==> p.len() <= d,
{
    let new = cut(paths, d);
    if covers(paths, x) {
        let p = choose|p: Seq<Seq<u8>>| #[trigger] paths.contains(p) && path::starts_with(x, p);
        lemma_itself(p);
        if p.len() < d {
            assert(new.contains(p));
        } else {
            let q = p.take(d);
            assert(path::starts_with(p, q));
            assert(new.contains(q));
            path::starts_with_transitive(x, p, q);
        }
    }
    if apart(paths) {
        assert forall|p: Seq<Seq<u8>>, q: Seq<Seq<u8>>|
            #[trigger] new.contains(p) && #[trigger] new.contains(q) && path::starts_with(
                p,
                q,
            ) implies p == q by {
            if p.len() == d {
                let y = choose|y: Seq<Seq<u8>>| #[trigger]
                    paths.contains(y) && path::starts_with(y, p);
                if q.len() < d {
                    path::starts_with_transitive(y, p, q);
                    assert(y == q);
                } else {
                    assert(p.take(q.len() as int) =~= p);
                }
            }
        }
    }
    if paths.finite() {
        let f = |p: Seq<Seq<u8>>|
            if p.len() < d {
                p
            } else {
                p.take(d)
            };
        assert(paths.map(f) =~= new) by {
            assert forall|q: Seq<Seq<u8>>| #[trigger] new.contains(q) implies paths.map(f).contains(
                q,
            ) by {
                if q.len() < d {
                    assert(f(q) == q);
                } else {
                    let y = choose|y: Seq<Seq<u8>>| #[trigger]
                        paths.contains(y) && path::starts_with(y, q);
                    assert(f(y) == q);
                }
            }
            assert forall|q: Seq<Seq<u8>>| #[trigger] paths.map(f).contains(q) implies new.contains(
                q,
            ) by {
                let y = choose|y: Seq<Seq<u8>>| paths.contains(y) && q == f(y);
                if y.len() >= d {
                    assert(path::starts_with(y, q));
                }
            }
        }
        vstd::set_lib::lemma_map_size_bound(paths, new, f);
    }
}

/// Merging keeps what is covered and keeps the paths apart. It ends with at most `max_paths`, or
/// with nothing deeper than `min`; and it makes no path shorter than `min`.
pub proof fn narrowed_covers(
    paths: Set<Seq<Seq<u8>>>,
    depth: nat,
    min: nat,
    max_paths: nat,
    x: Seq<Seq<u8>>,
)
    requires
        paths.finite(),
        forall|p: Seq<Seq<u8>>| #[trigger] paths.contains(p) ==> p.len() <= depth,
    ensures
        covers(paths, x) ==> covers(narrowed(paths, depth, min, max_paths), x),
        apart(paths) ==> apart(narrowed(paths, depth, min, max_paths)),
        narrowed(paths, depth, min, max_paths).finite(),
        !too_many(narrowed(paths, depth, min, max_paths), max_paths) || forall|p: Seq<Seq<u8>>|
            #[trigger]
            narrowed(paths, depth, min, max_paths).contains(p) ==> p.len() <= min || depth <= min,
        forall|p: Seq<Seq<u8>>| #[trigger]
            narrowed(paths, depth, min, max_paths).contains(p) ==> paths.contains(p) || p.len()
                >= min,
    decreases depth,
{
    if too_many(paths, max_paths) && depth > min {
        cut_covers(paths, depth - 1, x);
        narrowed_covers(cut(paths, depth - 1), (depth - 1) as nat, min, max_paths, x);
    }
}

/// There is one depth at which paths part.
proof fn lemma_part_once(paths: Set<Seq<Seq<u8>>>, n: nat, m: nat)
    requires
        part_at(paths, n),
        part_at(paths, m),
    ensures
        n == m,
{
    if n < m {
        let (p, q) = choose|p: Seq<Seq<u8>>, q: Seq<Seq<u8>>|
            #[trigger] paths.contains(p) && #[trigger] paths.contains(q) && p[n as int]
                != q[n as int];
        assert(p.take(m as int)[n as int] == q.take(m as int)[n as int]);
    } else if m < n {
        let (p, q) = choose|p: Seq<Seq<u8>>, q: Seq<Seq<u8>>|
            #[trigger] paths.contains(p) && #[trigger] paths.contains(q) && p[m as int]
                != q[m as int];
        assert(p.take(n as int)[m as int] == q.take(n as int)[m as int]);
    }
}

/// Where the paths that are watched part and go on below, nothing above is handed out: distinct
/// subtrees are never merged.
pub proof fn subtrees_stay_apart(
    paths: Set<Seq<Seq<u8>>>,
    max_paths: nat,
    n: nat,
    p: Seq<Seq<u8>>,
)
    requires
        paths.finite(),
        forall|p: Seq<Seq<u8>>| #[trigger] paths.contains(p) ==> p.len() <= usize::MAX,
        part_at(paths, n),
        exists|p: Seq<Seq<u8>>| #[trigger] paths.contains(p) && p.len() > n + 1,
        handed_out(paths, max_paths).contains(p),
    ensures
        p.len() > n,
{
    let m = choose|m: nat| part_at(paths, m);
    lemma_part_once(paths, n, m);
    if max_paths > 0 && too_many(paths, max_paths) {
        lemma_max_depth(paths);
        narrowed_covers(paths, max_depth(paths), min_depth(paths), max_paths, p);
    }
}

/// One of finitely many paths is the deepest.
proof fn lemma_deepest_exists(paths: Set<Seq<Seq<u8>>>) -> (depth: nat)
    requires
        paths.finite(),
    ensures
        path_trie::is_deepest(paths, 0, depth),
    decreases paths.len(),
{
    if paths.len() == 0 {
        assert(paths =~= Set::empty());
        0
    } else {
        let p = paths.choose();
        let rest = paths.remove(p);
        let below = lemma_deepest_exists(rest);
        let here = path_trie::fitting(0 + p.len());
        assert forall|q: Seq<Seq<u8>>| #[trigger] paths.contains(q) implies q == p
            || rest.contains(q) by {}
        if below >= here {
            if below != 0 {
                let q = choose|q: Seq<Seq<u8>>| #[trigger]
                    rest.contains(q) && below == path_trie::fitting(0 + q.len());
                assert(paths.contains(q));
            }
            below
        } else {
            assert(paths.contains(p));
            here
        }
    }
}

/// No path is deeper than the deepest.
pub proof fn lemma_max_depth(paths: Set<Seq<Seq<u8>>>)
    requires
        paths.finite(),
        forall|p: Seq<Seq<u8>>| #[trigger] paths.contains(p) ==> p.len() <= usize::MAX,
    ensures
        path_trie::is_deepest(paths, 0, max_depth(paths)),
        forall|p: Seq<Seq<u8>>| #[trigger] paths.contains(p) ==> p.len() <= max_depth(paths),
{
    let depth = lemma_deepest_exists(paths);
    assert(path_trie::is_deepest(paths, 0, depth));
    assert forall|p: Seq<Seq<u8>>| #[trigger] paths.contains(p) implies p.len() <= max_depth(
        paths,
    ) by {
        assert(path_trie::fitting(0 + p.len()) == p.len());
    }
}

/// There is one depth of the deepest path.
proof fn lemma_one_depth(paths: Set<Seq<Seq<u8>>>, depth: nat)
    requires
        paths.finite(),
        path_trie::is_deepest(paths, 0, depth),
        forall|p: Seq<Seq<u8>>| #[trigger] paths.contains(p) ==> p.len() <= usize::MAX,
    ensures
        max_depth(paths) == depth,
{
    lemma_max_depth(paths);
    let m = max_depth(paths);
    if depth != 0 {
        let p = choose|p: Seq<Seq<u8>>| #[trigger]
            paths.contains(p) && depth == path_trie::fitting(0 + p.len());
        assert(paths.contains(p));
    }
    if m != 0 {
        let p = choose|p: Seq<Seq<u8>>| #[trigger]
            paths.contains(p) && m == path_trie::fitting(0 + p.len());
        assert(paths.contains(p));
    }
}

/// What is covered stays covered by what is handed out, and without a limit all of it is handed
/// out.
pub proof fn handed_out_covers(
    paths: Set<Seq<Seq<u8>>>,
    max_paths: nat,
    x: Seq<Seq<u8>>,
)
    requires
        paths.finite(),
        forall|p: Seq<Seq<u8>>| #[trigger] paths.contains(p) ==> p.len() <= usize::MAX,
    ensures
        covers(paths, x) ==> covers(handed_out(paths, max_paths), x),
        max_paths == 0 || !too_many(paths, max_paths) ==> handed_out(paths, max_paths) == paths,
        apart(paths) ==> apart(handed_out(paths, max_paths)),
{
    if max_paths > 0 && too_many(paths, max_paths) {
        lemma_max_depth(paths);
        narrowed_covers(paths, max_depth(paths), min_depth(paths), max_paths, x);
    }
}

/// A set of paths of which none lies below another, as the nodes that lead to them.
#[derive(Debug)]
pub struct ConsolidatingPathTrie {
    children_consolidation: bool,
    /// Maximum number of paths before consolidation. 0 means disabled.
    max_paths: usize,
    trie: PathTrie<()>,
}

/// The tree has the nodes that lead to its values, and no others.
spec fn tight(t: TrieView<()>) -> bool {
    forall|q: Seq<Seq<u8>>| #[trigger]
        t.nodes.contains(q) == (q.len() == 0 || holds(t.values.dom(), q))
}

/// A value in place of everything at and below `path`.
proof fn lemma_put(t: TrieView<()>, after: TrieView<()>, path: Seq<Seq<u8>>)
    requires
        tight(t),
        after == t.planted(path).graft(path, TrieView::leaf(Some(()))),
    ensures
        tight(after),
        after.values.dom() == added(t.values.dom(), path),
{
    let old = t.values.dom();
    let new = added(old, path);
    lemma_itself(path);
    assert forall|q: Seq<Seq<u8>>| path::starts_with(q, path) implies (#[trigger] q.skip(
        path.len() as int,
    ) == Seq::<Seq<u8>>::empty()) == (q == path) by {
        assert(q =~= q.take(path.len() as int) + q.skip(path.len() as int));
        if q.skip(path.len() as int) == Seq::<Seq<u8>>::empty() {
            assert(q =~= path);
        }
        if q == path {
            assert(q.skip(path.len() as int) =~= Seq::empty());
        }
    }
    assert(after.values.dom() =~= new);
    assert forall|q: Seq<Seq<u8>>| #[trigger] after.nodes.contains(q) == (q.len() == 0 || holds(
        new,
        q,
    )) by {
        if path::starts_with(q, path) {
            if holds(new, q) {
                let p = choose|p: Seq<Seq<u8>>| #[trigger] new.contains(p) && path::starts_with(p, q);
                path::starts_with_transitive(p, q, path);
                assert(p == path);
                assert(q =~= path) by {
                    assert(path.take(q.len() as int) =~= q);
                    assert(q.take(path.len() as int) =~= path);
                }
            }
            if q.len() == 0 {
                assert(path =~= q);
            }
            if q == path {
                assert(new.contains(path));
            }
        } else {
            if t.nodes.contains(q) && q.len() > 0 {
                let p = choose|p: Seq<Seq<u8>>| #[trigger] old.contains(p) && path::starts_with(p, q);
                if path::starts_with(p, path) {
                    if q.len() <= path.len() {
                        lemma_starts_with_both(p, q, path);
                        assert(new.contains(path));
                    } else {
                        lemma_starts_with_both(p, path, q);
                    }
                } else {
                    assert(new.contains(p));
                }
            }
            if path::starts_with(path, q) {
                assert(new.contains(path));
            }
            if holds(new, q) {
                let p = choose|p: Seq<Seq<u8>>| #[trigger] new.contains(p) && path::starts_with(p, q);
                if p != path {
                    assert(old.contains(p));
                    assert(t.nodes.contains(q));
                }
            }
            if q.len() == 0 {
                assert(t.nodes.contains(q));
            }
        }
    }
}

proof fn lemma_already_planted(t: TrieView<()>, path: Seq<Seq<u8>>)
    requires
        tight(t),
        t.nodes.contains(path),
    ensures
        t.planted(path) == t,
{
    assert forall|q: Seq<Seq<u8>>| path::starts_with(path, q) implies #[trigger] t.nodes.contains(
        q,
    ) by {
        if path.len() == 0 {
            assert(q =~= Seq::empty());
        } else {
            let p = choose|p: Seq<Seq<u8>>| #[trigger]
                t.values.dom().contains(p) && path::starts_with(p, path);
            path::starts_with_transitive(p, path, q);
        }
    }
    assert(t.planted(path) =~= t);
}

/// Everything below a depth folded into that depth.
proof fn lemma_cut(t: TrieView<()>, after: TrieView<()>, d: int)
    requires
        d >= 0,
        tight(t),
        path_trie::consolidated(t, after, d),
    ensures
        tight(after),
        after.values.dom() == cut(t.values.dom(), d),
{
    let old = t.values.dom();
    let new = cut(old, d);
    assert forall|q: Seq<Seq<u8>>| t.holds(q) == #[trigger] holds(old, q) by {
        if t.holds(q) {
            let p = choose|p: Seq<Seq<u8>>| #[trigger]
                t.values.contains_key(p) && path::starts_with(p, q);
            assert(old.contains(p));
        }
        if holds(old, q) {
            let p = choose|p: Seq<Seq<u8>>| #[trigger] old.contains(p) && path::starts_with(p, q);
            assert(t.values.contains_key(p));
        }
    }
    assert(after.values.dom() =~= new) by {
        assert forall|q: Seq<Seq<u8>>| #[trigger] after.values.dom().contains(q) == new.contains(
            q,
        ) by {
            assert(after.values.contains_key(q) == if q.len() < d {
                t.values.contains_key(q)
            } else {
                q.len() == d && t.holds(q)
            });
            assert(t.holds(q) == holds(old, q));
        }
    }
    assert forall|q: Seq<Seq<u8>>| #[trigger] after.nodes.contains(q) == (q.len() == 0 || holds(
        new,
        q,
    )) by {
        if q.len() <= d {
            if holds(old, q) {
                let p = choose|p: Seq<Seq<u8>>| #[trigger] old.contains(p) && path::starts_with(p, q);
                if p.len() < d {
                    assert(new.contains(p));
                } else {
                    assert(path::starts_with(p, p.take(d)));
                    assert(new.contains(p.take(d)));
                    lemma_starts_with_both(p, q, p.take(d));
                }
            }
            if holds(new, q) {
                let p = choose|p: Seq<Seq<u8>>| #[trigger] new.contains(p) && path::starts_with(p, q);
                if p.len() < d {
                    assert(old.contains(p));
                } else {
                    let y = choose|y: Seq<Seq<u8>>| #[trigger]
                        old.contains(y) && path::starts_with(y, p);
                    path::starts_with_transitive(y, p, q);
                }
            }
            assert(t.nodes.contains(q) == (q.len() == 0 || holds(old, q)));
        } else {
            if t.nodes.contains(q) {
                let p = choose|p: Seq<Seq<u8>>| #[trigger] old.contains(p) && path::starts_with(p, q);
                assert(path::starts_with(q, q.take(d)));
                path::starts_with_transitive(p, q, q.take(d));
                assert(holds(old, q.take(d)));
            }
            if holds(new, q) {
                let p = choose|p: Seq<Seq<u8>>| #[trigger] new.contains(p) && path::starts_with(p, q);
                assert(false);
            }
        }
    }
}

impl View for ConsolidatingPathTrie {
    type V = Set<Seq<Seq<u8>>>;

    closed spec fn view(&self) -> Set<Seq<Seq<u8>>> {
        self.trie@.values.dom()
    }
}

impl ConsolidatingPathTrie {
    pub closed spec fn wf(&self) -> bool {
        &&& self.trie.wf()
        &&& tight(self.trie@)
        &&& apart(self@)
        &&& self@.finite()
        &&& forall|p: Seq<Seq<u8>>| #[trigger] self@.contains(p) ==> p.len() <= usize::MAX
    }

    pub closed spec fn children_consolidation(&self) -> bool {
        self.children_consolidation
    }

    pub closed spec fn max_paths(&self) -> nat {
        self.max_paths as nat
    }

    pub fn new(children_consolidation: bool, max_paths: usize) -> (trie: Self)
        ensures
            trie.wf(),
            trie@ == Set::<Seq<Seq<u8>>>::empty(),
            trie.children_consolidation() == children_consolidation,
            trie.max_paths() == max_paths,
    {
        let trie = ConsolidatingPathTrie {
            children_consolidation,
            max_paths,
            trie: PathTrie::new(),
        };
        proof {
            assert(trie@ =~= Set::empty());
            assert forall|q: Seq<Seq<u8>>| q.len() == 0 implies q == Seq::<Seq<u8>>::empty() by {
                assert(q =~= Seq::empty());
            }
        }
        trie
    }

    /// Adds `path`, unless it is covered. With children consolidation, a directory that now has
    /// entries enough stands for them, and so do the directories above it.
    pub fn insert(&mut self, path: &PathBuf)
        requires
            old(self).wf(),
        ensures
            final(self).wf(),
            final(self)@ == inserted(old(self)@, path@, old(self).children_consolidation()),
            final(self).children_consolidation() == old(self).children_consolidation(),
            final(self).max_paths() == old(self).max_paths(),
    {
        let ghost before = self@;
        if self.trie.get_ancestor(path).is_some() {
            proof {
                let a = choose|a: Seq<Seq<u8>>| #[trigger]
                    before.contains(a) && path::starts_with(path@, a);
                assert(covers(before, path@));
            }
            return;
        }
        proof {
            if covers(before, path@) {
                let p = choose|p: Seq<Seq<u8>>| #[trigger]
                    before.contains(p) && path::starts_with(path@, p);
                assert(path@.take(p.len() as int) == p);
                assert(false);
            }
            added_covers(before, path@, path@);
            inserted_covers(before, path@, self.children_consolidation, path@);
        }
        let len: usize = path.len();
        assert(path@.len() == len);
        let ghost t0 = self.trie@;
        {
            let node = self.trie.insert(path, ());
            node.remove_children();
        }
        let ghost S = added(before, path@);
        proof {
            lemma_put(t0, self.trie@, path@);
            assert(path@.take(path@.len() as int) =~= path@);
            assert(S.contains(path@));
        }
        if self.children_consolidation {
            let floor: usize = path.floor();
            let mut n: usize = len;
            let ghost mut now = S;
            while n > floor
                invariant_except_break
                    inserted(before, path@, true) == rolled_up(now, path@, n - 1),
                    now.contains(path@.take(n as int)),
                invariant
                    floor == path::floor(path@),
                    n <= path@.len(),
                    self.trie.wf(),
                    tight(self.trie@),
                    self.trie@.values.dom() == now,
                    self.children_consolidation == old(self).children_consolidation,
                    self.max_paths == old(self).max_paths,
                    apart(now),
                    now.finite(),
                    forall|p: Seq<Seq<u8>>| #[trigger] now.contains(p) ==> p.len() <= usize::MAX,
                ensures
                    inserted(before, path@, true) == now,
                decreases n,
            {
                n = n - 1;
                let ancestor = path.prefix(n);
                let ghost anc = ancestor@;
                let ghost t = self.trie@;
                proof {
                    assert(path::starts_with(path@.take(n + 1), anc)) by {
                        assert(path@.take(n + 1).take(n as int) =~= anc);
                    }
                    assert(holds(now, anc));
                    assert(t.nodes.contains(anc));
                    assert(t.at(anc).children() =~= entries_of(now, anc)) by {
                        assert forall|k: Seq<u8>| anc + seq![k] == #[trigger] anc.push(k) by {
                            assert(anc + seq![k] =~= anc.push(k));
                        }
                        assert forall|k: Seq<u8>| #[trigger]
                            t.at(anc).children().contains(k) == entries_of(now, anc).contains(k) by {
                            assert(anc + seq![k] == anc.push(k));
                            assert(t.nodes.contains(anc.push(k)) == holds(now, anc.push(k)));
                        }
                    }
                }
                let mut rolled = false;
                if let Some(node) = self.trie.get_node_mut(&ancestor) {
                    if node.children_len() >= CHILDREN_CONSOLIDATION_THRESHOLD {
                        node.remove_children();
                        node.set_value(());
                        proof {
                            let leaf = TrieView::<()>::leaf(None);
                            assert(TrieView::leaf(Some(())) =~= leaf.with_value(()));
                            assert(TrieView::leaf(Some(())) =~= TrieView::leaf(Some(())).with_value(
                                (),
                            ));
                        }
                        rolled = true;
                    } else {
                        proof {
                            lemma_same(t, anc);
                        }
                    }
                }
                if !rolled {
                    break ;
                }
                proof {
                    lemma_already_planted(t, anc);
                    lemma_put(t, self.trie@, anc);
                    assert(path@.take(n + 1).take(n as int) =~= anc);
                    lemma_not_covered(now, path@.take(n + 1), anc);
                    added_covers(now, anc, anc);
                    now = added(now, anc);
                }
            }
        }
    }
}

/// All of `paths` are `here` or lie below it.
spec fn all_below(paths: Set<Seq<Seq<u8>>>, here: Seq<Seq<u8>>) -> bool {
    forall|p: Seq<Seq<u8>>| #[trigger] paths.contains(p) ==> path::starts_with(p, here)
}

/// A set of at most one name that holds `k` holds nothing else.
proof fn lemma_only(names: Set<Seq<u8>>, k: Seq<u8>)
    requires
        names.finite(),
        names.len() <= 1,
        names.contains(k),
    ensures
        names == set![k],
{
    assert forall|l: Seq<u8>| names.contains(l) implies l == k by {
        if l != k {
            let both = set![k, l];
            assert(both.len() == 2);
            vstd::set_lib::lemma_len_subset(both, names);
        }
    }
    assert(names =~= set![k]);
}

/// The children of a node are the next components of the paths below it.
proof fn lemma_children(t: TrieView<()>, here: Seq<Seq<u8>>)
    requires
        tight(t),
        all_below(t.values.dom(), here),
    ensures
        forall|k: Seq<u8>| #[trigger]
            t.at(here).children().contains(k) == holds(t.values.dom(), here.push(k)),
        forall|p: Seq<Seq<u8>>| #[trigger]
            t.values.dom().contains(p) && p.len() > here.len() ==> t.at(here).children().contains(
                p[here.len() as int],
            ),
        forall|p: Seq<Seq<u8>>| #[trigger]
            t.values.dom().contains(p) && p.len() <= here.len() ==> p == here,
{
    let paths = t.values.dom();
    assert forall|k: Seq<u8>| #[trigger] t.at(here).children().contains(k) == holds(
        paths,
        here.push(k),
    ) by {
        assert(here + seq![k] =~= here.push(k));
    }
    assert forall|p: Seq<Seq<u8>>| #[trigger] paths.contains(p) && p.len() > here.len() implies t.at(
        here,
    ).children().contains(p[here.len() as int]) by {
        let k = p[here.len() as int];
        assert(p.take(here.len() as int) == here);
        assert(p.take(here.len() as int + 1) =~= here.push(k));
        assert(holds(paths, here.push(k)));
    }
    assert forall|p: Seq<Seq<u8>>| #[trigger] paths.contains(p) && p.len() <= here.len() implies p
        == here by {
        assert(p.take(here.len() as int) =~= p);
    }
}

proof fn lemma_one_child(t: TrieView<()>, here: Seq<Seq<u8>>, k: Seq<u8>)
    requires
        tight(t),
        apart(t.values.dom()),
        all_below(t.values.dom(), here),
        t.at(here).children() == set![k],
        forall|p: Seq<Seq<u8>>| #[trigger] t.values.dom().contains(p) ==> p.len() <= usize::MAX,
    ensures
        all_below(t.values.dom(), here.push(k)),
        t.at(here).at(seq![k]) == t.at(here.push(k)),
        here.len() < usize::MAX,
{
    let paths = t.values.dom();
    let next = here.push(k);
    lemma_children(t, here);
    assert(t.at(here).children().contains(k));
    let x = choose|x: Seq<Seq<u8>>| #[trigger] paths.contains(x) && path::starts_with(x, next);
    assert forall|p: Seq<Seq<u8>>| #[trigger] paths.contains(p) implies path::starts_with(p, next) by {
        if p.len() <= here.len() {
            assert(p == here);
            assert(path::starts_with(x, p));
            assert(x == p);
        }
        assert(p[here.len() as int] == k);
        assert(p.take(here.len() as int) == here);
        assert(p.take(next.len() as int) =~= next);
    }
    assert forall|q: Seq<Seq<u8>>| here + (seq![k] + q) == #[trigger] (next + q) by {
        assert(here + (seq![k] + q) =~= next + q);
    }
    assert(t.at(here).at(seq![k]).nodes =~= t.at(next).nodes);
    assert(t.at(here).at(seq![k]).values =~= t.at(next).values);
}

proof fn lemma_no_child(t: TrieView<()>, here: Seq<Seq<u8>>)
    requires
        tight(t),
        all_below(t.values.dom(), here),
        t.at(here).children() == Set::<Seq<u8>>::empty(),
    ensures
        min_depth(t.values.dom()) == 0,
{
    let paths = t.values.dom();
    lemma_children(t, here);
    assert forall|n: nat| !part_at(paths, n) by {
        if part_at(paths, n) {
            let (p, q) = choose|p: Seq<Seq<u8>>, q: Seq<Seq<u8>>|
                #[trigger] paths.contains(p) && #[trigger] paths.contains(q) && p[n as int]
                    != q[n as int];
            assert(p == here);
            assert(q == here);
        }
    }
}

proof fn lemma_fork(t: TrieView<()>, here: Seq<Seq<u8>>)
    requires
        tight(t),
        apart(t.values.dom()),
        all_below(t.values.dom(), here),
        t.at(here).children().finite(),
        t.at(here).children().len() > 1,
    ensures
        part_at(t.values.dom(), here.len()),
{
    let paths = t.values.dom();
    let names = t.at(here).children();
    let n = here.len();
    lemma_children(t, here);
    let k = names.choose();
    let l = names.remove(k).choose();
    assert(names.contains(k));
    assert(names.remove(k).len() > 0);
    assert(names.remove(k).contains(l));
    let p = choose|p: Seq<Seq<u8>>| #[trigger]
        paths.contains(p) && path::starts_with(p, here.push(k));
    let q = choose|q: Seq<Seq<u8>>| #[trigger]
        paths.contains(q) && path::starts_with(q, here.push(l));
    assert(p[n as int] == p.take(n as int + 1)[n as int]);
    assert(q[n as int] == q.take(n as int + 1)[n as int]);
    assert forall|x: Seq<Seq<u8>>, y: Seq<Seq<u8>>|
        #[trigger] paths.contains(x) && #[trigger] paths.contains(y) implies x.len() > n && x.take(
        n as int,
    ) == y.take(n as int) by {
        if x.len() <= n {
            assert(x == here);
            assert(path::starts_with(p, x));
            assert(p == x);
        }
    }
}

impl ConsolidatingPathTrie {
    /// Find the depth below which consolidation is safe.
    ///
    /// Walks from the trie root following single-child nodes until hitting
    /// a node with multiple children (a divergence point). If there are
    /// multiple branching levels, the first divergence is protected to
    /// prevent merging distinct subtrees. If there's only one branching
    /// level (single chain to leaf fan-out), consolidation is allowed
    /// at the branching point.
    ///
    /// Example 1: watching `/a/x/y`, `/a/x/z`, `/b/w/v`
    ///   First fork at `/` (depth 1), children `a` and `b` have subtrees.
    ///   Returns 2 (`/a` and `/b` are never merged into `/`).
    ///
    /// Example 2: watching `/root/a/b/file0` .. `/root/a/b/file19`
    ///   First fork at `b` (depth 4), all children are leaves.
    ///   Returns 4 (files can be merged into `/root/a/b`).
    fn min_consolidation_depth(&self) -> (depth: usize)
        requires
            self.wf(),
        ensures
            depth == min_depth(self@),
    {
        let ghost paths = self@;
        let ghost t = self.trie@;
        let mut node = self.trie.root();
        let mut depth: usize = 0;
        let ghost mut here = Seq::<Seq<u8>>::empty();
        proof {
            assert(t.at(here) =~= t) by {
                assert forall|q: Seq<Seq<u8>>| here + q == q by {
                    assert(here + q =~= q);
                }
            }
            assert forall|p: Seq<Seq<u8>>| #[trigger] paths.contains(p) implies path::starts_with(
                p,
                here,
            ) by {
                lemma_itself(p);
            }
        }
        loop
            invariant_except_break
                paths == self@,
                t == self.trie@,
                self.wf(),
                node.wf(),
                node@ == t.at(here),
                here.len() == depth,
                all_below(paths, here),
            ensures
                paths == self@,
                t == self.trie@,
                self.wf(),
                node.wf(),
                node@ == t.at(here),
                here.len() == depth,
                all_below(paths, here),
                part_at(paths, depth as nat),
            decreases usize::MAX - depth,
        {
            if node.children_len() <= 1 {
                match node.first_child() {
                    Some(child) => {
                        proof {
                            let k = choose|k: Seq<u8>| #[trigger]
                                node@.children().contains(k) && child@ == node@.at(seq![k]);
                            lemma_only(node@.children(), k);
                            lemma_one_child(t, here, k);
                            here = here.push(k);
                        }
                        node = child;
                        depth = depth + 1;
                    },
                    None => {
                        proof {
                            lemma_no_child(t, here);
                        }
                        return 0;
                    },
                }
            } else {
                proof {
                    lemma_fork(t, here);
                }
                break ;
            }
        }
        proof {
            let m = choose|m: nat| part_at(paths, m);
            lemma_part_once(paths, depth as nat, m);
            let (x, y) = choose|p: Seq<Seq<u8>>, q: Seq<Seq<u8>>|
                #[trigger] paths.contains(p) && #[trigger] paths.contains(q) && p[depth as int]
                    != q[depth as int];
        }
        let deep = node.has_grandchildren();
        proof {
            if deep {
                let q = choose|q: Seq<Seq<u8>>| #[trigger]
                    node@.nodes.contains(q) && q.len() == 2;
                assert(t.nodes.contains(here + q));
                let p = choose|p: Seq<Seq<u8>>| #[trigger]
                    paths.contains(p) && path::starts_with(p, here + q);
                assert(p.len() > depth + 1);
            } else if exists|p: Seq<Seq<u8>>| #[trigger] paths.contains(p) && p.len() > depth + 1 {
                let p = choose|p: Seq<Seq<u8>>| #[trigger]
                    paths.contains(p) && p.len() > depth + 1;
                let k = p[depth as int];
                let l = p[depth + 1];
                let deeper = here + seq![k, l];
                assert(p.take(depth as int) == here);
                assert(p.take(deeper.len() as int) =~= deeper);
                assert(holds(paths, deeper));
                assert(t.nodes.contains(deeper));
                assert(node@.nodes.contains(seq![k, l]));
            }
        }
        if deep {
            depth + 1
        } else {
            depth
        }
    }

    /// The paths to watch, in the order of their names. Where there are more of them than may be,
    /// they are merged into the directories above, the deepest first, as far as that is safe.
    pub fn values(&mut self) -> (paths: Vec<PathBuf>)
        requires
            old(self).wf(),
        ensures
            final(self).wf(),
            final(self)@ == handed_out(old(self)@, old(self).max_paths()),
            final(self).children_consolidation() == old(self).children_consolidation(),
            final(self).max_paths() == old(self).max_paths(),
            lists(path::views(paths@), final(self)@),
    {
        if self.max_paths > 0 {
            let max_paths: usize = self.max_paths;
            let mut count: usize = self.trie.root().count_values();
            if count > max_paths {
                let min: usize = self.min_consolidation_depth();
                let mut depth: usize = self.trie.root().max_value_depth(0);
                let ghost start = self@;
                proof {
                    lemma_one_depth(self@, depth as nat);
                }
                while count > max_paths && depth > min
                    invariant
                        self.wf(),
                        self.children_consolidation == old(self).children_consolidation,
                        self.max_paths == old(self).max_paths,
                        max_paths == self.max_paths,
                        min == min_depth(start),
                        count == path_trie::fitting(self@.len()),
                        narrowed(start, max_depth(start), min as nat, max_paths as nat)
                            == narrowed(
                            self@,
                            depth as nat,
                            min as nat,
                            max_paths as nat,
                        ),
                    decreases depth,
                {
                    let ghost before = self@;
                    let ghost t = self.trie@;
                    consolidate_at_depth(self.trie.root_mut(), 0, depth - 1, min);
                    proof {
                        lemma_cut(t, self.trie@, depth - 1);
                        cut_covers(before, depth - 1, Seq::empty());
                        assert forall|p: Seq<Seq<u8>>| #[trigger] self@.contains(p) implies p.len()
                            <= usize::MAX by {}
                    }
                    count = self.trie.root().count_values();
                    depth = depth - 1;
                }
            }
        }
        let entries = self.trie.iter();
        let mut paths: Vec<PathBuf> = Vec::new();
        let mut i: usize = 0;
        while i < entries.len()
            invariant
                i <= entries@.len(),
                paths@.len() == i,
                forall|k: int| 0 <= k < i ==> (#[trigger] paths@[k])@ == entries@[k].0@,
            decreases entries.len() - i,
        {
            paths.push(entries[i].0.clone());
            i = i + 1;
        }
        proof {
            let t = self.trie@;
            let root = seq![path::root_dir()];
            assert(t.nodes.contains(root) == is_rooted(self@)) by {
                if holds(t.values.dom(), root) {
                    let p = choose|p: Seq<Seq<u8>>| #[trigger]
                        t.values.dom().contains(p) && path::starts_with(p, root);
                    assert(p.take(1)[0] == p[0]);
                    assert(self@.contains(p));
                }
                if is_rooted(self@) {
                    let p = choose|p: Seq<Seq<u8>>| #[trigger]
                        self@.contains(p) && path::is_absolute(p);
                    assert(p.take(1) =~= root);
                    assert(t.values.dom().contains(p));
                }
            }
            let own = choose|own: Seq<Seq<Seq<u8>>>| #[trigger]
                path_trie::sorted_by_names(own) && own.to_set() == t.values.dom()
                    && path_trie::entry_views(entries@) == path_trie::listed(t, own);
            assert(path_trie::entry_views(entries@).len() == path_trie::listed(t, own).len());
            assert forall|k: int| 0 <= k < paths@.len() implies (#[trigger] paths@[k])@
                == path_trie::listed_as(is_rooted(self@), own[k]) by {
                assert(path_trie::entry_views(entries@)[k] == path_trie::listed(t, own)[k]);
                assert(path_trie::entry_views(entries@)[k].0 == entries@[k].0@);
            }
            assert(path::views(paths@) =~= own.map_values(
                |p: Seq<Seq<u8>>| path_trie::listed_as(is_rooted(self@), p),
            ));
        }
        paths
    }
}

/// A node put back as it was.
proof fn lemma_same(t: TrieView<()>, p: Seq<Seq<u8>>)
    ensures
        t.graft(p, t.at(p)) == t,
{
    let c = t.graft(p, t.at(p));
    assert forall|q: Seq<Seq<u8>>|
        #![trigger c.nodes.contains(q)]
        #![trigger c.values.dom().contains(q)]
        {
            &&& c.nodes.contains(q) == t.nodes.contains(q)
            &&& c.values.contains_key(q) == t.values.contains_key(q)
            &&& c.values.contains_key(q) ==> c.values[q] == t.values[q]
        } by {
        if path::starts_with(q, p) {
            assert(q =~= p + q.skip(p.len() as int));
        }
    }
    assert(c.nodes =~= t.nodes);
    assert(c.values =~= t.values);
}

} // verus!
