//! How texts spell paths, and how paths are ordered.

use crate::order;
use crate::path;
use crate::path_trie;
use vstd::prelude::*;

verus! {

/// A text after its last separator is a component of the path, unless it is empty or `.`. What
/// comes before spells the rest; where nothing comes before the separator, it is the root. A text
/// without a separator is a component by itself, unless it is empty.
pub proof fn last_separator_splits(s: Seq<u8>, t: Seq<u8>)
    requires
        !t.contains(47),
    ensures
        path::components(s.push(47) + t) == (if s.len() == 0 {
            seq![seq![47u8]]
        } else {
            path::components(s)
        }) + if t.len() == 0 || t == seq![46u8] {
            seq![]
        } else {
            seq![t]
        },
        path::components(t) == if t.len() == 0 {
            seq![]
        } else {
            seq![t]
        },
{
    reveal_with_fuel(path::kept, 3);
    let split = s.push(47);
    let text = split + t;
    path::lemma_pieces_name(split, t);
    path::lemma_pieces_some(s);
    assert(split.drop_last() =~= s);
    let before = path::pieces(s);
    assert(path::pieces(split) == before.push(Seq::empty()));
    assert(before.push(Seq::<u8>::empty()).drop_last() =~= before);
    assert(Seq::<u8>::empty() + t =~= t);
    assert(path::pieces(text) == before.push(t));
    assert(before.push(t).drop_last() =~= before);
    assert(path::root_dir() =~= seq![47u8]);
    assert(path::cur_dir() =~= seq![46u8]);
    let own = if t.len() == 0 || t == seq![46u8] {
        Seq::<Seq<u8>>::empty()
    } else {
        seq![t]
    };
    assert(path::kept(before.push(t)) =~= path::kept(before) + own);
    assert(text[0] == if s.len() == 0 {
        47u8
    } else {
        s[0]
    });
    if s.len() == 0 {
        assert(before == seq![Seq::<u8>::empty()]);
        assert(before.drop_last() =~= Seq::empty());
        assert(path::kept(before) =~= Seq::empty());
        assert(path::components(text) =~= seq![seq![47u8]] + own);
    } else {
        assert(path::components(text) =~= path::components(s) + own);
    }
    let none = Seq::<u8>::empty();
    path::lemma_pieces_name(none, t);
    assert(none + t =~= t);
    assert(path::pieces(none) == seq![none]);
    assert(seq![none].drop_last() =~= Seq::<Seq<u8>>::empty());
    assert(path::pieces(t) =~= seq![t]);
    assert(seq![t].drop_last() =~= Seq::<Seq<u8>>::empty());
    if t.len() > 0 {
        assert(t[0] != 47) by {
            if t[0] == 47 {
                assert(t.contains(47));
            }
        }
        assert(path::kept(seq![t]) =~= seq![t]);
    } else {
        assert(path::kept(seq![t]) =~= Seq::empty());
    }
}

/// A path is spelled by its components with one separator between two of them. The root is one
/// itself.
pub proof fn one_separator_stands_between_components(p: Seq<Seq<u8>>, c: Seq<u8>)
    ensures
        path::rendered(seq![]) == Seq::<u8>::empty(),
        path::rendered(seq![c]) == c,
        p.len() > 0 ==> path::rendered(p.push(c)) == path::rendered(p) + (if p == seq![seq![47u8]] {
            seq![]
        } else {
            seq![47u8]
        }) + c,
{
    assert(path::root_dir() =~= seq![47u8]);
    let longer = p.push(c);
    assert(longer.drop_last() =~= p);
    if p.len() == 1 {
        assert(p =~= seq![p[0]]);
        assert(longer[0] == p[0] && longer[1] == c);
        if p[0] == seq![47u8] {
            assert(p == seq![seq![47u8]]);
            assert(path::rendered(longer) =~= path::rendered(p) + seq![] + c);
        } else {
            assert(p != seq![seq![47u8]]) by {
                assert(seq![seq![47u8]][0] == seq![47u8]);
            }
            assert(path::rendered(longer) =~= path::rendered(p) + seq![47u8] + c);
        }
    } else if p.len() > 1 {
        assert(path::rendered(longer) =~= path::rendered(p) + seq![47u8] + c);
    }
}

/// A path that follows another: an absolute one stands alone, and so does one that follows nothing.
/// A leading `.` of a relative one is left out.
pub proof fn relative_path_follows(p: Seq<Seq<u8>>, q: Seq<Seq<u8>>)
    ensures
        path::joined(p, q) == if p.len() == 0 || (q.len() > 0 && q[0] == seq![47u8]) {
            q
        } else if q.len() > 0 && q[0] == seq![46u8] {
            p + q.subrange(1, q.len() as int)
        } else {
            p + q
        },
{
    assert(path::root_dir() =~= seq![47u8]);
    assert(path::cur_dir() =~= seq![46u8]);
    if q.len() > 0 {
        assert(q.drop_first() =~= q.subrange(1, q.len() as int));
    }
}

/// The parent of a path is what is left without its last component. The root and the empty path
/// have none.
pub proof fn parent_leaves_last_component_out(p: Seq<Seq<u8>>)
    ensures
        path::parent(p) == if p.len() == 0 || p == seq![seq![47u8]] {
            None
        } else {
            Some(p.take(p.len() - 1))
        },
        path::is_absolute(p) <==> p.len() > 0 && p[0] == seq![47u8],
{
    assert(path::root_dir() =~= seq![47u8]);
    if p.len() == 1 && p[0] == seq![47u8] {
        assert(p =~= seq![seq![47u8]]);
    }
    if p == seq![seq![47u8]] {
        assert(p[0] == seq![47u8]);
    }
    if p.len() > 0 {
        assert(p.drop_last() =~= p.take(p.len() - 1));
    }
}

proof fn lemma_first<T>(lt: spec_fn(T, T) -> bool, a: Seq<T>, b: Seq<T>) -> (n: int)
    ensures
        0 <= n <= a.len(),
        n <= b.len(),
        a.take(n) == b.take(n),
        n < a.len() && n < b.len() ==> a[n] != b[n],
        order::lex_lt(lt, a, b) <==> n < b.len() && (n == a.len() || lt(a[n], b[n])),
    decreases a.len(),
{
    if a.len() > 0 && b.len() > 0 && a[0] == b[0] {
        let x = a.drop_first();
        let y = b.drop_first();
        let n = lemma_first(lt, x, y);
        assert(a.take(n + 1) =~= seq![a[0]] + x.take(n));
        assert(b.take(n + 1) =~= seq![b[0]] + y.take(n));
        n + 1
    } else {
        assert(a.take(0) =~= b.take(0));
        0
    }
}

/// Whether the first `n` of both are the same, and the next of both, if they have one, are not.
pub open spec fn differ_after<T>(a: Seq<T>, b: Seq<T>, n: int) -> bool {
    &&& 0 <= n <= a.len() && n <= b.len()
    &&& a.take(n) == b.take(n)
    &&& n < a.len() && n < b.len() ==> a[n] != b[n]
}

proof fn lemma_one_difference<T>(a: Seq<T>, b: Seq<T>, n: int, m: int)
    requires
        differ_after(a, b, n),
        differ_after(a, b, m),
    ensures
        n == m,
{
    if n < m {
        assert(a.take(m)[n] == b.take(m)[n]);
    } else if m < n {
        assert(a.take(n)[m] == b.take(n)[m]);
    }
}

/// Of two names the one comes first that has the smaller byte where they first differ, or that ends
/// there.
pub proof fn names_are_ordered_by_bytes(a: Seq<u8>, b: Seq<u8>, n: int)
    requires
        differ_after(a, b, n),
    ensures
        path::name_before(a, b) <==> n < b.len() && (n == a.len() || a[n] < b[n]),
{
    let m = lemma_first(path::byte_order(), a, b);
    lemma_one_difference(a, b, n, m);
}

/// Where a component stands: the root first, then `.`, then `..`, then names.
pub open spec fn place(c: Seq<u8>) -> int {
    if c == seq![47u8] {
        0
    } else if c == seq![46u8] {
        1
    } else if c == seq![46u8, 46u8] {
        2
    } else {
        3
    }
}

/// Of two paths the one comes first whose component does where they first differ, or that ends
/// there. Trees list paths by the names of their components alone.
pub proof fn paths_are_ordered_by_components(a: Seq<Seq<u8>>, b: Seq<Seq<u8>>, n: int)
    requires
        differ_after(a, b, n),
    ensures
        path::path_before(a, b) <==> n < b.len() && (n == a.len() || place(a[n]) < place(b[n]) || (
        place(a[n]) == place(b[n]) && path::name_before(a[n], b[n]))),
        path_trie::by_names(a, b) <==> n < b.len() && (n == a.len() || path::name_before(
            a[n],
            b[n],
        )),
{
    assert(path::root_dir() =~= seq![47u8]);
    assert(path::cur_dir() =~= seq![46u8]);
    assert(path::parent_dir() =~= seq![46u8, 46u8]);
    let m = lemma_first(path::component_order(), a, b);
    lemma_one_difference(a, b, n, m);
    let k = lemma_first(path_trie::name_order(), a, b);
    lemma_one_difference(a, b, n, k);
}

} // verus!
