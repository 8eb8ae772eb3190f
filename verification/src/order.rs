//! Lexicographic order on sequences.

use vstd::prelude::*;

verus! {

/// How two values stand to each other.
#[derive(Clone, Copy, Debug, PartialEq, Eq, Structural)]
pub enum Side {
    Below,
    Same,
    Above,
}

/// `lt` is a strict total order.
pub open spec fn total_order<T>(lt: spec_fn(T, T) -> bool) -> bool {
    &&& forall|a: T| !#[trigger] lt(a, a)
    &&& forall|a: T, b: T| a != b ==> (#[trigger] lt(a, b) || lt(b, a))
    &&& forall|a: T, b: T, c: T| #[trigger] lt(a, b) && #[trigger] lt(b, c) ==> lt(a, c)
}

/// The lexicographic order that `lt` induces: a proper prefix comes first.
pub open spec fn lex_lt<T>(lt: spec_fn(T, T) -> bool, a: Seq<T>, b: Seq<T>) -> bool
    decreases a.len(),
{
    if b.len() == 0 {
        false
    } else if a.len() == 0 {
        true
    } else if a[0] == b[0] {
        lex_lt(lt, a.drop_first(), b.drop_first())
    } else {
        lt(a[0], b[0])
    }
}

pub proof fn lemma_lex_irreflexive<T>(lt: spec_fn(T, T) -> bool, a: Seq<T>)
    ensures
        !lex_lt(lt, a, a),
    decreases a.len(),
{
    if a.len() > 0 {
        lemma_lex_irreflexive(lt, a.drop_first());
    }
}

pub proof fn lemma_lex_trichotomy<T>(lt: spec_fn(T, T) -> bool, a: Seq<T>, b: Seq<T>)
    requires
        total_order(lt),
        a != b,
    ensures
        lex_lt(lt, a, b) || lex_lt(lt, b, a),
    decreases a.len(),
{
    if a.len() == 0 {
        if b.len() == 0 {
            assert(a =~= b);
        }
    } else if b.len() > 0 && a[0] == b[0] {
        if a.drop_first() =~= b.drop_first() {
            assert(a =~= seq![a[0]] + a.drop_first());
            assert(b =~= seq![b[0]] + b.drop_first());
        }
        lemma_lex_trichotomy(lt, a.drop_first(), b.drop_first());
    }
}

pub proof fn lemma_lex_transitive<T>(
    lt: spec_fn(T, T) -> bool,
    a: Seq<T>,
    b: Seq<T>,
    c: Seq<T>,
)
    requires
        total_order(lt),
        lex_lt(lt, a, b),
        lex_lt(lt, b, c),
    ensures
        lex_lt(lt, a, c),
    decreases a.len(),
{
    if a.len() > 0 && a[0] == b[0] && b[0] == c[0] {
        lemma_lex_transitive(lt, a.drop_first(), b.drop_first(), c.drop_first());
    }
}

/// The lexicographic order of a total order is total.
pub proof fn lemma_lex_total<T>(lt: spec_fn(T, T) -> bool)
    requires
        total_order(lt),
    ensures
        total_order(|a: Seq<T>, b: Seq<T>| lex_lt(lt, a, b)),
{
    let lex = |a: Seq<T>, b: Seq<T>| lex_lt(lt, a, b);
    assert forall|a: Seq<T>| !#[trigger] lex(a, a) by {
        lemma_lex_irreflexive(lt, a);
    }
    assert forall|a: Seq<T>, b: Seq<T>| a != b implies (#[trigger] lex(a, b) || lex(b, a)) by {
        lemma_lex_trichotomy(lt, a, b);
    }
    assert forall|a: Seq<T>, b: Seq<T>, c: Seq<T>|
        #[trigger] lex(a, b) && #[trigger] lex(b, c) implies lex(a, c) by {
        lemma_lex_transitive(lt, a, b, c);
    }
}

/// A common prefix does not change the order.
pub proof fn lemma_lex_skip<T>(lt: spec_fn(T, T) -> bool, a: Seq<T>, b: Seq<T>, n: int)
    requires
        0 <= n <= a.len(),
        n <= b.len(),
        a.take(n) == b.take(n),
    ensures
        lex_lt(lt, a, b) == lex_lt(lt, a.skip(n), b.skip(n)),
    decreases n,
{
    if n == 0 {
        assert(a.skip(0) =~= a);
        assert(b.skip(0) =~= b);
    } else {
        assert(a[0] == a.take(n)[0]);
        assert(b[0] == b.take(n)[0]);
        assert(a.drop_first().take(n - 1) =~= a.take(n).drop_first());
        assert(b.drop_first().take(n - 1) =~= b.take(n).drop_first());
        lemma_lex_skip(lt, a.drop_first(), b.drop_first(), n - 1);
        assert(a.drop_first().skip(n - 1) =~= a.skip(n));
        assert(b.drop_first().skip(n - 1) =~= b.skip(n));
    }
}

/// What starts with `p` comes at or after `p`, and before everything else that comes after `p`.
pub proof fn lemma_lex_prefix<T>(lt: spec_fn(T, T) -> bool, p: Seq<T>, y: Seq<T>, z: Seq<T>)
    requires
        total_order(lt),
        p.len() <= z.len(),
        z.take(p.len() as int) == p,
    ensures
        z == p || lex_lt(lt, p, z),
        lex_lt(lt, p, y) && !(p.len() <= y.len() && y.take(p.len() as int) == p) ==> lex_lt(
            lt,
            z,
            y,
        ),
    decreases p.len(),
{
    if p.len() == 0 {
        assert(y.take(0) =~= p);
        if z.len() == 0 {
            assert(z =~= p);
        }
    } else {
        assert(z[0] == z.take(p.len() as int)[0]);
        if y.len() > 0 && y[0] == p[0] {
            assert(z.drop_first().take(p.len() - 1) =~= z.take(p.len() as int).drop_first());
            lemma_lex_prefix(lt, p.drop_first(), y.drop_first(), z.drop_first());
            if p.len() <= y.len() && y.drop_first().take(p.len() - 1) == p.drop_first() {
                assert(y.take(p.len() as int) =~= p) by {
                    assert forall|i: int| 0 <= i < p.len() implies y.take(p.len() as int)[i] == p[i] by {
                        if i > 0 {
                            assert(y.drop_first().take(p.len() - 1)[i - 1] == p.drop_first()[i - 1]);
                        }
                    }
                }
            }
        } else {
            assert(z.drop_first().take(p.len() - 1) =~= z.take(p.len() as int).drop_first());
            lemma_lex_prefix(lt, p.drop_first(), y, z.drop_first());
        }
        if z.drop_first() == p.drop_first() {
            assert(z =~= seq![z[0]] + z.drop_first());
            assert(p =~= seq![p[0]] + p.drop_first());
        }
    }
}

/// Whether a list goes up, so that nothing is in it twice.
pub open spec fn ascending<T>(lt: spec_fn(T, T) -> bool, s: Seq<T>) -> bool {
    forall|i: int, j: int| 0 <= i < j < s.len() ==> lt(#[trigger] s[i], #[trigger] s[j])
}

/// A list that goes up has no other order that does.
pub proof fn lemma_ascending_unique<T>(lt: spec_fn(T, T) -> bool, a: Seq<T>, b: Seq<T>)
    requires
        total_order(lt),
        ascending(lt, a),
        ascending(lt, b),
        a.to_set() == b.to_set(),
    ensures
        a == b,
    decreases a.len(),
{
    if a.len() == 0 {
        if b.len() > 0 {
            assert(b.to_set().contains(b[0]));
            assert(a.to_set().contains(b[0]));
        }
        assert(a =~= b);
    } else {
        assert(a.to_set().contains(a.last()));
        assert(b.contains(a.last()));
        assert(b.to_set().contains(b.last()));
        assert(a.contains(b.last()));
        let i = choose|i: int| 0 <= i < a.len() && a[i] == b.last();
        let j = choose|j: int| 0 <= j < b.len() && b[j] == a.last();
        if i < a.len() - 1 && j < b.len() - 1 {
            assert(lt(a[i], a[a.len() - 1]));
            assert(lt(b[j], b[b.len() - 1]));
            assert(lt(a[i], a[i]));
        }
        assert(a.last() == b.last()) by {
            if i < a.len() - 1 {
                assert(j == b.len() - 1);
            }
        }
        let a1 = a.drop_last();
        let b1 = b.drop_last();
        assert forall|p: T| a1.to_set().contains(p) implies b1.to_set().contains(p) by {
            let k = choose|k: int| 0 <= k < a1.len() && a1[k] == p;
            assert(lt(a[k], a[a.len() - 1]));
            assert(a.to_set().contains(a[k]));
            let m = choose|m: int| 0 <= m < b.len() && b[m] == p;
            assert(m != b.len() - 1) by {
                if m == b.len() - 1 {
                    assert(lt(p, p));
                }
            }
            assert(b1[m] == p);
        }
        assert forall|p: T| b1.to_set().contains(p) implies a1.to_set().contains(p) by {
            let k = choose|k: int| 0 <= k < b1.len() && b1[k] == p;
            assert(lt(b[k], b[b.len() - 1]));
            assert(b.to_set().contains(b[k]));
            let m = choose|m: int| 0 <= m < a.len() && a[m] == p;
            assert(m != a.len() - 1) by {
                if m == a.len() - 1 {
                    assert(lt(p, p));
                }
            }
            assert(a1[m] == p);
        }
        assert(a1.to_set() =~= b1.to_set());
        lemma_ascending_unique(lt, a1, b1);
        assert(a =~= a1.push(a.last()));
        assert(b =~= b1.push(b.last()));
    }
}

} // verus!
