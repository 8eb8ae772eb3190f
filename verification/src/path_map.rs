//! A map keyed by paths, kept in their order: what lies below a path follows it.

use crate::order;
use crate::order::Side;
use crate::path;
use crate::path::PathBuf;
use vstd::prelude::*;

verus! {

/// Whether `paths` come in their order, each once.
pub open spec fn sorted(paths: Seq<Seq<Seq<u8>>>) -> bool {
    forall|i: int, j: int|
        0 <= i < j < paths.len() ==> path::path_before(#[trigger] paths[i], #[trigger] paths[j])
}

/// The paths of a finite set in their order.
pub open spec fn in_order(paths: Set<Seq<Seq<u8>>>) -> Seq<Seq<Seq<u8>>> {
    choose|s: Seq<Seq<Seq<u8>>>| sorted(s) && #[trigger] s.to_set() == paths
}

/// The paths of `paths` at and below `path`, in their order.
pub open spec fn at_and_below(paths: Set<Seq<Seq<u8>>>, path: Seq<Seq<u8>>) -> Seq<Seq<Seq<u8>>> {
    in_order(paths.filter(|p: Seq<Seq<u8>>| path::starts_with(p, path)))
}

/// What a list holds with one path more.
pub proof fn lemma_push_set(list: Seq<Seq<Seq<u8>>>, p: Seq<Seq<u8>>)
    ensures
        list.push(p).to_set() == list.to_set().insert(p),
{
    let more = list.push(p);
    assert forall|q: Seq<Seq<u8>>| #[trigger] more.to_set().contains(q) == list.to_set().insert(
        p,
    ).contains(q) by {
        if more.contains(q) {
            let i = choose|i: int| 0 <= i < more.len() && more[i] == q;
            if i < list.len() {
                assert(list[i] == q);
            }
        }
        if list.contains(q) {
            let i = choose|i: int| 0 <= i < list.len() && list[i] == q;
            assert(more[i] == q);
        }
        assert(more[list.len() as int] == p);
    }
    assert(more.to_set() =~= list.to_set().insert(p));
}

/// A sorted list has no other order.
pub proof fn lemma_sorted_unique(a: Seq<Seq<Seq<u8>>>, b: Seq<Seq<Seq<u8>>>)
    requires
        sorted(a),
        sorted(b),
        a.to_set() == b.to_set(),
    ensures
        a == b,
{
    path::path_order_is_total();
    order::lemma_ascending_unique(path::path_order(), a, b);
}

/// A sorted list is the order of its paths.
pub proof fn lemma_in_order(s: Seq<Seq<Seq<u8>>>)
    requires
        sorted(s),
    ensures
        in_order(s.to_set()) == s,
{
    assert(s.to_set() == s.to_set());
    let t = in_order(s.to_set());
    assert(sorted(t) && t.to_set() == s.to_set());
    lemma_sorted_unique(s, t);
}

/// A path has its place in a sorted list that has it not.
proof fn lemma_place(s: Seq<Seq<Seq<u8>>>, p: Seq<Seq<u8>>) -> (t: Seq<Seq<Seq<u8>>>)
    requires
        sorted(s),
        !s.contains(p),
    ensures
        sorted(t),
        t.to_set() == s.to_set().insert(p),
    decreases s.len(),
{
    path::path_order_is_total();
    let lt = path::path_order();
    if s.len() == 0 {
        let t = s.push(p);
        lemma_push_set(s, p);
        t
    } else {
        let last = s.last();
        let shorter = s.drop_last();
        assert(s[s.len() - 1] == last);
        if lt(last, p) {
            let t = s.push(p);
            lemma_push_set(s, p);
            assert forall|i: int, j: int| 0 <= i < j < t.len() implies path::path_before(
                #[trigger] t[i],
                #[trigger] t[j],
            ) by {
                if j == s.len() && i < s.len() - 1 {
                    assert(lt(s[i], s[s.len() - 1]));
                    assert(lt(s[i], p));
                }
            }
            t
        } else {
            assert(lt(p, last) || lt(last, p));
            assert(!shorter.contains(p)) by {
                if shorter.contains(p) {
                    let k = shorter.index_of(p);
                    assert(s[k] == p);
                }
            }
            assert(sorted(shorter));
            let before = lemma_place(shorter, p);
            let t = before.push(last);
            lemma_push_set(before, last);
            lemma_push_set(shorter, last);
            assert(s =~= shorter.push(last));
            assert forall|i: int, j: int| 0 <= i < j < t.len() implies path::path_before(
                #[trigger] t[i],
                #[trigger] t[j],
            ) by {
                if j == before.len() {
                    assert(before.to_set().contains(before[i]));
                    if before[i] != p {
                        assert(shorter.to_set().contains(before[i]));
                        let k = shorter.index_of(before[i]);
                        assert(lt(s[k], s[s.len() - 1]));
                    }
                }
            }
            assert(t.to_set() =~= s.to_set().insert(p));
            t
        }
    }
}

/// A finite set of paths has an order.
proof fn lemma_sortable(paths: Set<Seq<Seq<u8>>>) -> (s: Seq<Seq<Seq<u8>>>)
    requires
        paths.finite(),
    ensures
        sorted(s),
        s.to_set() == paths,
    decreases paths.len(),
{
    if paths.len() == 0 {
        let s = Seq::<Seq<Seq<u8>>>::empty();
        assert(s.to_set() =~= paths);
        s
    } else {
        let p = paths.choose();
        let before = lemma_sortable(paths.remove(p));
        assert(!before.contains(p)) by {
            if before.contains(p) {
                assert(before.to_set().contains(p));
            }
        }
        let s = lemma_place(before, p);
        assert(s.to_set() =~= paths);
        s
    }
}

/// All paths of a finite set are listed.
pub proof fn lemma_all_listed(paths: Set<Seq<Seq<u8>>>)
    requires
        paths.finite(),
    ensures
        in_order(paths).to_set() == paths,
{
    let s = lemma_sortable(paths);
    lemma_in_order(s);
}

/// The paths at and below `p` that are listed are those of the set.
pub proof fn lemma_listed(paths: Set<Seq<Seq<u8>>>, p: Seq<Seq<u8>>, q: Seq<Seq<u8>>)
    requires
        paths.finite(),
    ensures
        at_and_below(paths, p).contains(q) <==> paths.contains(q) && path::starts_with(q, p),
{
    let below = paths.filter(|r: Seq<Seq<u8>>| path::starts_with(r, p));
    let s = lemma_sortable(below);
    lemma_in_order(s);
    assert(s.to_set().contains(q) == below.contains(q));
}

/// The paths of a finite set are listed in their order.
pub proof fn lemma_order(paths: Set<Seq<Seq<u8>>>)
    requires
        paths.finite(),
    ensures
        sorted(in_order(paths)),
        in_order(paths).to_set() == paths,
{
    let s = lemma_sortable(paths);
    lemma_in_order(s);
}

/// The paths at and below `p` are listed in their order.
pub proof fn lemma_below_sorted(paths: Set<Seq<Seq<u8>>>, p: Seq<Seq<u8>>)
    requires
        paths.finite(),
    ensures
        sorted(at_and_below(paths, p)),
{
    let below = paths.filter(|r: Seq<Seq<u8>>| path::starts_with(r, p));
    let s = lemma_sortable(below);
    lemma_in_order(s);
}

/// A sorted list has each path once.
pub proof fn lemma_sorted_no_duplicates(s: Seq<Seq<Seq<u8>>>)
    requires
        sorted(s),
    ensures
        s.no_duplicates(),
{
    path::path_order_is_total();
    let lt = path::path_order();
    assert forall|i: int, j: int| 0 <= i < s.len() && 0 <= j < s.len() && i != j implies s[i]
        != s[j] by {
        if i < j {
            assert(lt(s[i], s[j]));
            assert(!lt(s[i], s[i]));
        } else {
            assert(lt(s[j], s[i]));
            assert(!lt(s[i], s[i]));
        }
    }
}

/// A map keyed by paths.
#[derive(Debug)]
pub struct PathMap<V> {
    entries: Vec<(PathBuf, V)>,
}

impl<V> View for PathMap<V> {
    type V = Map<Seq<Seq<u8>>, V>;

    closed spec fn view(&self) -> Map<Seq<Seq<u8>>, V> {
        Map::new(
            |p: Seq<Seq<u8>>| self.keys().contains(p),
            |p: Seq<Seq<u8>>| self.entries@[self.keys().index_of(p)].1,
        )
    }
}

impl<V> PathMap<V> {
    /// The keys in their order.
    pub closed spec fn keys(&self) -> Seq<Seq<Seq<u8>>> {
        Seq::new(self.entries@.len(), |i: int| self.entries@[i].0@)
    }

    pub closed spec fn value(&self, i: int) -> V {
        self.entries@[i].1
    }

    pub closed spec fn wf(&self) -> bool {
        sorted(self.keys())
    }

    /// What the map holds, by the positions of its keys.
    pub proof fn lemma_entries(&self)
        requires
            self.wf(),
        ensures
            sorted(self.keys()),
            self.keys().no_duplicates(),
            self@.dom() == self.keys().to_set(),
            self@.dom().finite(),
            self@.dom().len() == self.keys().len(),
            in_order(self@.dom()) == self.keys(),
            forall|i: int|
                0 <= i < self.keys().len() ==> self@.contains_key(#[trigger] self.keys()[i])
                    && self@[self.keys()[i]] == self.value(i),
            forall|p: Seq<Seq<u8>>| #[trigger]
                self@.contains_key(p) ==> exists|i: int|
                    0 <= i < self.keys().len() && self.keys()[i] == p,
    {
        lemma_sorted_no_duplicates(self.keys());
        assert(self@.dom() =~= self.keys().to_set());
        self.keys().unique_seq_to_set();
        lemma_in_order(self.keys());
        assert forall|i: int| 0 <= i < self.keys().len() implies self@.contains_key(
            #[trigger] self.keys()[i],
        ) && self@[self.keys()[i]] == self.value(i) by {
            assert(self.keys().contains(self.keys()[i]));
            let k = self.keys().index_of(self.keys()[i]);
            assert(self.keys()[k] == self.keys()[i]);
        }
    }

    /// The map is what its entries say.
    proof fn lemma_is(&self, m: Map<Seq<Seq<u8>>, V>)
        requires
            self.wf(),
            m.dom() == self.keys().to_set(),
            forall|i: int|
                0 <= i < self.keys().len() ==> m[#[trigger] self.keys()[i]] == self.value(i),
        ensures
            self@ == m,
    {
        self.lemma_entries();
        assert forall|p: Seq<Seq<u8>>| m.contains_key(p) implies self@[p] == m[p] by {
            let i = choose|i: int| 0 <= i < self.keys().len() && self.keys()[i] == p;
            assert(self@[self.keys()[i]] == self.value(i));
        }
        assert(self@ =~= m);
    }

    pub fn new() -> (map: Self)
        ensures
            map.wf(),
            map@ == Map::<Seq<Seq<u8>>, V>::empty(),
    {
        let map = PathMap { entries: Vec::new() };
        proof {
            assert(map.keys().to_set() =~= Set::empty());
            map.lemma_is(Map::empty());
        }
        map
    }

    pub fn len(&self) -> (n: usize)
        requires
            self.wf(),
        ensures
            n == self@.dom().len(),
            n == self.keys().len(),
    {
        proof {
            self.lemma_entries();
        }
        self.entries.len()
    }

    pub fn key_at(&self, i: usize) -> (path: &PathBuf)
        requires
            i < self.keys().len(),
        ensures
            path@ == self.keys()[i as int],
    {
        &self.entries[i].0
    }

    pub fn value_at(&self, i: usize) -> (value: &V)
        requires
            i < self.keys().len(),
        ensures
            *value == self.value(i as int),
    {
        &self.entries[i].1
    }

    /// Where the path of the first `n` components of `path` is, or belongs.
    fn position(&self, path: &PathBuf, n: usize) -> (r: (bool, usize))
        requires
            self.wf(),
            n <= path@.len(),
        ensures
            r.1 <= self.keys().len(),
            r.0 ==> r.1 < self.keys().len() && self.keys()[r.1 as int] == path@.take(n as int),
            !r.0 ==> !self@.contains_key(path@.take(n as int)),
            forall|j: int|
                0 <= j < r.1 ==> path::path_before(
                    #[trigger] self.keys()[j],
                    path@.take(n as int),
                ),
            forall|j: int|
                r.1 <= j < self.keys().len() && !(r.0 && j == r.1) ==> path::path_before(
                    path@.take(n as int),
                    #[trigger] self.keys()[j],
                ),
    {
        let ghost p = path@.take(n as int);
        let ghost lt = path::path_order();
        proof {
            path::path_order_is_total();
            self.lemma_entries();
        }
        let mut lo: usize = 0;
        let mut hi: usize = self.entries.len();
        while lo < hi
            invariant
                self.wf(),
                sorted(self.keys()),
                n <= path@.len(),
                p == path@.take(n as int),
                lt == path::path_order(),
                order::total_order(lt),
                lo <= hi <= self.keys().len(),
                self.keys().len() == self.entries@.len(),
                forall|j: int| 0 <= j < lo ==> lt(#[trigger] self.keys()[j], p),
                forall|j: int| hi <= j < self.keys().len() ==> lt(p, #[trigger] self.keys()[j]),
            decreases hi - lo,
        {
            let mid: usize = lo + (hi - lo) / 2;
            match path.compare_prefix(n, &self.entries[mid].0) {
                Side::Same => {
                    assert(self.keys()[mid as int] == p);
                    assert forall|j: int| 0 <= j < mid implies path::path_before(
                        #[trigger] self.keys()[j],
                        p,
                    ) by {
                        assert(path::path_before(self.keys()[j], self.keys()[mid as int]));
                    }
                    assert forall|j: int|
                        mid <= j < self.keys().len() && j != mid implies path::path_before(
                        p,
                        #[trigger] self.keys()[j],
                    ) by {
                        assert(path::path_before(self.keys()[mid as int], self.keys()[j]));
                    }
                    return (true, mid);
                },
                Side::Above => {
                    assert forall|j: int| 0 <= j < mid + 1 implies lt(
                        #[trigger] self.keys()[j],
                        p,
                    ) by {
                        if j < mid {
                            assert(lt(self.keys()[j], self.keys()[mid as int]));
                        }
                    }
                    lo = mid + 1;
                },
                Side::Below => {
                    assert forall|j: int| mid <= j < self.keys().len() implies lt(
                        p,
                        #[trigger] self.keys()[j],
                    ) by {
                        if j > mid {
                            assert(lt(self.keys()[mid as int], self.keys()[j]));
                        }
                    }
                    hi = mid;
                },
            }
        }
        assert(!self@.contains_key(p)) by {
            if self@.contains_key(p) {
                let i = choose|i: int| 0 <= i < self.keys().len() && self.keys()[i] == p;
                assert(lt(p, p));
            }
        }
        (false, lo)
    }

    /// The value at the path of the first `n` components of `path`.
    pub fn get_prefix(&self, path: &PathBuf, n: usize) -> (r: Option<&V>)
        requires
            self.wf(),
            n <= path@.len(),
        ensures
            (match r {
                Some(v) => self@.contains_key(path@.take(n as int)) && *v
                    == self@[path@.take(n as int)],
                None => !self@.contains_key(path@.take(n as int)),
            }),
    {
        let (found, i) = self.position(path, n);
        proof {
            self.lemma_entries();
        }
        if found {
            Some(&self.entries[i].1)
        } else {
            None
        }
    }

    pub fn get(&self, path: &PathBuf) -> (r: Option<&V>)
        requires
            self.wf(),
        ensures
            (match r {
                Some(v) => self@.contains_key(path@) && *v == self@[path@],
                None => !self@.contains_key(path@),
            }),
    {
        assert(path@.take(path@.len() as int) =~= path@);
        self.get_prefix(path, path.len())
    }

    pub fn contains_prefix(&self, path: &PathBuf, n: usize) -> (r: bool)
        requires
            self.wf(),
            n <= path@.len(),
        ensures
            r == self@.contains_key(path@.take(n as int)),
    {
        let (found, i) = self.position(path, n);
        proof {
            self.lemma_entries();
        }
        found
    }

    pub fn contains(&self, path: &PathBuf) -> (r: bool)
        requires
            self.wf(),
        ensures
            r == self@.contains_key(path@),
    {
        assert(path@.take(path@.len() as int) =~= path@);
        self.contains_prefix(path, path.len())
    }

    pub fn insert(&mut self, path: PathBuf, value: V) -> (previous: Option<V>)
        requires
            old(self).wf(),
        ensures
            final(self).wf(),
            final(self)@ == old(self)@.insert(path@, value),
            (match previous {
                Some(v) => old(self)@.contains_key(path@) && v == old(self)@[path@],
                None => !old(self)@.contains_key(path@),
            }),
    {
        let ghost p = path@;
        let ghost before = *self;
        assert(path@.take(path@.len() as int) =~= path@);
        let (found, i) = self.position(&path, path.len());
        proof {
            self.lemma_entries();
        }
        if found {
            let (key, old_value) = self.entries.remove(i);
            self.entries.insert(i, (key, value));
            proof {
                assert(self.keys() =~= before.keys());
                assert(before@.insert(p, value).dom() =~= self.keys().to_set());
                assert forall|j: int| 0 <= j < self.keys().len() implies before@.insert(
                    p,
                    value,
                )[#[trigger] self.keys()[j]] == self.value(j) by {
                    assert(before@[before.keys()[j]] == before.value(j));
                }
                self.lemma_is(before@.insert(p, value));
            }
            Some(old_value)
        } else {
            self.entries.insert(i, (path, value));
            proof {
                assert(self.keys() =~= before.keys().insert(i as int, p));
                assert(self.wf());
                assert forall|q: Seq<Seq<u8>>| self.keys().to_set().contains(q) == (
                before.keys().to_set().contains(q) || q == p) by {
                    if before.keys().contains(q) {
                        let j = choose|j: int| 0 <= j < before.keys().len() && before.keys()[j] == q;
                        assert(self.keys()[if j < i { j } else { j + 1 }] == q);
                    }
                    if q == p {
                        assert(self.keys()[i as int] == p);
                    }
                    if self.keys().contains(q) && q != p {
                        let j = choose|j: int| 0 <= j < self.keys().len() && self.keys()[j] == q;
                        assert(before.keys()[if j < i { j } else { j - 1 }] == q);
                    }
                }
                assert(before@.insert(p, value).dom() =~= self.keys().to_set());
                assert forall|j: int| 0 <= j < self.keys().len() implies before@.insert(
                    p,
                    value,
                )[#[trigger] self.keys()[j]] == self.value(j) by {
                    if j < i {
                        assert(before@[before.keys()[j]] == before.value(j));
                    } else if j > i {
                        assert(before@[before.keys()[j - 1]] == before.value(j - 1));
                    }
                }
                self.lemma_is(before@.insert(p, value));
            }
            None
        }
    }

    /// Removes the path of the first `n` components of `path`.
    pub fn remove_prefix(&mut self, path: &PathBuf, n: usize) -> (previous: Option<V>)
        requires
            old(self).wf(),
            n <= path@.len(),
        ensures
            final(self).wf(),
            final(self)@ == old(self)@.remove(path@.take(n as int)),
            (match previous {
                Some(v) => old(self)@.contains_key(path@.take(n as int)) && v
                    == old(self)@[path@.take(n as int)],
                None => !old(self)@.contains_key(path@.take(n as int)),
            }),
    {
        let ghost p = path@.take(n as int);
        let ghost before = *self;
        let (found, i) = self.position(path, n);
        proof {
            self.lemma_entries();
        }
        if !found {
            assert(self@.remove(p) =~= self@);
            return None;
        }
        let (_, value) = self.entries.remove(i);
        proof {
            assert(self.keys() =~= before.keys().remove(i as int));
            assert(self.wf());
            assert forall|q: Seq<Seq<u8>>| self.keys().to_set().contains(q) == (
            before.keys().to_set().contains(q) && q != p) by {
                if before.keys().contains(q) && q != p {
                    let j = choose|j: int| 0 <= j < before.keys().len() && before.keys()[j] == q;
                    assert(self.keys()[if j < i { j } else { j - 1 }] == q);
                }
                if self.keys().contains(q) {
                    let j = choose|j: int| 0 <= j < self.keys().len() && self.keys()[j] == q;
                    assert(before.keys()[if j < i { j } else { j + 1 }] == q);
                }
            }
            assert(before@.remove(p).dom() =~= self.keys().to_set());
            assert forall|j: int| 0 <= j < self.keys().len() implies before@.remove(
                p,
            )[#[trigger] self.keys()[j]] == self.value(j) by {
                if j < i {
                    assert(before@[before.keys()[j]] == before.value(j));
                } else {
                    assert(before@[before.keys()[j + 1]] == before.value(j + 1));
                }
            }
            self.lemma_is(before@.remove(p));
        }
        Some(value)
    }

    pub fn remove(&mut self, path: &PathBuf) -> (previous: Option<V>)
        requires
            old(self).wf(),
        ensures
            final(self).wf(),
            final(self)@ == old(self)@.remove(path@),
            (match previous {
                Some(v) => old(self)@.contains_key(path@) && v == old(self)@[path@],
                None => !old(self)@.contains_key(path@),
            }),
    {
        assert(path@.take(path@.len() as int) =~= path@);
        self.remove_prefix(path, path.len())
    }

    pub fn clear(&mut self)
        ensures
            final(self).wf(),
            final(self)@ == Map::<Seq<Seq<u8>>, V>::empty(),
    {
        self.entries.clear();
        proof {
            assert(self.keys().to_set() =~= Set::empty());
            self.lemma_is(Map::empty());
        }
    }

    /// The keys at and below `path`, in their order: where they start and where they end.
    pub fn below(&self, path: &PathBuf) -> (r: (usize, usize))
        requires
            self.wf(),
        ensures
            r.0 <= r.1 <= self.keys().len(),
            forall|i: int|
                0 <= i < self.keys().len() ==> (path::starts_with(
                    #[trigger] self.keys()[i],
                    path@,
                ) <==> r.0 <= i < r.1),
            self.keys().subrange(r.0 as int, r.1 as int) == at_and_below(self@.dom(), path@),
    {
        let ghost p = path@;
        let ghost lt = path::path_order();
        assert(path@.take(path@.len() as int) =~= path@);
        let (found, start) = self.position(path, path.len());
        proof {
            path::path_order_is_total();
            self.lemma_entries();
            assert forall|i: int| 0 <= i < start implies !path::starts_with(
                #[trigger] self.keys()[i],
                p,
            ) by {
                assert(lt(self.keys()[i], p));
                if path::starts_with(self.keys()[i], p) {
                    path::below_is_contiguous(p, p, self.keys()[i]);
                    assert(lt(p, self.keys()[i]));
                    assert(lt(p, p));
                }
            }
        }
        let mut end: usize = start;
        while end < self.entries.len()
            invariant_except_break
                forall|i: int|
                    start <= i < end ==> path::starts_with(#[trigger] self.keys()[i], p),
            invariant
                self.wf(),
                p == path@,
                start <= end <= self.keys().len(),
                self.keys().len() == self.entries@.len(),
                sorted(self.keys()),
                lt == path::path_order(),
                order::total_order(lt),
                found ==> self.keys()[start as int] == p,
                forall|j: int|
                    start <= j < self.keys().len() && !(found && j == start) ==> lt(
                        p,
                        #[trigger] self.keys()[j],
                    ),
            ensures
                forall|i: int|
                    start <= i < end ==> path::starts_with(#[trigger] self.keys()[i], p),
                forall|i: int|
                    end <= i < self.keys().len() ==> !path::starts_with(
                        #[trigger] self.keys()[i],
                        p,
                    ),
            decreases self.entries.len() - end,
        {
            if !self.entries[end].0.starts_with(path) {
                proof {
                    let y = self.keys()[end as int];
                    assert(!path::starts_with(y, p));
                    assert(y != p) by {
                        assert(p.take(p.len() as int) =~= p);
                    }
                    assert(lt(p, y));
                    assert forall|i: int| end <= i < self.keys().len() implies !path::starts_with(
                        #[trigger] self.keys()[i],
                        p,
                    ) by {
                        if path::starts_with(self.keys()[i], p) {
                            path::below_is_contiguous(p, y, self.keys()[i]);
                            assert(lt(self.keys()[i], y));
                            if i > end {
                                assert(lt(y, self.keys()[i]));
                            }
                            assert(lt(y, y));
                        }
                    }
                }
                break;
            }
            end = end + 1;
        }
        proof {
            let s = self.keys().subrange(start as int, end as int);
            let set = self@.dom().filter(|q: Seq<Seq<u8>>| path::starts_with(q, p));
            assert(sorted(s));
            assert(s.to_set() =~= set) by {
                assert forall|q: Seq<Seq<u8>>| set.contains(q) implies s.to_set().contains(q) by {
                    let i = choose|i: int| 0 <= i < self.keys().len() && self.keys()[i] == q;
                    assert(path::starts_with(self.keys()[i], p));
                    assert(s[i - start] == q);
                }
                assert forall|q: Seq<Seq<u8>>| s.to_set().contains(q) implies set.contains(q) by {
                    let i = choose|i: int| 0 <= i < s.len() && s[i] == q;
                    assert(self.keys()[i + start] == q);
                }
            }
            lemma_in_order(s);
        }
        (start, end)
    }

    /// The keys at and below `path`, in their order.
    pub fn keys_below(&self, path: &PathBuf) -> (paths: Vec<PathBuf>)
        requires
            self.wf(),
        ensures
            path::views(paths@) == at_and_below(self@.dom(), path@),
            forall|i: int|
                0 <= i < paths@.len() ==> self@.contains_key((#[trigger] paths@[i])@)
                    && path::starts_with(paths@[i]@, path@),
            forall|p: Seq<Seq<u8>>| #[trigger]
                self@.contains_key(p) && path::starts_with(p, path@) ==> exists|i: int|
                    0 <= i < paths@.len() && (#[trigger] paths@[i])@ == p,
    {
        let (start, end) = self.below(path);
        let mut paths: Vec<PathBuf> = Vec::new();
        let mut i: usize = start;
        while i < end
            invariant
                self.wf(),
                start <= i <= end <= self.keys().len(),
                self.keys().len() == self.entries@.len(),
                path::views(paths@) == self.keys().subrange(start as int, i as int),
            decreases end - i,
        {
            let ghost before = paths@;
            paths.push(self.entries[i].0.clone());
            proof {
                path::lemma_views_push(before, paths@.last());
                assert(self.keys().subrange(start as int, i + 1) =~= self.keys().subrange(
                    start as int,
                    i as int,
                ).push(self.keys()[i as int]));
            }
            i = i + 1;
        }
        proof {
            self.lemma_entries();
            let keys = self.keys();
            assert forall|i: int| 0 <= i < paths@.len() implies self@.contains_key(
                (#[trigger] paths@[i])@,
            ) && path::starts_with(paths@[i]@, path@) by {
                assert(path::views(paths@)[i] == paths@[i]@);
                assert(keys[start + i] == paths@[i]@);
                assert(path::starts_with(keys[start + i], path@));
            }
            assert forall|p: Seq<Seq<u8>>| #[trigger]
                self@.contains_key(p) && path::starts_with(p, path@) implies exists|i: int|
                0 <= i < paths@.len() && (#[trigger] paths@[i])@ == p by {
                let k = choose|k: int| 0 <= k < keys.len() && keys[k] == p;
                assert(path::starts_with(keys[k], path@));
                assert(path::views(paths@)[k - start] == paths@[k - start]@);
            }
        }
        paths
    }

    /// Removes the keys at and below `path`.
    pub fn remove_below(&mut self, path: &PathBuf)
        requires
            old(self).wf(),
        ensures
            final(self).wf(),
            final(self)@ == old(self)@.restrict(
                Set::new(|p: Seq<Seq<u8>>| !path::starts_with(p, path@)),
            ),
    {
        let ghost before = *self;
        let ghost outside = Set::new(|p: Seq<Seq<u8>>| !path::starts_with(p, path@));
        let (start, end) = self.below(path);
        proof {
            self.lemma_entries();
        }
        let mut after = self.entries.split_off(end);
        self.entries.truncate(start);
        self.entries.append(&mut after);
        let ghost gap = end - start;
        proof {
            let keys = before.keys();
            assert forall|i: int| 0 <= i < self.keys().len() implies #[trigger] self.keys()[i]
                == keys[if i < start { i } else { i + gap }] by {}
            assert(sorted(self.keys()));
            let m = before@.restrict(outside);
            assert forall|p: Seq<Seq<u8>>| #[trigger] m.dom().contains(p)
                == self.keys().to_set().contains(p) by {
                if m.dom().contains(p) {
                    let k = choose|k: int| 0 <= k < keys.len() && keys[k] == p;
                    assert(!path::starts_with(keys[k], path@));
                    assert(self.keys()[if k < start { k } else { k - gap }] == p);
                }
                if self.keys().contains(p) {
                    let i = choose|i: int| 0 <= i < self.keys().len() && self.keys()[i] == p;
                    assert(keys[if i < start { i } else { i + gap }] == p);
                }
            }
            assert(m.dom() =~= self.keys().to_set());
            assert forall|i: int| 0 <= i < self.keys().len() implies m[#[trigger] self.keys()[i]]
                == self.value(i) by {
                let k = if i < start { i } else { i + gap };
                assert(before@[keys[k]] == before.value(k));
                assert(m.dom().contains(self.keys()[i])) by {
                    assert(self.keys().contains(self.keys()[i]));
                }
            }
            self.lemma_is(m);
        }
    }
}

impl<V: Copy> PathMap<V> {
    /// A copy of what the map holds at and below `path`.
    pub fn copy_below(&self, path: &PathBuf) -> (copy: PathMap<V>)
        requires
            self.wf(),
        ensures
            copy.wf(),
            copy@ == self@.restrict(Set::new(|p: Seq<Seq<u8>>| path::starts_with(p, path@))),
    {
        let ghost inside = Set::new(|p: Seq<Seq<u8>>| path::starts_with(p, path@));
        let (start, end) = self.below(path);
        proof {
            self.lemma_entries();
        }
        let mut entries: Vec<(PathBuf, V)> = Vec::new();
        let mut i: usize = start;
        while i < end
            invariant
                start <= i <= end <= self.entries@.len(),
                entries@.len() == i - start,
                forall|k: int|
                    0 <= k < entries@.len() ==> (#[trigger] entries@[k]).0@ == self.keys()[start
                        + k] && entries@[k].1 == self.value(start + k),
            decreases end - i,
        {
            entries.push((self.entries[i].0.clone(), self.entries[i].1));
            i = i + 1;
        }
        let copy = PathMap { entries };
        proof {
            let keys = self.keys();
            assert forall|k: int| 0 <= k < copy.keys().len() implies #[trigger] copy.keys()[k]
                == keys[start + k] by {}
            assert(sorted(copy.keys()));
            let m = self@.restrict(inside);
            assert forall|p: Seq<Seq<u8>>| #[trigger] m.dom().contains(p)
                == copy.keys().to_set().contains(p) by {
                if m.dom().contains(p) {
                    let k = choose|k: int| 0 <= k < keys.len() && keys[k] == p;
                    assert(path::starts_with(keys[k], path@));
                    assert(copy.keys()[k - start] == p);
                }
                if copy.keys().contains(p) {
                    let k = choose|k: int| 0 <= k < copy.keys().len() && copy.keys()[k] == p;
                    assert(path::starts_with(keys[start + k], path@));
                }
            }
            assert(m.dom() =~= copy.keys().to_set());
            assert forall|k: int| 0 <= k < copy.keys().len() implies m[#[trigger] copy.keys()[k]]
                == copy.value(k) by {
                assert(self@[keys[start + k]] == self.value(start + k));
                assert(m.dom().contains(copy.keys()[k])) by {
                    assert(copy.keys().contains(copy.keys()[k]));
                }
            }
            copy.lemma_is(m);
        }
        copy
    }
}

} // verus!
