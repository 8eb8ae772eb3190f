//! A tree of paths, some of which hold a value.

use crate::order;
use crate::order::Side;
use crate::path;
use crate::path::PathBuf;
use vstd::prelude::*;

verus! {

/// What a tree holds: its nodes, and the values of those that have one.
#[verifier::ext_equal]
pub struct TrieView<T> {
    pub nodes: Set<Seq<Seq<u8>>>,
    pub values: Map<Seq<Seq<u8>>, T>,
}

impl<T> TrieView<T> {
    /// A node alone.
    pub open spec fn leaf(value: Option<T>) -> TrieView<T> {
        TrieView {
            nodes: set![Seq::empty()],
            values: match value {
                Some(value) => map![Seq::<Seq<u8>>::empty() => value],
                None => Map::empty(),
            },
        }
    }

    /// The tree below the node `p`.
    pub open spec fn at(self, p: Seq<Seq<u8>>) -> TrieView<T> {
        TrieView {
            nodes: Set::new(|q: Seq<Seq<u8>>| self.nodes.contains(p + q)),
            values: Map::new(
                |q: Seq<Seq<u8>>| self.values.contains_key(p + q),
                |q: Seq<Seq<u8>>| self.values[p + q],
            ),
        }
    }

    /// The tree with a value at its root.
    pub open spec fn with_value(self, value: T) -> TrieView<T> {
        TrieView {
            nodes: self.nodes.insert(Seq::empty()),
            values: self.values.insert(Seq::empty(), value),
        }
    }

    /// The tree with the nodes that lead to `p`.
    pub open spec fn planted(self, p: Seq<Seq<u8>>) -> TrieView<T> {
        TrieView {
            nodes: Set::new(
                |q: Seq<Seq<u8>>| self.nodes.contains(q) || path::starts_with(p, q),
            ),
            values: self.values,
        }
    }

    /// The tree with `sub` in place of what is at and below `p`.
    pub open spec fn graft(self, p: Seq<Seq<u8>>, sub: TrieView<T>) -> TrieView<T> {
        TrieView {
            nodes: Set::new(
                |q: Seq<Seq<u8>>|
                    if path::starts_with(q, p) {
                        sub.nodes.contains(q.skip(p.len() as int))
                    } else {
                        self.nodes.contains(q)
                    },
            ),
            values: Map::new(
                |q: Seq<Seq<u8>>|
                    if path::starts_with(q, p) {
                        sub.values.contains_key(q.skip(p.len() as int))
                    } else {
                        self.values.contains_key(q)
                    },
                |q: Seq<Seq<u8>>|
                    if path::starts_with(q, p) {
                        sub.values[q.skip(p.len() as int)]
                    } else {
                        self.values[q]
                    },
            ),
        }
    }
}

#[derive(Debug)]
pub struct PathTrieNode<T> {
    // sorted by name
    children: Vec<(Vec<u8>, PathTrieNode<T>)>,
    value: Option<T>,
}

impl<T> PathTrieNode<T> {
    pub closed spec fn wf(self) -> bool
        decreases self,
    {
        &&& forall|i: int, j: int|
            0 <= i < j < self.children@.len() ==> path::name_before(
                #[trigger] self.children@[i].0@,
                #[trigger] self.children@[j].0@,
            )
        &&& forall|i: int| 0 <= i < self.children@.len() ==> (#[trigger] self.children@[i]).1.wf()
    }

    /// Where the child `key` is.
    spec fn index_of(self, key: Seq<u8>) -> Option<int> {
        if exists|i: int| 0 <= i < self.children@.len() && #[trigger] self.children@[i].0@ == key {
            Some(
                choose|i: int|
                    0 <= i < self.children@.len() && #[trigger] self.children@[i].0@ == key,
            )
        } else {
            None
        }
    }

    /// The node at `p`, from this one.
    pub closed spec fn node(self, p: Seq<Seq<u8>>) -> Option<PathTrieNode<T>>
        decreases p.len(),
    {
        if p.len() == 0 {
            Some(self)
        } else {
            match self.index_of(p[0]) {
                Some(i) => self.children@[i].1.node(p.drop_first()),
                None => None,
            }
        }
    }

    pub closed spec fn has_value(self, p: Seq<Seq<u8>>) -> bool {
        self.node(p) matches Some(node) && node.value is Some
    }
}

impl<T> View for PathTrieNode<T> {
    type V = TrieView<T>;

    closed spec fn view(&self) -> TrieView<T> {
        TrieView {
            nodes: Set::new(|p: Seq<Seq<u8>>| self.node(p) is Some),
            values: Map::new(
                |p: Seq<Seq<u8>>| self.has_value(p),
                |p: Seq<Seq<u8>>| self.node(p)->0.value->0,
            ),
        }
    }
}

impl<T> PathTrieNode<T> {
    proof fn lemma_index(self, i: int)
        requires
            self.wf(),
            0 <= i < self.children@.len(),
        ensures
            self.index_of(self.children@[i].0@) == Some(i),
    {
        path::name_order_is_total();
        let f = |a: Seq<u8>, b: Seq<u8>| path::name_before(a, b);
        let key = self.children@[i].0@;
        let j = choose|j: int|
            0 <= j < self.children@.len() && #[trigger] self.children@[j].0@ == key;
        assert(!f(key, key));
        if j < i {
            assert(f(self.children@[j].0@, self.children@[i].0@));
        } else if i < j {
            assert(f(self.children@[i].0@, self.children@[j].0@));
        }
    }

    /// Returns where the child `key` is, or where it belongs.
    pub fn get_child_index(&self, key: &Vec<u8>) -> (r: Result<usize, usize>)
        requires
            self.wf(),
        ensures
            (match r {
                Ok(i) => i < self.child_keys().len() && self.child_keys()[i as int] == key@,
                Err(i) => {
                    &&& i <= self.child_keys().len()
                    &&& forall|j: int|
                        0 <= j < i ==> path::name_before(#[trigger] self.child_keys()[j], key@)
                    &&& forall|j: int|
                        i <= j < self.child_keys().len() ==> path::name_before(
                            key@,
                            #[trigger] self.child_keys()[j],
                        )
                },
            }),
    {
        let mut low: usize = 0;
        let mut high: usize = self.children.len();
        proof {
            path::name_order_is_total();
        }
        let ghost f = |a: Seq<u8>, b: Seq<u8>| path::name_before(a, b);
        while low < high
            invariant
                self.wf(),
                order::total_order(f),
                f == (|a: Seq<u8>, b: Seq<u8>| path::name_before(a, b)),
                low <= high <= self.children@.len(),
                forall|j: int|
                    0 <= j < low ==> path::name_before(#[trigger] self.child_keys()[j], key@),
                forall|j: int|
                    high <= j < self.children@.len() ==> path::name_before(
                        key@,
                        #[trigger] self.child_keys()[j],
                    ),
            decreases high - low,
        {
            let middle: usize = low + (high - low) / 2;
            let ghost here = self.child_keys()[middle as int];
            assert(here == self.children@[middle as int].0@);
            match path::compare_names(&self.children[middle].0, key) {
                Side::Same => {
                    return Ok(middle);
                },
                Side::Below => {
                    assert forall|j: int| 0 <= j < middle + 1 implies path::name_before(
                        #[trigger] self.child_keys()[j],
                        key@,
                    ) by {
                        assert(self.child_keys()[j] == self.children@[j].0@);
                        if j < middle {
                            assert(path::name_before(self.children@[j].0@, here));
                            assert(f(self.child_keys()[j], here) && f(here, key@));
                        }
                    }
                    low = middle + 1;
                },
                Side::Above => {
                    assert forall|j: int| middle <= j < self.children@.len() implies path::name_before(
                        key@,
                        #[trigger] self.child_keys()[j],
                    ) by {
                        assert(self.child_keys()[j] == self.children@[j].0@);
                        if middle < j {
                            assert(path::name_before(here, self.children@[j].0@));
                            assert(f(key@, here) && f(here, self.child_keys()[j]));
                        }
                    }
                    high = middle;
                },
            }
        }
        Err(low)
    }

    /// The names of the children, in their order.
    pub closed spec fn child_keys(self) -> Seq<Seq<u8>> {
        Seq::new(self.children@.len(), |i: int| self.children@[i].0@)
    }
}

proof fn lemma_graft_graft<T>(
    t: TrieView<T>,
    first: Seq<u8>,
    rest: Seq<Seq<u8>>,
    sub: TrieView<T>,
)
    ensures
        t.graft(seq![first], t.at(seq![first]).graft(rest, sub)) == t.graft(
            seq![first] + rest,
            sub,
        ),
{
    let p = seq![first] + rest;
    let a = t.graft(seq![first], t.at(seq![first]).graft(rest, sub));
    let b = t.graft(p, sub);
    assert forall|q: Seq<Seq<u8>>|
        #![trigger a.nodes.contains(q)]
        #![trigger a.values.dom().contains(q)]
        {
            &&& a.nodes.contains(q) == b.nodes.contains(q)
            &&& a.values.contains_key(q) == b.values.contains_key(q)
            &&& a.values.contains_key(q) ==> a.values[q] == b.values[q]
        } by {
        if path::starts_with(q, seq![first]) {
            let r = q.skip(1);
            assert(q =~= seq![first] + r) by {
                assert(q.take(1)[0] == first);
            }
            if path::starts_with(r, rest) {
                assert(q.take(p.len() as int) =~= seq![first] + r.take(rest.len() as int));
                assert(path::starts_with(q, p));
                assert(r.skip(rest.len() as int) =~= q.skip(p.len() as int));
            } else {
                if path::starts_with(q, p) {
                    assert(r.take(rest.len() as int) =~= q.take(p.len() as int).skip(1));
                    assert(p.skip(1) =~= rest);
                    assert(false);
                }
            }
        } else {
            if path::starts_with(q, p) {
                assert(q.take(1) =~= q.take(p.len() as int).take(1));
                assert(p.take(1) =~= seq![first]);
                assert(false);
            }
        }
    }
    assert(a.nodes =~= b.nodes);
    assert(a.values =~= b.values);
}

proof fn lemma_at_at<T>(t: TrieView<T>, first: Seq<u8>, rest: Seq<Seq<u8>>)
    ensures
        t.at(seq![first]).at(rest) == t.at(seq![first] + rest),
        t.at(seq![first]).nodes.contains(rest) == t.nodes.contains(seq![first] + rest),
        t.graft(seq![first], t.at(seq![first])) == t,
{
    let a = t.at(seq![first]).at(rest);
    let b = t.at(seq![first] + rest);
    assert forall|q: Seq<Seq<u8>>| #[trigger] (seq![first] + (rest + q)) == seq![first] + rest
        + q by {
        assert(seq![first] + (rest + q) =~= seq![first] + rest + q);
    }
    assert(a.nodes =~= b.nodes);
    assert(a.values =~= b.values);
    let c = t.graft(seq![first], t.at(seq![first]));
    assert forall|q: Seq<Seq<u8>>|
        #![trigger c.nodes.contains(q)]
        #![trigger c.values.dom().contains(q)]
        {
            &&& c.nodes.contains(q) == t.nodes.contains(q)
            &&& c.values.contains_key(q) == t.values.contains_key(q)
            &&& c.values.contains_key(q) ==> c.values[q] == t.values[q]
        } by {
        if path::starts_with(q, seq![first]) {
            assert(q.take(1)[0] == first);
            assert(q =~= seq![first] + q.skip(1));
        }
    }
    assert(c.nodes =~= t.nodes);
    assert(c.values =~= t.values);
}

proof fn lemma_graft_all<T>(t: TrieView<T>, sub: TrieView<T>)
    ensures
        t.graft(Seq::empty(), sub) == sub,
        t.at(Seq::empty()) == t,
{
    let a = t.graft(Seq::empty(), sub);
    assert forall|q: Seq<Seq<u8>>| #![trigger a.nodes.contains(q)] #![trigger a.values.contains_key(q)]
        path::starts_with(q, Seq::empty()) && q.skip(0) == q && Seq::<Seq<u8>>::empty() + q == q by {
        assert(q.take(0) =~= Seq::empty());
        assert(q.skip(0) =~= q);
        assert(Seq::<Seq<u8>>::empty() + q =~= q);
    }
    assert(a.nodes =~= sub.nodes);
    assert(a.values =~= sub.values);
    let b = t.at(Seq::empty());
    assert forall|q: Seq<Seq<u8>>| Seq::<Seq<u8>>::empty() + q == q by {
        assert(Seq::<Seq<u8>>::empty() + q =~= q);
    }
    assert(b.nodes =~= t.nodes);
    assert(b.values =~= t.values);
}

impl<T> PathTrieNode<T> {
    /// The tree below a child is the tree of the child.
    proof fn lemma_child(self, i: int)
        requires
            self.wf(),
            0 <= i < self.children@.len(),
        ensures
            self@.at(seq![self.children@[i].0@]) == self.children@[i].1@,
            self.children@[i].1.wf(),
    {
        let key = self.children@[i].0@;
        let child = self.children@[i].1;
        self.lemma_index(i);
        assert forall|q: Seq<Seq<u8>>| #[trigger] self.node(seq![key] + q) == child.node(q) by {
            assert((seq![key] + q).drop_first() =~= q);
            assert((seq![key] + q)[0] == key);
        }
        assert(self@.at(seq![key]).nodes =~= child@.nodes);
        assert(self@.at(seq![key]).values =~= child@.values);
    }

    /// There is no child `key` when all of them come before or after it.
    proof fn lemma_absent(self, key: Seq<u8>, i: int)
        requires
            self.wf(),
            0 <= i <= self.children@.len(),
            forall|j: int| 0 <= j < i ==> path::name_before(#[trigger] self.child_keys()[j], key),
            forall|j: int|
                i <= j < self.children@.len() ==> path::name_before(
                    key,
                    #[trigger] self.child_keys()[j],
                ),
        ensures
            self.index_of(key) is None,
    {
        path::name_order_is_total();
        let f = |a: Seq<u8>, b: Seq<u8>| path::name_before(a, b);
        assert(!f(key, key));
        if let Some(j) = self.index_of(key) {
            assert(self.child_keys()[j] == key);
        }
    }

    /// A child is replaced by another tree.
    proof fn lemma_replaced(self, new: Self, i: int, child: PathTrieNode<T>)
        requires
            self.wf(),
            0 <= i < self.children@.len(),
            new.value == self.value,
            new.children@ == self.children@.update(i, (self.children@[i].0, child)),
            child.wf(),
        ensures
            new.wf(),
            new@ == self@.graft(seq![self.children@[i].0@], child@),
    {
        let key = self.children@[i].0@;
        assert forall|j: int| 0 <= j < new.children@.len() implies #[trigger] new.children@[j].0@
            == self.children@[j].0@ by {}
        assert(new.wf());
        let grafted = self@.graft(seq![key], child@);
        assert forall|q: Seq<Seq<u8>>|
            #![trigger new@.nodes.contains(q)]
            #![trigger new@.values.dom().contains(q)]
            {
                &&& new@.nodes.contains(q) == grafted.nodes.contains(q)
                &&& new@.values.contains_key(q) == grafted.values.contains_key(q)
                &&& new@.values.contains_key(q) ==> new@.values[q] == grafted.values[q]
            } by {
            if q.len() > 0 {
                assert(q.take(1) =~= seq![q[0]]);
                assert(seq![key][0] == key);
                assert(q.skip(1) =~= q.drop_first());
                if q[0] == key {
                    new.lemma_index(i);
                    assert(path::starts_with(q, seq![key]));
                    assert(new.node(q) == child.node(q.drop_first()));
                } else {
                    assert(!path::starts_with(q, seq![key]));
                    if let Some(j) = self.index_of(q[0]) {
                        self.lemma_index(j);
                        new.lemma_index(j);
                        assert(new.children@[j].0@ == q[0]);
                    } else if let Some(j) = new.index_of(q[0]) {
                        assert(self.children@[j].0@ == q[0]);
                    }
                    assert(new.node(q) == self.node(q));
                }
            } else {
                assert(!path::starts_with(q, seq![key]));
                assert(new.node(q) == Some(new));
                assert(self.node(q) == Some(self));
            }
        }
        assert(new@.nodes =~= grafted.nodes);
        assert(new@.values =~= grafted.values);
    }

    /// The node at the components of `path` from `from` on.
    fn descend_mut(&mut self, path: &PathBuf, from: usize) -> (r: Option<&mut PathTrieNode<T>>)
        requires
            old(self).wf(),
            from <= path@.len(),
        ensures
            (match r {
                Some(node) => {
                    &&& old(self)@.nodes.contains(path@.skip(from as int))
                    &&& node.wf()
                    &&& node@ == old(self)@.at(path@.skip(from as int))
                    &&& final(node).wf() ==> final(self).wf() && final(self)@ == old(self)@.graft(
                        path@.skip(from as int),
                        final(node)@,
                    )
                },
                None => {
                    &&& !old(self)@.nodes.contains(path@.skip(from as int))
                    &&& final(self).wf()
                    &&& final(self)@ == old(self)@
                },
            }),
        decreases path@.len() - from,
    {
        let ghost p = path@.skip(from as int);
        if from == path.len() {
            proof {
                assert(p =~= Seq::empty());
                lemma_graft_all(self@, self@);
                assert forall|sub: TrieView<T>| self@.graft(p, sub) == sub by {
                    lemma_graft_all(self@, sub);
                }
            }
            return Some(self);
        }
        let ghost before = *self;
        assert(p[0] == path@[from as int]);
        assert(p.drop_first() =~= path@.skip(from + 1));
        match self.get_child_index(path.component(from)) {
            Ok(i) => {
                proof {
                    before.lemma_index(i as int);
                    before.lemma_child(i as int);
                    assert(p =~= seq![p[0]] + p.drop_first());
                    assert forall|c: PathTrieNode<T>, sub: TrieView<T>, new: PathTrieNode<T>|
                        #![trigger c.wf(), new@, before@.graft(p, sub)]
                        c.wf() && c@ == before.children@[i as int].1@.graft(p.drop_first(), sub)
                            && new.value == before.value && new.children@
                            == before.children@.update(
                            i as int,
                            (before.children@[i as int].0, c),
                        ) implies new.wf() && new@ == before@.graft(p, sub) by {
                        before.lemma_replaced(new, i as int, c);
                        lemma_graft_graft(before@, p[0], p.drop_first(), sub);
                    }
                    lemma_at_at(before@, p[0], p.drop_first());
                    assert forall|c: PathTrieNode<T>, new: PathTrieNode<T>|
                        #![trigger c.wf(), new@]
                        c.wf() && c@ == before.children@[i as int].1@ && new.value == before.value
                            && new.children@ == before.children@.update(
                            i as int,
                            (before.children@[i as int].0, c),
                        ) implies new.wf() && new@ == before@ by {
                        before.lemma_replaced(new, i as int, c);
                    }
                }
                self.children[i].1.descend_mut(path, from + 1)
            },
            Err(i) => {
                proof {
                    self.lemma_absent(p[0], i as int);
                }
                None
            },
        }
    }
}

proof fn lemma_graft_planted<T>(
    t: TrieView<T>,
    child: TrieView<T>,
    first: Seq<u8>,
    rest: Seq<Seq<u8>>,
    sub: TrieView<T>,
)
    requires
        t.nodes.contains(Seq::empty()),
        child.planted(rest) == t.at(seq![first]).planted(rest),
    ensures
        t.graft(seq![first], child.planted(rest).graft(rest, sub)) == t.planted(
            seq![first] + rest,
        ).graft(seq![first] + rest, sub),
{
    let p = seq![first] + rest;
    let a = t.graft(seq![first], child.planted(rest).graft(rest, sub));
    let b = t.planted(p).graft(p, sub);
    assert forall|q: Seq<Seq<u8>>|
        #![trigger a.nodes.contains(q)]
        #![trigger a.values.dom().contains(q)]
        {
            &&& a.nodes.contains(q) == b.nodes.contains(q)
            &&& a.values.contains_key(q) == b.values.contains_key(q)
            &&& a.values.contains_key(q) ==> a.values[q] == b.values[q]
        } by {
        if path::starts_with(q, seq![first]) {
            let r = q.skip(1);
            assert(q =~= seq![first] + r) by {
                assert(q.take(1)[0] == first);
            }
            if path::starts_with(r, rest) {
                assert(q.take(p.len() as int) =~= seq![first] + r.take(rest.len() as int));
                assert(path::starts_with(q, p));
                assert(r.skip(rest.len() as int) =~= q.skip(p.len() as int));
            } else {
                if path::starts_with(q, p) {
                    assert(r.take(rest.len() as int) =~= q.take(p.len() as int).skip(1));
                    assert(p.skip(1) =~= rest);
                    assert(false);
                }
                assert(path::starts_with(p, q) == path::starts_with(rest, r)) by {
                    if r.len() <= rest.len() {
                        assert(p.take(q.len() as int) =~= seq![first] + rest.take(r.len() as int));
                        if p.take(q.len() as int) == q {
                            assert(rest.take(r.len() as int) =~= p.take(q.len() as int).skip(1));
                        }
                    }
                }
            }
        } else {
            if path::starts_with(q, p) {
                assert(q.take(1) =~= q.take(p.len() as int).take(1));
                assert(p.take(1) =~= seq![first]);
                assert(false);
            }
            if q.len() == 0 {
                assert(q =~= Seq::empty());
            } else if path::starts_with(p, q) {
                assert(q.take(1) =~= p.take(q.len() as int).take(1));
                assert(p.take(1) =~= seq![first]);
                assert(p.take(q.len() as int).take(1) =~= p.take(1));
                assert(false);
            }
        }
    }
    assert(a.nodes =~= b.nodes);
    assert(a.values =~= b.values);
}

impl<T> PathTrieNode<T> {
    /// A node without a value and without children.
    pub fn new() -> (node: Self)
        ensures
            node.wf(),
            node@ == TrieView::<T>::leaf(None),
    {
        let node = PathTrieNode { children: Vec::new(), value: None };
        proof {
            node.lemma_leaf();
        }
        node
    }

    proof fn lemma_leaf(self)
        requires
            self.children@.len() == 0,
        ensures
            self.wf(),
            self@ == TrieView::<T>::leaf(self.value),
    {
        assert forall|q: Seq<Seq<u8>>| #[trigger] self.node(q) is Some == (q == Seq::<
            Seq<u8>,
        >::empty()) by {
            if q.len() == 0 {
                assert(q =~= Seq::empty());
            } else {
                assert(self.index_of(q[0]) is None);
            }
        }
        assert(self@.nodes =~= TrieView::<T>::leaf(self.value).nodes);
        assert(self@.values =~= TrieView::<T>::leaf(self.value).values);
    }

    /// A child is added.
    proof fn lemma_added(self, new: Self, i: int, key: Vec<u8>, child: PathTrieNode<T>)
        requires
            self.wf(),
            0 <= i <= self.children@.len(),
            forall|j: int| 0 <= j < i ==> path::name_before(#[trigger] self.child_keys()[j], key@),
            forall|j: int|
                i <= j < self.children@.len() ==> path::name_before(
                    key@,
                    #[trigger] self.child_keys()[j],
                ),
            new.value == self.value,
            new.children@ == self.children@.insert(i, (key, child)),
            child.wf(),
        ensures
            new.wf(),
            new@ == self@.graft(seq![key@], child@),
    {
        assert forall|j: int, k: int| 0 <= j < k < new.children@.len() implies path::name_before(
            #[trigger] new.children@[j].0@,
            #[trigger] new.children@[k].0@,
        ) by {
            let sj = if j < i {
                j
            } else {
                j - 1
            };
            let sk = if k < i {
                k
            } else {
                k - 1
            };
            if j != i {
                assert(self.child_keys()[sj] == self.children@[sj].0@);
            }
            if k != i {
                assert(self.child_keys()[sk] == self.children@[sk].0@);
            }
            if j != i && k != i {
                assert(path::name_before(self.children@[sj].0@, self.children@[sk].0@));
            }
        }
        assert forall|j: int| 0 <= j < new.children@.len() implies (
        #[trigger] new.children@[j]).1.wf() by {
            if j < i {
                assert(self.children@[j].1.wf());
            } else if j > i {
                assert(self.children@[j - 1].1.wf());
            }
        }
        assert(new.wf());
        self.lemma_absent(key@, i);
        let grafted = self@.graft(seq![key@], child@);
        assert forall|q: Seq<Seq<u8>>|
            #![trigger new@.nodes.contains(q)]
            #![trigger new@.values.dom().contains(q)]
            {
                &&& new@.nodes.contains(q) == grafted.nodes.contains(q)
                &&& new@.values.contains_key(q) == grafted.values.contains_key(q)
                &&& new@.values.contains_key(q) ==> new@.values[q] == grafted.values[q]
            } by {
            if q.len() > 0 {
                assert(q.take(1) =~= seq![q[0]]);
                assert(seq![key@][0] == key@);
                assert(q.skip(1) =~= q.drop_first());
                if q[0] == key@ {
                    new.lemma_index(i);
                    assert(path::starts_with(q, seq![key@]));
                    assert(new.node(q) == child.node(q.drop_first()));
                } else {
                    assert(!path::starts_with(q, seq![key@]));
                    if let Some(j) = self.index_of(q[0]) {
                        let k = if j < i {
                            j
                        } else {
                            j + 1
                        };
                        self.lemma_index(j);
                        new.lemma_index(k);
                        assert(new.children@[k].0@ == q[0]);
                    } else if let Some(k) = new.index_of(q[0]) {
                        let j = if k < i {
                            k
                        } else {
                            k - 1
                        };
                        assert(new.children@[k].0@ == q[0]);
                        assert(self.children@[j].0@ == q[0]);
                    }
                    assert(new.node(q) == self.node(q));
                }
            } else {
                assert(!path::starts_with(q, seq![key@]));
                assert(new.node(q) == Some(new));
                assert(self.node(q) == Some(self));
            }
        }
        assert(new@.nodes =~= grafted.nodes);
        assert(new@.values =~= grafted.values);
    }

    /// What the value of a node says.
    proof fn lemma_value(self, new: Self)
        requires
            self.wf(),
            new.children == self.children,
            new.value is Some,
        ensures
            new.wf(),
            new@ == self@.with_value(new.value->0),
    {
        assert(new.wf());
        assert forall|q: Seq<Seq<u8>>| q.len() > 0 implies #[trigger] new.node(q) == self.node(
            q,
        ) by {}
        assert forall|q: Seq<Seq<u8>>| q.len() == 0 implies q == Seq::<Seq<u8>>::empty() by {
            assert(q =~= Seq::empty());
        }
        assert(new@.nodes =~= self@.with_value(new.value->0).nodes);
        assert(new@.values =~= self@.with_value(new.value->0).values);
    }

    /// Gives the node at the components of `path` from `from` on a value.
    fn insert_below(&mut self, path: &PathBuf, from: usize, value: T) -> (r: &mut PathTrieNode<T>)
        requires
            old(self).wf(),
            from <= path@.len(),
        ensures
            r.wf(),
            r@ == old(self)@.at(path@.skip(from as int)).with_value(value),
            final(r).wf() ==> final(self).wf() && final(self)@ == old(self)@.planted(
                path@.skip(from as int),
            ).graft(path@.skip(from as int), final(r)@),
        decreases path@.len() - from,
    {
        let ghost p = path@.skip(from as int);
        let ghost before = *self;
        if from == path.len() {
            self.value = Some(value);
            proof {
                assert(p =~= Seq::empty());
                before.lemma_value(*self);
                lemma_graft_all(before@, before@);
                assert forall|sub: TrieView<T>| #[trigger]
                    before@.planted(p).graft(p, sub) == sub by {
                    lemma_graft_all(before@.planted(p), sub);
                }
            }
            return self;
        }
        proof {
            assert(p[0] == path@[from as int]);
            assert(p.drop_first() =~= path@.skip(from + 1));
            assert(p =~= seq![p[0]] + p.drop_first());
            assert(before.node(Seq::empty()) is Some);
            lemma_at_at(before@, p[0], p.drop_first());
        }
        match self.get_child_index(path.component(from)) {
            Ok(i) => {
                proof {
                    before.lemma_child(i as int);
                    assert forall|c: PathTrieNode<T>, sub: TrieView<T>, new: PathTrieNode<T>|
                        #![trigger c.wf(), new@, before@.planted(p).graft(p, sub)]
                        c.wf() && c@ == before.children@[i as int].1@.planted(
                            p.drop_first(),
                        ).graft(p.drop_first(), sub) && new.value == before.value && new.children@
                            == before.children@.update(
                            i as int,
                            (before.children@[i as int].0, c),
                        ) implies new.wf() && new@ == before@.planted(p).graft(p, sub) by {
                        before.lemma_replaced(new, i as int, c);
                        lemma_graft_planted(
                            before@,
                            before.children@[i as int].1@,
                            p[0],
                            p.drop_first(),
                            sub,
                        );
                    }
                }
                assert forall|c: PathTrieNode<T>, new: PathTrieNode<T>|
                    #![trigger c.wf(), new.wf()]
                    c.wf() && new.value == before.value && new.children@
                        == before.children@.update(
                        i as int,
                        (before.children@[i as int].0, c),
                    ) implies new.wf() by {
                    before.lemma_replaced(new, i as int, c);
                }
                self.children[i].1.insert_below(path, from + 1, value)
            },
            Err(i) => {
                let key = path::copy_name(path.component(from));
                self.children.insert(i, (key, PathTrieNode::new()));
                proof {
                    let leaf = TrieView::<T>::leaf(None);
                    let rest = p.drop_first();
                    before.lemma_absent(p[0], i as int);
                    assert forall|q: Seq<Seq<u8>>| #[trigger]
                        before.node(seq![p[0]] + q) is None by {
                        assert((seq![p[0]] + q)[0] == p[0]);
                    }
                    assert(leaf.planted(rest) =~= before@.at(seq![p[0]]).planted(rest)) by {
                        assert(rest.take(0) =~= Seq::empty());
                    }
                    assert forall|q: Seq<Seq<u8>>| rest + q == Seq::<Seq<u8>>::empty() implies q
                        == Seq::<Seq<u8>>::empty() by {
                        assert((rest + q).len() == 0);
                        assert(q =~= Seq::empty());
                    }
                    assert forall|q: Seq<Seq<u8>>| #[trigger] before@.at(p).nodes.contains(
                        q,
                    ) implies false by {
                        assert(p + q =~= seq![p[0]] + (rest + q));
                    }
                    assert forall|q: Seq<Seq<u8>>| #[trigger] before@.at(p).values.contains_key(
                        q,
                    ) implies false by {
                        assert(p + q =~= seq![p[0]] + (rest + q));
                    }
                    assert(leaf.at(rest).with_value(value) =~= before@.at(p).with_value(value));
                    let added = self.children@;
                    assert forall|c: PathTrieNode<T>, sub: TrieView<T>, new: PathTrieNode<T>|
                        #![trigger c.wf(), new@, before@.planted(p).graft(p, sub)]
                        c.wf() && c@ == leaf.planted(rest).graft(rest, sub) && new.value
                            == before.value && new.children@ == added.update(
                            i as int,
                            (added[i as int].0, c),
                        ) implies new.wf() && new@ == before@.planted(p).graft(p, sub) by {
                        assert(new.children@ =~= before.children@.insert(i as int, (key, c)));
                        before.lemma_added(new, i as int, key, c);
                        lemma_graft_planted(before@, leaf, p[0], rest, sub);
                    }
                    assert forall|c: PathTrieNode<T>, new: PathTrieNode<T>|
                        #![trigger c.wf(), new.wf()]
                        c.wf() && new.value == before.value && new.children@ == added.update(
                            i as int,
                            (added[i as int].0, c),
                        ) implies new.wf() by {
                        assert(new.children@ =~= before.children@.insert(i as int, (key, c)));
                        before.lemma_added(new, i as int, key, c);
                    }
                }
                self.children[i].1.insert_below(path, from + 1, value)
            },
        }
    }
}

/// The order of paths by the names of their components, whatever they are.
pub open spec fn name_order() -> spec_fn(Seq<u8>, Seq<u8>) -> bool {
    |a: Seq<u8>, b: Seq<u8>| path::name_before(a, b)
}

pub open spec fn by_names(a: Seq<Seq<u8>>, b: Seq<Seq<u8>>) -> bool {
    order::lex_lt(name_order(), a, b)
}

/// Whether `paths` come in the order of their names, each once.
pub open spec fn sorted_by_names(paths: Seq<Seq<Seq<u8>>>) -> bool {
    forall|i: int, j: int| 0 <= i < j < paths.len() ==> by_names(#[trigger] paths[i], #[trigger] paths[j])
}

/// The paths of a list of entries.
pub open spec fn entry_paths<T>(entries: Seq<(Seq<Seq<u8>>, T)>) -> Seq<Seq<Seq<u8>>> {
    entries.map_values(|e: (Seq<Seq<u8>>, T)| e.0)
}

/// What a list of entries holds.
pub open spec fn entry_views<T>(entries: Seq<(PathBuf, &T)>) -> Seq<(Seq<Seq<u8>>, T)> {
    entries.map_values(|e: (PathBuf, &T)| (e.0@, *e.1))
}

/// The path that `p` is listed under. A tree that has a node for the root of the file system lists
/// the relative paths whose names come after it as if they were below it.
pub open spec fn listed_as(rooted: bool, p: Seq<Seq<u8>>) -> Seq<Seq<u8>> {
    if rooted && p.len() > 0 && path::name_before(path::root_dir(), p[0]) {
        seq![path::root_dir()] + p
    } else {
        p
    }
}

/// The entries of a tree at `paths`, as they are listed.
pub open spec fn listed<T>(t: TrieView<T>, paths: Seq<Seq<Seq<u8>>>) -> Seq<(Seq<Seq<u8>>, T)> {
    paths.map_values(
        |p: Seq<Seq<u8>>|
            (listed_as(t.nodes.contains(seq![path::root_dir()]), p), t.values[p]),
    )
}

/// The list holds exactly the entries of a tree, in the order of their names.
pub open spec fn lists<T>(entries: Seq<(Seq<Seq<u8>>, T)>, t: TrieView<T>) -> bool {
    exists|paths: Seq<Seq<Seq<u8>>>| #[trigger]
        sorted_by_names(paths) && paths.to_set() == t.values.dom() && entries == listed(t, paths)
}

/// There is one list only of the entries of a tree.
pub proof fn listing_is_unique<T>(
    a: Seq<(Seq<Seq<u8>>, T)>,
    b: Seq<(Seq<Seq<u8>>, T)>,
    t: TrieView<T>,
)
    requires
        lists(a, t),
        lists(b, t),
    ensures
        a == b,
{
    let p = choose|p: Seq<Seq<Seq<u8>>>| #[trigger]
        sorted_by_names(p) && p.to_set() == t.values.dom() && a == listed(t, p);
    let q = choose|q: Seq<Seq<Seq<u8>>>| #[trigger]
        sorted_by_names(q) && q.to_set() == t.values.dom() && b == listed(t, q);
    path::name_order_is_total();
    assert(name_order() =~= |a: Seq<u8>, b: Seq<u8>| path::name_before(a, b));
    order::lemma_lex_total(name_order());
    let lt = |a: Seq<Seq<u8>>, b: Seq<Seq<u8>>| order::lex_lt(name_order(), a, b);
    assert forall|i: int, j: int| 0 <= i < j < p.len() implies lt(
        #[trigger] p[i],
        #[trigger] p[j],
    ) by {
        assert(by_names(p[i], p[j]));
    }
    assert forall|i: int, j: int| 0 <= i < j < q.len() implies lt(
        #[trigger] q[i],
        #[trigger] q[j],
    ) by {
        assert(by_names(q[i], q[j]));
    }
    order::lemma_ascending_unique(lt, p, q);
}

/// The list holds exactly the entries of `values`, in the order of their names.
spec fn lists_each<T>(
    entries: Seq<(Seq<Seq<u8>>, T)>,
    values: Map<Seq<Seq<u8>>, T>,
) -> bool {
    &&& sorted_by_names(entry_paths(entries))
    &&& forall|i: int|
        0 <= i < entries.len() ==> values.contains_key((#[trigger] entries[i]).0)
            && values[entries[i].0] == entries[i].1
    &&& forall|p: Seq<Seq<u8>>| #[trigger]
        values.contains_key(p) ==> exists|i: int|
            0 <= i < entries.len() && (#[trigger] entries[i]).0 == p
}

/// The entries with `prefix` before their paths.
spec fn prefixed<T>(
    prefix: Seq<Seq<u8>>,
    entries: Seq<(Seq<Seq<u8>>, T)>,
) -> Seq<(Seq<Seq<u8>>, T)> {
    entries.map_values(|e: (Seq<Seq<u8>>, T)| (prefix + e.0, e.1))
}

/// The entries under the paths that they are listed under.
spec fn as_listed<T>(
    rooted: bool,
    entries: Seq<(Seq<Seq<u8>>, T)>,
) -> Seq<(Seq<Seq<u8>>, T)> {
    entries.map_values(|e: (Seq<Seq<u8>>, T)| (listed_as(rooted, e.0), e.1))
}

impl<T> PathTrieNode<T> {
    /// The values at and below the node, each before those of its children.
    spec fn listing(self) -> Seq<(Seq<Seq<u8>>, T)>
        decreases self, self.children@.len() + 1,
    {
        self.own() + self.listing_upto(self.children@.len() as int)
    }

    /// The value of the node itself.
    spec fn own(self) -> Seq<(Seq<Seq<u8>>, T)> {
        match self.value {
            Some(value) => seq![(Seq::<Seq<u8>>::empty(), value)],
            None => Seq::empty(),
        }
    }

    /// The values at and below the first `n` children.
    spec fn listing_upto(self, n: int) -> Seq<(Seq<Seq<u8>>, T)>
        decreases self, n,
    {
        if n <= 0 || n > self.children@.len() {
            Seq::empty()
        } else {
            self.listing_upto(n - 1) + prefixed(
                seq![self.children@[n - 1].0@],
                self.children@[n - 1].1.listing(),
            )
        }
    }

    /// Appends the values at and below the node to `out`.
    fn collect<'a>(&'a self, prefix: &PathBuf, out: &mut Vec<(PathBuf, &'a T)>)
        ensures
            entry_views(final(out)@) == entry_views(old(out)@) + prefixed(prefix@, self.listing()),
        decreases self,
    {
        let ghost start = entry_views(out@);
        let ghost own = self.own();
        if let Some(value) = &self.value {
            out.push((prefix.clone(), value));
        }
        proof {
            assert(prefix@ + Seq::<Seq<u8>>::empty() =~= prefix@);
            assert(entry_views(out@) =~= start + prefixed(prefix@, own));
        }
        let mut i: usize = 0;
        assert(entry_views(out@) =~= start + prefixed(prefix@, own + self.listing_upto(0)));
        while i < self.children.len()
            invariant
                i <= self.children@.len(),
                entry_views(out@) == start + prefixed(prefix@, own + self.listing_upto(i as int)),
            decreases self.children.len() - i,
        {
            let ghost before = entry_views(out@);
            let below = prefix.entry(&self.children[i].0);
            self.children[i].1.collect(&below, out);
            proof {
                let key = self.children@[i as int].0@;
                let child = self.children@[i as int].1.listing();
                assert(prefixed(prefix@, prefixed(seq![key], child)) =~= prefixed(below@, child)) by {
                    assert forall|k: int| 0 <= k < child.len() implies prefix@ + (seq![key]
                        + child[k].0) == below@ + child[k].0 by {
                        assert(prefix@ + (seq![key] + child[k].0) =~= below@ + child[k].0);
                    }
                }
                assert(prefixed(prefix@, own + self.listing_upto(i + 1)) =~= prefixed(
                    prefix@,
                    own + self.listing_upto(i as int),
                ) + prefixed(prefix@, prefixed(seq![key], child)));
                assert(entry_views(out@) =~= start + prefixed(
                    prefix@,
                    own + self.listing_upto(i + 1),
                ));
            }
            i = i + 1;
        }
    }

    proof fn lemma_listing_upto(self, n: int)
        requires
            self.wf(),
            0 <= n <= self.children@.len(),
        ensures
            sorted_by_names(entry_paths(self.listing_upto(n))),
            forall|k: int|
                0 <= k < self.listing_upto(n).len() ==> {
                    let p = (#[trigger] self.listing_upto(n)[k]).0;
                    &&& p.len() > 0
                    &&& self.index_of(p[0]) matches Some(i) && 0 <= i < n
                    &&& self@.values.contains_key(p)
                    &&& self@.values[p] == self.listing_upto(n)[k].1
                },
            forall|p: Seq<Seq<u8>>| #[trigger]
                self@.values.contains_key(p) && p.len() > 0 && self.index_of(p[0])->0 < n
                    ==> exists|k: int|
                    0 <= k < self.listing_upto(n).len() && (#[trigger] self.listing_upto(n)[k]).0
                        == p,
        decreases self, n,
    {
        if n > 0 {
            self.lemma_listing_upto(n - 1);
            let before = self.listing_upto(n - 1);
            let here = self.listing_upto(n);
            let i = n - 1;
            let key = self.children@[i].0@;
            let child = self.children@[i].1;
            let list = child.listing();
            child.lemma_listing();
            self.lemma_index(i);
            assert forall|q: Seq<Seq<u8>>| #[trigger] self.node(seq![key] + q) == child.node(q) by {
                assert((seq![key] + q).drop_first() =~= q);
                assert((seq![key] + q)[0] == key);
            }
            assert(here == before + prefixed(seq![key], list));
            assert forall|k: int| 0 <= k < here.len() implies {
                let p = (#[trigger] here[k]).0;
                &&& p.len() > 0
                &&& self.index_of(p[0]) matches Some(i) && 0 <= i < n
                &&& self@.values.contains_key(p)
                &&& self@.values[p] == here[k].1
            } by {
                if k < before.len() {
                    assert(here[k] == before[k]);
                } else {
                    let e = list[k - before.len()];
                    assert(here[k] == (seq![key] + e.0, e.1));
                    assert(child@.values.contains_key(e.0));
                }
            }
            assert forall|k: int, l: int| 0 <= k < l < here.len() implies by_names(
                #[trigger] entry_paths(here)[k],
                #[trigger] entry_paths(here)[l],
            ) by {
                let a = here[k].0;
                let b = here[l].0;
                if l < before.len() {
                    assert(entry_paths(before)[k] == a);
                    assert(entry_paths(before)[l] == b);
                } else if k >= before.len() {
                    let x = list[k - before.len()].0;
                    let y = list[l - before.len()].0;
                    assert(entry_paths(list)[k - before.len()] == x);
                    assert(entry_paths(list)[l - before.len()] == y);
                    assert(by_names(x, y));
                    assert(a == seq![key] + x);
                    assert(b == seq![key] + y);
                    assert(a.drop_first() =~= x);
                    assert(b.drop_first() =~= y);
                } else {
                    assert(here[k] == before[k]);
                    let j = self.index_of(a[0])->0;
                    assert(self.children@[j].0@ == a[0]);
                    assert(b == seq![key] + list[l - before.len()].0);
                    assert(b[0] == key);
                    assert(path::name_before(self.children@[j].0@, self.children@[i].0@));
                    path::name_order_is_total();
                    assert(!name_order()(key, key)) by {
                        let f = |a: Seq<u8>, b: Seq<u8>| path::name_before(a, b);
                        assert(!f(key, key));
                    }
                    assert(a[0] != b[0]);
                }
            }
            assert forall|p: Seq<Seq<u8>>| #[trigger]
                self@.values.contains_key(p) && p.len() > 0 && self.index_of(p[0])->0 < n implies exists|
                k: int,
            | 0 <= k < here.len() && (#[trigger] here[k]).0 == p by {
                let j = self.index_of(p[0])->0;
                if j < n - 1 {
                    let k = choose|k: int| 0 <= k < before.len() && (#[trigger] before[k]).0 == p;
                    assert(here[k] == before[k]);
                } else {
                    assert(self.children@[j].0@ == p[0]);
                    assert(p =~= seq![key] + p.drop_first());
                    assert(child@.values.contains_key(p.drop_first()));
                    let k = choose|k: int|
                        0 <= k < list.len() && (#[trigger] list[k]).0 == p.drop_first();
                    assert(here[before.len() + k].0 == p);
                }
            }
        }
    }

    /// The list of the values at and below a node holds each of them, in order.
    proof fn lemma_listing(self)
        requires
            self.wf(),
        ensures
            lists_each(self.listing(), self@.values),
        decreases self, self.children@.len() + 1,
    {
        let n = self.children@.len() as int;
        self.lemma_listing_upto(n);
        let rest = self.listing_upto(n);
        let list = self.listing();
        let own = (list.len() - rest.len()) as int;
        assert(own == if self.value is Some {
            1int
        } else {
            0
        });
        assert forall|k: int| 0 <= k < rest.len() implies list[k + own] == #[trigger] rest[k] by {}
        assert forall|k: int, l: int| 0 <= k < l < list.len() implies by_names(
            #[trigger] entry_paths(list)[k],
            #[trigger] entry_paths(list)[l],
        ) by {
            assert(list[l] == rest[l - own]);
            if k >= own {
                assert(list[k] == rest[k - own]);
                assert(entry_paths(rest)[k - own] == list[k].0);
                assert(entry_paths(rest)[l - own] == list[l].0);
            }
        }
        assert forall|k: int| 0 <= k < list.len() implies self@.values.contains_key(
            (#[trigger] list[k]).0,
        ) && self@.values[list[k].0] == list[k].1 by {
            if k >= own {
                assert(list[k] == rest[k - own]);
            } else {
                assert(self.node(Seq::empty()) == Some(self));
            }
        }
        assert forall|p: Seq<Seq<u8>>| #[trigger] self@.values.contains_key(p) implies exists|k: int|
            0 <= k < list.len() && (#[trigger] list[k]).0 == p by {
            if p.len() == 0 {
                assert(p =~= Seq::empty());
                assert(list[0].0 == p);
            } else {
                let i = self.index_of(p[0])->0;
                let k = choose|k: int| 0 <= k < rest.len() && (#[trigger] rest[k]).0 == p;
                assert(list[k + own] == rest[k]);
            }
        }
    }

    /// Whether the tree lists what follows the first `n` children below the root of the file
    /// system: it is one of them.
    spec fn is_rooted_upto(self, n: int) -> bool {
        exists|j: int| 0 <= j < n && #[trigger] self.children@[j].0@ == path::root_dir()
    }

    /// The children after that for the root of the file system are those whose names come after it.
    proof fn lemma_rooted(self, i: int)
        requires
            self.wf(),
            0 <= i < self.children@.len(),
        ensures
            self.is_rooted_upto(i) == (self@.nodes.contains(seq![path::root_dir()])
                && path::name_before(path::root_dir(), self.children@[i].0@)),
    {
        let root = path::root_dir();
        let p = seq![root];
        let key = self.children@[i].0@;
        path::name_order_is_total();
        let f = |a: Seq<u8>, b: Seq<u8>| path::name_before(a, b);
        assert(!f(key, key));
        assert(f(key, root) && f(root, key) ==> f(key, key));
        if self.is_rooted_upto(i) {
            let j = choose|j: int| 0 <= j < i && #[trigger] self.children@[j].0@ == root;
            self.lemma_index(j);
            assert(p.drop_first() =~= Seq::empty());
            assert(self.children@[j].1.node(p.drop_first()) == Some(self.children@[j].1));
            assert(self.node(p) is Some);
        }
        if self@.nodes.contains(p) && path::name_before(root, key) {
            assert(self.node(p) is Some);
            let j = self.index_of(root)->0;
            assert(self.children@[j].0@ == root);
            if j > i {
                assert(path::name_before(self.children@[i].0@, self.children@[j].0@));
            }
        }
    }

    /// The values at and below the node, with their paths from it, in the order of the names.
    pub fn descendants(&self) -> (entries: Vec<(PathBuf, &T)>)
        requires
            self.wf(),
        ensures
            lists(entry_views(entries@), self@),
    {
        let ghost has_root = self@.nodes.contains(seq![path::root_dir()]);
        let mut out: Vec<(PathBuf, &T)> = Vec::new();
        let mut rooted: bool = false;
        if let Some(value) = &self.value {
            out.push((PathBuf::new(), value));
        }
        assert(entry_views(out@) =~= as_listed(has_root, self.own() + self.listing_upto(0)));
        let mut i: usize = 0;
        while i < self.children.len()
            invariant
                i <= self.children@.len(),
                self.wf(),
                has_root == self@.nodes.contains(seq![path::root_dir()]),
                rooted == self.is_rooted_upto(i as int),
                entry_views(out@) == as_listed(
                    has_root,
                    self.own() + self.listing_upto(i as int),
                ),
            decreases self.children.len() - i,
        {
            let ghost before = entry_views(out@);
            let ghost key = self.children@[i as int].0@;
            let ghost child = self.children@[i as int].1.listing();
            let mut above = PathBuf::new();
            if rooted {
                let mut root: Vec<u8> = Vec::new();
                root.push(path::SEPARATOR);
                assert(root@ =~= path::root_dir());
                above.push(root);
            }
            let below = above.entry(&self.children[i].0);
            self.children[i].1.collect(&below, &mut out);
            proof {
                self.lemma_rooted(i as int);
                let here = prefixed(seq![key], child);
                assert(as_listed(has_root, here) =~= prefixed(below@, child)) by {
                    assert forall|k: int| 0 <= k < child.len() implies listed_as(
                        has_root,
                        #[trigger] here[k].0,
                    ) == below@ + child[k].0 by {
                        assert(here[k].0 == seq![key] + child[k].0);
                        assert(here[k].0[0] == key);
                        assert(listed_as(has_root, here[k].0) =~= below@ + child[k].0);
                    }
                }
                assert(entry_views(out@) =~= as_listed(
                    has_root,
                    self.own() + self.listing_upto(i + 1),
                ));
            }
            let is_root = self.children[i].0.len() == 1 && self.children[i].0[0] == path::SEPARATOR;
            proof {
                if is_root {
                    assert(key =~= path::root_dir());
                }
                assert(is_root == (key == path::root_dir()));
                if rooted {
                    let j = choose|j: int|
                        0 <= j < i && #[trigger] self.children@[j].0@ == path::root_dir();
                    assert(self.children@[j].0@ == path::root_dir());
                }
                if is_root {
                    assert(self.children@[i as int].0@ == path::root_dir());
                }
                if self.is_rooted_upto(i + 1) && !is_root {
                    let j = choose|j: int|
                        0 <= j < i + 1 && #[trigger] self.children@[j].0@ == path::root_dir();
                    assert(self.children@[j].0@ == path::root_dir());
                }
            }
            rooted = rooted || is_root;
            i = i + 1;
        }
        proof {
            self.lemma_listing();
            let list = self.listing();
            let paths = entry_paths(list);
            assert(paths.to_set() =~= self@.values.dom()) by {
                assert forall|p: Seq<Seq<u8>>| #[trigger]
                    paths.to_set().contains(p) == self@.values.dom().contains(p) by {
                    if paths.contains(p) {
                        let k = paths.index_of(p);
                        assert(list[k].0 == p);
                    }
                    if self@.values.contains_key(p) {
                        let k = choose|k: int| 0 <= k < list.len() && (#[trigger] list[k]).0 == p;
                        assert(paths[k] == p);
                    }
                }
            }
            assert(entry_views(out@) =~= listed(self@, paths));
        }
        out
    }
}

/// `n`, or the largest number that fits.
pub open spec fn fitting(n: nat) -> nat {
    if n <= usize::MAX {
        n
    } else {
        usize::MAX as nat
    }
}

/// `depth` is that of the deepest of `paths`, all of them at `current` more, or 0 when there are
/// none.
pub open spec fn is_deepest(paths: Set<Seq<Seq<u8>>>, current: nat, depth: nat) -> bool {
    &&& forall|p: Seq<Seq<u8>>| #[trigger] paths.contains(p) ==> fitting(current + p.len()) <= depth
    &&& depth == 0 || exists|p: Seq<Seq<u8>>| #[trigger]
        paths.contains(p) && depth == fitting(current + p.len())
}

impl<T> PathTrieNode<T> {
    /// The paths of the values at the node and below its first `n` children.
    spec fn valued_upto(self, n: int) -> Set<Seq<Seq<u8>>> {
        Set::new(
            |p: Seq<Seq<u8>>| self.has_value(p) && (p.len() == 0 || self.index_of(p[0])->0 < n),
        )
    }

    proof fn lemma_valued_step(self, n: int)
        requires
            self.wf(),
            0 <= n < self.children@.len(),
            self.valued_upto(n).finite(),
            self.children@[n].1@.values.dom().finite(),
        ensures
            self.valued_upto(n + 1).finite(),
            self.valued_upto(n + 1).len() == self.valued_upto(n).len()
                + self.children@[n].1@.values.dom().len(),
    {
        let key = self.children@[n].0@;
        let child = self.children@[n].1;
        let below = child@.values.dom();
        let f = |q: Seq<Seq<u8>>| seq![key] + q;
        self.lemma_index(n);
        assert forall|q: Seq<Seq<u8>>| #[trigger] self.node(seq![key] + q) == child.node(q) by {
            assert((seq![key] + q).drop_first() =~= q);
            assert((seq![key] + q)[0] == key);
        }
        assert(vstd::relations::injective_on(f, below)) by {
            assert forall|a: Seq<Seq<u8>>, b: Seq<Seq<u8>>| #[trigger] f(a) == #[trigger] f(
                b,
            ) implies a == b by {
                assert(f(a).drop_first() =~= a);
                assert(f(b).drop_first() =~= b);
            }
        }
        vstd::set_lib::lemma_map_size(below, below.map(f), f);
        let a = self.valued_upto(n);
        let b = below.map(f);
        assert(a.disjoint(b)) by {
            assert forall|p: Seq<Seq<u8>>| b.contains(p) implies !a.contains(p) by {
                let q = choose|q: Seq<Seq<u8>>| below.contains(q) && p == f(q);
                assert(p[0] == key);
            }
        }
        vstd::set_lib::lemma_set_disjoint_lens(a, b);
        assert(self.valued_upto(n + 1) =~= a + b) by {
            assert forall|p: Seq<Seq<u8>>| #[trigger]
                self.valued_upto(n + 1).contains(p) == (a + b).contains(p) by {
                if self.valued_upto(n + 1).contains(p) && !a.contains(p) {
                    assert(self.children@[self.index_of(p[0])->0].0@ == p[0]);
                    assert(p =~= f(p.drop_first()));
                    assert(below.contains(p.drop_first()));
                }
                if b.contains(p) {
                    let q = choose|q: Seq<Seq<u8>>| below.contains(q) && p == f(q);
                    assert(self.node(seq![key] + q) == child.node(q));
                }
            }
        }
    }

    proof fn lemma_valued_ends(self)
        requires
            self.wf(),
        ensures
            self.valued_upto(self.children@.len() as int) == self@.values.dom(),
            self.valued_upto(0).finite(),
            self.valued_upto(0).len() == (if self.value is Some {
                1nat
            } else {
                0
            }),
    {
        assert(self.valued_upto(self.children@.len() as int) =~= self@.values.dom()) by {
            assert forall|p: Seq<Seq<u8>>| self.has_value(p) implies p.len() == 0
                || 0 <= self.index_of(p[0])->0 < self.children@.len() by {}
        }
        let root = Seq::<Seq<u8>>::empty();
        assert(self.node(root) == Some(self));
        assert forall|p: Seq<Seq<u8>>| #[trigger] self.valued_upto(0).contains(p) implies p
            == root by {
            if p.len() > 0 {
                assert(self.index_of(p[0]) is Some);
            }
            assert(p =~= root);
        }
        if self.value is Some {
            assert(self.valued_upto(0) =~= set![root]);
        } else {
            assert(self.valued_upto(0) =~= Set::empty());
        }
    }

    /// Count the total number of valued nodes in this subtree.
    pub fn count_values(&self) -> (count: usize)
        requires
            self.wf(),
        ensures
            self@.values.dom().finite(),
            count == fitting(self@.values.dom().len()),
        decreases self,
    {
        proof {
            self.lemma_valued_ends();
        }
        let mut count: usize = if self.value.is_some() {
            1
        } else {
            0
        };
        let mut i: usize = 0;
        while i < self.children.len()
            invariant
                self.wf(),
                i <= self.children@.len(),
                self.valued_upto(i as int).finite(),
                count == fitting(self.valued_upto(i as int).len()),
            decreases self.children.len() - i,
        {
            let more: usize = self.children[i].1.count_values();
            proof {
                self.lemma_valued_step(i as int);
            }
            count = count.saturating_add(more);
            i = i + 1;
        }
        count
    }

    /// Return the depth of the deepest valued node in this subtree.
    pub fn max_value_depth(&self, current_depth: usize) -> (depth: usize)
        requires
            self.wf(),
        ensures
            is_deepest(self@.values.dom(), current_depth as nat, depth as nat),
        decreases self,
    {
        proof {
            self.lemma_valued_ends();
            assert(self.node(Seq::empty()) == Some(*self));
        }
        let mut depth: usize = if self.value.is_some() {
            current_depth
        } else {
            0
        };
        let mut i: usize = 0;
        assert(is_deepest(self.valued_upto(0), current_depth as nat, depth as nat)) by {
            let root = Seq::<Seq<u8>>::empty();
            if self.value is Some {
                assert(self.valued_upto(0).contains(root));
            }
            assert forall|p: Seq<Seq<u8>>| #[trigger] self.valued_upto(0).contains(p) implies fitting(
                current_depth as nat + p.len(),
            ) <= depth by {
                if p.len() > 0 {
                    assert(self.index_of(p[0]) is Some);
                }
                assert(p =~= root);
            }
        }
        while i < self.children.len()
            invariant
                self.wf(),
                i <= self.children@.len(),
                is_deepest(self.valued_upto(i as int), current_depth as nat, depth as nat),
            decreases self.children.len() - i,
        {
            let below: usize = self.children[i].1.max_value_depth(current_depth.saturating_add(1));
            let ghost before = depth;
            if below > depth {
                depth = below;
            }
            proof {
                let key = self.children@[i as int].0@;
                let child = self.children@[i as int].1;
                self.lemma_index(i as int);
                assert forall|q: Seq<Seq<u8>>| #[trigger]
                    self.node(seq![key] + q) == child.node(q) by {
                    assert((seq![key] + q).drop_first() =~= q);
                    assert((seq![key] + q)[0] == key);
                }
                let next = self.valued_upto(i + 1);
                assert forall|p: Seq<Seq<u8>>| #[trigger] next.contains(p) implies fitting(
                    current_depth as nat + p.len(),
                ) <= depth by {
                    if self.valued_upto(i as int).contains(p) {
                    } else {
                        assert(self.children@[self.index_of(p[0])->0].0@ == p[0]);
                        assert(p =~= seq![key] + p.drop_first());
                        assert(child@.values.dom().contains(p.drop_first()));
                    }
                }
                if depth != 0 {
                    if depth == before {
                        let p = choose|p: Seq<Seq<u8>>| #[trigger]
                            self.valued_upto(i as int).contains(p) && depth == fitting(
                                current_depth as nat + p.len(),
                            );
                        assert(next.contains(p));
                    } else {
                        let next_depth = fitting(current_depth as nat + 1);
                        let q = choose|q: Seq<Seq<u8>>| #[trigger]
                            child@.values.dom().contains(q) && depth == fitting(
                                next_depth + q.len(),
                            );
                        assert(self.node(seq![key] + q) == child.node(q));
                        assert(next.contains(seq![key] + q));
                    }
                }
            }
            i = i + 1;
        }
        depth
    }

    /// Takes what is below the node away.
    pub fn remove_children(&mut self)
        requires
            old(self).wf(),
        ensures
            final(self).wf(),
            final(self)@ == TrieView::leaf(old(self)@.value()),
    {
        self.children.clear();
        proof {
            assert(old(self).node(Seq::empty()) == Some(*old(self)));
            self.lemma_leaf();
        }
    }

    /// Gives the node a value.
    pub fn set_value(&mut self, value: T)
        requires
            old(self).wf(),
        ensures
            final(self).wf(),
            final(self)@ == old(self)@.with_value(value),
    {
        let ghost before = *self;
        self.value = Some(value);
        proof {
            before.lemma_value(*self);
        }
    }

    /// How many children the node has.
    pub fn children_len(&self) -> (n: usize)
        requires
            self.wf(),
        ensures
            self@.children().finite(),
            n == self@.children().len(),
    {
        proof {
            let keys = self.child_keys();
            path::name_order_is_total();
            let f = |a: Seq<u8>, b: Seq<u8>| path::name_before(a, b);
            assert forall|i: int, j: int|
                0 <= i < keys.len() && 0 <= j < keys.len() && i != j implies keys[i] != keys[j] by {
                assert(!f(keys[i], keys[i]));
                assert(keys[i] == self.children@[i].0@);
                assert(keys[j] == self.children@[j].0@);
                if i < j {
                    assert(f(keys[i], keys[j]));
                } else {
                    assert(f(keys[j], keys[i]));
                }
            }
            keys.unique_seq_to_set();
            assert(keys.to_set() =~= self@.children()) by {
                assert forall|k: Seq<u8>| #[trigger]
                    keys.to_set().contains(k) == self@.children().contains(k) by {
                    assert(seq![k][0] == k);
                    if keys.contains(k) {
                        let i = choose|i: int| 0 <= i < keys.len() && keys[i] == k;
                        assert(self.children@[i].0@ == k);
                        self.lemma_index(i);
                        assert(seq![k].drop_first() =~= Seq::empty());
                        assert(self.children@[i].1.node(Seq::empty()) is Some);
                    }
                    if self@.nodes.contains(seq![k]) {
                        let i = self.index_of(k)->0;
                        assert(self.children@[i].0@ == k);
                        assert(keys[i] == k);
                    }
                }
            }
        }
        self.children.len()
    }
}

impl<T> PathTrieNode<T> {
    proof fn lemma_child_key(self, i: int)
        requires
            self.wf(),
            0 <= i < self.children@.len(),
        ensures
            self@.children().contains(self.children@[i].0@),
    {
        let k = self.children@[i].0@;
        self.lemma_index(i);
        assert(seq![k].drop_first() =~= Seq::empty());
        assert(seq![k][0] == k);
        assert(self.children@[i].1.node(Seq::empty()) is Some);
    }

    /// The first child, if there is one.
    pub fn first_child(&self) -> (r: Option<&PathTrieNode<T>>)
        requires
            self.wf(),
        ensures
            (match r {
                Some(child) => child.wf() && exists|k: Seq<u8>| #[trigger]
                    self@.children().contains(k) && child@ == self@.at(seq![k]),
                None => self@.children() =~= Set::empty(),
            }),
    {
        if self.children.len() > 0 {
            proof {
                self.lemma_child(0);
                self.lemma_child_key(0);
            }
            Some(&self.children[0].1)
        } else {
            proof {
                assert forall|k: Seq<u8>| !#[trigger] self@.children().contains(k) by {
                    assert(seq![k][0] == k);
                    assert(self.index_of(k) is None);
                }
            }
            None
        }
    }

    /// Whether one of the children has children.
    pub fn has_grandchildren(&self) -> (r: bool)
        requires
            self.wf(),
        ensures
            r == exists|q: Seq<Seq<u8>>| #[trigger] self@.nodes.contains(q) && q.len() == 2,
    {
        let mut i: usize = 0;
        while i < self.children.len()
            invariant
                self.wf(),
                i <= self.children@.len(),
                forall|j: int|
                    0 <= j < i ==> (#[trigger] self.children@[j]).1.children@.len() == 0,
            decreases self.children.len() - i,
        {
            if self.children[i].1.children.len() > 0 {
                proof {
                    let child = self.children@[i as int].1;
                    let k = self.children@[i as int].0@;
                    let l = child.children@[0].0@;
                    assert(child.wf());
                    child.lemma_child_key(0);
                    self.lemma_index(i as int);
                    assert(seq![k, l].drop_first() =~= seq![l]);
                    assert(seq![k, l][0] == k);
                    assert(child.node(seq![l]) is Some);
                    assert(self@.nodes.contains(seq![k, l]));
                    assert(seq![k, l].len() == 2);
                }
                return true;
            }
            i = i + 1;
        }
        proof {
            assert forall|q: Seq<Seq<u8>>| q.len() == 2 implies !#[trigger] self@.nodes.contains(
                q,
            ) by {
                let k = q[0];
                let l = q[1];
                assert(q.drop_first() =~= seq![l]);
                if let Some(j) = self.index_of(k) {
                    let child = self.children@[j].1;
                    assert(self.children@[j].0@ == k);
                    assert(child.index_of(l) is None);
                    assert(seq![l][0] == l);
                    assert(child.node(seq![l]) is None);
                }
            }
        }
        false
    }
}

impl<T> TrieView<T> {
    /// The value of the root.
    pub open spec fn value(self) -> Option<T> {
        if self.values.contains_key(Seq::empty()) {
            Some(self.values[Seq::empty()])
        } else {
            None
        }
    }

    /// The names of the children of the root.
    pub open spec fn children(self) -> Set<Seq<u8>> {
        Set::new(|k: Seq<u8>| self.nodes.contains(seq![k]))
    }
}

impl<T> TrieView<T> {
    /// Whether there is a value at or below `q`.
    pub open spec fn holds(self, q: Seq<Seq<u8>>) -> bool {
        exists|p: Seq<Seq<u8>>| #[trigger] self.values.contains_key(p) && path::starts_with(p, q)
    }
}

/// `after` is `before` with everything below the depth `d` folded into the nodes at that depth: one
/// with a value at or below it has a default value of its own, and nothing below it.
pub open spec fn consolidated<V: Default>(
    before: TrieView<V>,
    after: TrieView<V>,
    d: int,
) -> bool {
    &&& forall|q: Seq<Seq<u8>>| #[trigger]
        after.nodes.contains(q) == (before.nodes.contains(q) && (q.len() <= d || !before.holds(
            q.take(d),
        )))
    &&& forall|q: Seq<Seq<u8>>| #[trigger]
        after.values.contains_key(q) == if q.len() < d {
            before.values.contains_key(q)
        } else {
            q.len() == d && before.holds(q)
        }
    &&& forall|q: Seq<Seq<u8>>| #[trigger]
        after.values.contains_key(q) ==> if q.len() < d {
            after.values[q] == before.values[q]
        } else {
            call_ensures(V::default, (), after.values[q])
        }
}

proof fn lemma_consolidated<V: Default>(before: PathTrieNode<V>, after: PathTrieNode<V>, d: int)
    requires
        d > 0,
        before.wf(),
        after.value == before.value,
        after.children@.len() == before.children@.len(),
        forall|i: int|
            0 <= i < before.children@.len() ==> {
                &&& (#[trigger] after.children@[i]).0 == before.children@[i].0
                &&& after.children@[i].1.wf()
                &&& consolidated(before.children@[i].1@, after.children@[i].1@, d - 1)
            },
    ensures
        after.wf(),
        consolidated(before@, after@, d),
{
    assert(after.wf());
    assert forall|q: Seq<Seq<u8>>|
        #![trigger after@.nodes.contains(q)]
        #![trigger after@.values.contains_key(q)]
        {
            &&& after@.nodes.contains(q) == (before@.nodes.contains(q) && (q.len() <= d
                || !before@.holds(q.take(d))))
            &&& after@.values.contains_key(q) == if q.len() < d {
                before@.values.contains_key(q)
            } else {
                q.len() == d && before@.holds(q)
            }
            &&& after@.values.contains_key(q) ==> if q.len() < d {
                after@.values[q] == before@.values[q]
            } else {
                call_ensures(V::default, (), after@.values[q])
            }
        } by {
        if q.len() == 0 {
            assert(after.node(q) == Some(after));
            assert(before.node(q) == Some(before));
        } else if let Some(i) = before.index_of(q[0]) {
            let key = q[0];
            let r = q.drop_first();
            before.lemma_index(i);
            assert(after.children@[i].0@ == key);
            after.lemma_index(i);
            let b = before.children@[i].1;
            let a = after.children@[i].1;
            assert(before.node(q) == b.node(r));
            assert(after.node(q) == a.node(r));
            assert forall|s: Seq<Seq<u8>>| before@.holds(seq![key] + s) == #[trigger] b@.holds(
                s,
            ) by {
                let t = seq![key] + s;
                if b@.holds(s) {
                    let p = choose|p: Seq<Seq<u8>>| #[trigger]
                        b@.values.contains_key(p) && path::starts_with(p, s);
                    let x = seq![key] + p;
                    assert(x.drop_first() =~= p);
                    assert(before.node(x) == b.node(p));
                    assert(before@.values.contains_key(x));
                    assert(x.take(t.len() as int) =~= seq![key] + p.take(s.len() as int));
                }
                if before@.holds(t) {
                    let x = choose|x: Seq<Seq<u8>>| #[trigger]
                        before@.values.contains_key(x) && path::starts_with(x, t);
                    assert(x[0] == x.take(t.len() as int)[0]);
                    assert(before.node(x) == b.node(x.drop_first()));
                    assert(b@.values.contains_key(x.drop_first()));
                    assert(x.drop_first().take(s.len() as int) =~= x.take(
                        t.len() as int,
                    ).drop_first());
                    assert(t.drop_first() =~= s);
                }
            }
            assert(q =~= seq![key] + r);
            assert(a@.nodes.contains(r) == (b@.nodes.contains(r) && (r.len() <= d - 1
                || !b@.holds(r.take(d - 1)))));
            assert(a@.values.contains_key(r) == if r.len() < d - 1 {
                b@.values.contains_key(r)
            } else {
                r.len() == d - 1 && b@.holds(r)
            });
            if q.len() > d {
                assert(q.take(d) =~= seq![key] + r.take(d - 1));
            }
        } else {
            if let Some(i) = after.index_of(q[0]) {
                assert(after.children@[i].0@ == q[0]);
                assert(before.children@[i].0@ == q[0]);
            }
            assert(before.node(q) is None);
            assert(after.node(q) is None);
            if q.len() == d && before@.holds(q) {
                let x = choose|x: Seq<Seq<u8>>| #[trigger]
                    before@.values.contains_key(x) && path::starts_with(x, q);
                assert(x[0] == x.take(q.len() as int)[0]);
                assert(before.node(x) is None);
            }
        }
    }
}

/// Consolidate all valued descendants of nodes at `target_depth` into
/// the node itself. Does not consolidate nodes at depth < `min_depth`.
pub fn consolidate_at_depth<V: Default>(
    node: &mut PathTrieNode<V>,
    current_depth: usize,
    target_depth: usize,
    min_depth: usize,
)
    requires
        old(node).wf(),
        call_requires(V::default, ()),
    ensures
        final(node).wf(),
        if current_depth <= target_depth && min_depth <= target_depth {
            consolidated(old(node)@, final(node)@, target_depth - current_depth)
        } else {
            final(node)@ == old(node)@
        },
    decreases *old(node),
{
    if current_depth > target_depth || min_depth > target_depth {
        return;
    }
    let ghost before = *node;
    if current_depth == target_depth {
        if node.count_values() > 0 {
            node.set_value(V::default());
            node.remove_children();
            proof {
                let root = Seq::<Seq<u8>>::empty();
                assert(before@.values.dom().len() > 0);
                let v = before@.values.dom().choose();
                assert(before@.values.dom().contains(v)) by {
                    if before@.values.dom() =~= Set::empty() {
                    }
                }
                assert forall|q: Seq<Seq<u8>>| q.len() == 0 implies q == root by {
                    assert(q =~= root);
                }
                assert(v.take(0) =~= root);
                assert(before@.holds(root));
                assert forall|q: Seq<Seq<u8>>| #[trigger] q.take(0) == root by {
                    assert(q.take(0) =~= root);
                }
                assert(before.node(root) is Some);
                assert(consolidated(before@, node@, 0));
            }
        } else {
            proof {
                assert(before@.values.dom().len() == 0);
                assert(before@.values.dom() =~= Set::empty());
                assert forall|p: Seq<Seq<u8>>| !#[trigger] before@.values.contains_key(p) by {
                    assert(!before@.values.dom().contains(p));
                }
                assert(consolidated(before@, node@, 0));
            }
        }
        return;
    }
    let d = Ghost(target_depth - current_depth);
    let mut i: usize = 0;
    while i < node.children.len()
        invariant
            i <= node.children@.len(),
            current_depth < target_depth,
            min_depth <= target_depth,
            d@ == target_depth - current_depth,
            call_requires(V::default, ()),
            before == *old(node),
            before.wf(),
            node.value == before.value,
            node.children@.len() == before.children@.len(),
            forall|j: int|
                0 <= j < i ==> {
                    &&& (#[trigger] node.children@[j]).0 == before.children@[j].0
                    &&& node.children@[j].1.wf()
                    &&& consolidated(before.children@[j].1@, node.children@[j].1@, d@ - 1)
                },
            forall|j: int|
                i <= j < before.children@.len() ==> #[trigger] node.children@[j]
                    == before.children@[j],
        decreases node.children@.len() - i,
    {
        assert(node.children@[i as int] == before.children@[i as int]);
        consolidate_at_depth(
            &mut node.children[i].1,
            current_depth + 1,
            target_depth,
            min_depth,
        );
        i = i + 1;
    }
    proof {
        lemma_consolidated(before, *node, d@);
    }
}

/// A tree of paths.
#[derive(Debug)]
pub struct PathTrie<T> {
    root: PathTrieNode<T>,
}

impl<T> View for PathTrie<T> {
    type V = TrieView<T>;

    closed spec fn view(&self) -> TrieView<T> {
        self.root@
    }
}

/// A path that is inserted has the value, and the nodes that lead to it are there. Nothing else
/// changes.
pub proof fn insert_adds_value<T>(t: TrieView<T>, p: Seq<Seq<u8>>, value: T)
    ensures
        ({
            let after = t.planted(p).graft(p, t.at(p).with_value(value));
            &&& after.values == t.values.insert(p, value)
            &&& after.nodes == t.planted(p).nodes
        }),
{
    let after = t.planted(p).graft(p, t.at(p).with_value(value));
    let n = p.len() as int;
    assert(p.take(n) =~= p);
    assert(p.skip(n) =~= Seq::empty());
    assert forall|q: Seq<Seq<u8>>| path::starts_with(q, p) implies p + #[trigger] q.skip(n) == q
        && (q.skip(n) == Seq::<Seq<u8>>::empty() ==> q == p) by {
        assert(p + q.skip(n) =~= q);
        if q.skip(n) == Seq::<Seq<u8>>::empty() {
            assert(q =~= p);
        }
    }
    assert forall|q: Seq<Seq<u8>>| path::starts_with(q, p) && path::starts_with(p, q) implies q
        == p by {
        assert(q.take(n) =~= q);
    }
    assert(after.values =~= t.values.insert(p, value));
    assert(after.nodes =~= t.planted(p).nodes);
}

impl<T> PathTrie<T> {
    pub closed spec fn wf(&self) -> bool {
        self.root.wf()
    }

    pub fn new() -> (trie: Self)
        ensures
            trie.wf(),
            trie@ == TrieView::<T>::leaf(None),
    {
        PathTrie { root: PathTrieNode::new() }
    }

    pub fn root(&self) -> (root: &PathTrieNode<T>)
        requires
            self.wf(),
        ensures
            root.wf(),
            root@ == self@,
    {
        &self.root
    }

    pub fn root_mut(&mut self) -> (root: &mut PathTrieNode<T>)
        requires
            old(self).wf(),
        ensures
            root.wf(),
            root@ == old(self)@,
            final(root).wf() ==> final(self).wf(),
            final(self)@ == final(root)@,
    {
        &mut self.root
    }

    /// Insert a path with the given value.
    pub fn insert(&mut self, path: &PathBuf, value: T) -> (node: &mut PathTrieNode<T>)
        requires
            old(self).wf(),
        ensures
            node.wf(),
            node@ == old(self)@.at(path@).with_value(value),
            final(node).wf() ==> final(self).wf() && final(self)@ == old(self)@.planted(
                path@,
            ).graft(path@, final(node)@),
    {
        assert(path@.skip(0) =~= path@);
        self.root.insert_below(path, 0, value)
    }

    /// Get the node associated with the given path.
    /// It may not have a value.
    pub fn get_node_mut(&mut self, path: &PathBuf) -> (r: Option<&mut PathTrieNode<T>>)
        requires
            old(self).wf(),
        ensures
            (match r {
                Some(node) => {
                    &&& old(self)@.nodes.contains(path@)
                    &&& node.wf()
                    &&& node@ == old(self)@.at(path@)
                    &&& final(node).wf() ==> final(self).wf() && final(self)@ == old(self)@.graft(
                        path@,
                        final(node)@,
                    )
                },
                None => {
                    &&& !old(self)@.nodes.contains(path@)
                    &&& final(self).wf()
                    &&& final(self)@ == old(self)@
                },
            }),
    {
        assert(path@.skip(0) =~= path@);
        self.root.descend_mut(path, 0)
    }

    /// The node at the first `n` components of `path`.
    fn get_node(&self, path: &PathBuf, n: usize) -> (r: Option<&PathTrieNode<T>>)
        requires
            self.wf(),
            n <= path@.len(),
        ensures
            (match r {
                Some(node) => {
                    &&& self@.nodes.contains(path@.take(n as int))
                    &&& node.wf()
                    &&& node@ == self@.at(path@.take(n as int))
                },
                None => !self@.nodes.contains(path@.take(n as int)),
            }),
    {
        let ghost p = path@.take(n as int);
        let mut current = &self.root;
        let mut i: usize = 0;
        proof {
            lemma_graft_all(self@, self@);
            assert(p.take(0) =~= Seq::empty());
            assert(self.root.node(Seq::empty()) is Some);
        }
        while i < n
            invariant
                i <= n <= path@.len(),
                p == path@.take(n as int),
                self.wf(),
                current.wf(),
                self@.nodes.contains(p.take(i as int)),
                current@ == self@.at(p.take(i as int)),
            decreases n - i,
        {
            let ghost here = p.take(i as int);
            let ghost key = path@[i as int];
            let ghost next = here.push(key);
            assert(p.take(i + 1) =~= next);
            assert(forall|q: Seq<Seq<u8>>| #[trigger] (next + q) == here + (seq![key] + q)) by {
                assert forall|q: Seq<Seq<u8>>| #[trigger] (next + q) == here + (seq![key] + q) by {
                    assert(next + q =~= here + (seq![key] + q));
                }
            }
            match current.get_child_index(path.component(i)) {
                Ok(idx) => {
                    proof {
                        current.lemma_child(idx as int);
                        current.lemma_index(idx as int);
                        let child = current.children@[idx as int].1;
                        assert(child.node(Seq::empty()) is Some);
                        assert(current@.at(seq![key]) =~= self@.at(next));
                        assert(self@.nodes.contains(next)) by {
                            assert(self@.at(next).nodes.contains(Seq::empty()));
                            assert(next + Seq::<Seq<u8>>::empty() =~= next);
                        }
                    }
                    current = &current.children[idx].1;
                },
                Err(idx) => {
                    proof {
                        current.lemma_absent(key, idx as int);
                        if self@.nodes.contains(p) {
                            let tail = p.skip(i as int);
                            assert(here + tail =~= p);
                            assert(current@.nodes.contains(tail));
                            assert(tail[0] == key);
                            assert(current.node(tail) is None);
                        }
                    }
                    return None;
                },
            }
            i = i + 1;
        }
        assert(p.take(i as int) =~= p);
        Some(current)
    }

    /// Get the node associated with the given path.
    /// It only returns if the node has a value.
    pub fn get(&self, path: &PathBuf) -> (r: Option<&PathTrieNode<T>>)
        requires
            self.wf(),
        ensures
            (match r {
                Some(node) => {
                    &&& self@.values.contains_key(path@)
                    &&& node.wf()
                    &&& node@ == self@.at(path@)
                },
                None => !self@.values.contains_key(path@),
            }),
    {
        assert(path@.take(path@.len() as int) =~= path@);
        self.get_valued(path, path.len())
    }

    /// The node at the first `n` components of `path`, if it has a value.
    fn get_valued(&self, path: &PathBuf, n: usize) -> (r: Option<&PathTrieNode<T>>)
        requires
            self.wf(),
            n <= path@.len(),
        ensures
            (match r {
                Some(node) => {
                    &&& self@.values.contains_key(path@.take(n as int))
                    &&& node.wf()
                    &&& node@ == self@.at(path@.take(n as int))
                },
                None => !self@.values.contains_key(path@.take(n as int)),
            }),
    {
        let ghost p = path@.take(n as int);
        assert(p + Seq::<Seq<u8>>::empty() =~= p);
        match self.get_node(path, n) {
            Some(node) => {
                proof {
                    assert(node.node(Seq::empty()) == Some(*node));
                    assert(node@.values.contains_key(Seq::empty()) == self@.values.contains_key(p));
                }
                if node.value.is_some() {
                    Some(node)
                } else {
                    None
                }
            },
            None => {
                assert(self@.values.contains_key(p) ==> self@.nodes.contains(p));
                None
            },
        }
    }

    /// Get the nearest ancestor of the given path that has a value, with its node.
    /// If the path itself has a value, it is returned.
    pub fn get_ancestor(&self, path: &PathBuf) -> (r: Option<(PathBuf, &PathTrieNode<T>)>)
        requires
            self.wf(),
        ensures
            (match r {
                Some((ancestor, node)) => {
                    &&& path::starts_with(path@, ancestor@)
                    &&& self@.values.contains_key(ancestor@)
                    &&& node.wf()
                    &&& node@ == self@.at(ancestor@)
                    &&& forall|n: int|
                        ancestor@.len() < n <= path@.len() ==> !self@.values.contains_key(
                            #[trigger] path@.take(n),
                        )
                },
                None => forall|n: int|
                    0 <= n <= path@.len() ==> !self@.values.contains_key(#[trigger] path@.take(n)),
            }),
    {
        let mut n: usize = path.len();
        loop
            invariant
                n <= path@.len(),
                self.wf(),
                forall|k: int|
                    n < k <= path@.len() ==> !self@.values.contains_key(#[trigger] path@.take(k)),
            decreases n,
        {
            if let Some(node) = self.get_valued(path, n) {
                let ancestor = path.prefix(n);
                assert(path@.take(ancestor@.len() as int) == ancestor@);
                return Some((ancestor, node));
            }
            if n == 0 {
                return None;
            }
            n = n - 1;
        }
    }

    /// The values of the tree, with their paths, in the order of the names.
    pub fn iter(&self) -> (entries: Vec<(PathBuf, &T)>)
        requires
            self.wf(),
        ensures
            lists(entry_views(entries@), self@),
    {
        self.root.descendants()
    }
}

} // verus!
