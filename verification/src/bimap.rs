//! A map that is looked up by either of two keys.

use std::collections::HashMap;
use std::fmt::Debug;
use std::hash::{BuildHasher, Hash, RandomState};
use vstd::prelude::*;

verus! {

broadcast use vstd::std_specs::hash::group_hash_axioms;

/// `HashMap::with_hasher` makes a map without entries, whatever hasher it is given.
pub assume_specification<K, V, S>[ HashMap::<K, V, S>::with_hasher ](
    hash_builder: S,
) -> (made: HashMap<K, V, S>)
    ensures
        made@ == (Map::<K, V>::empty()),
;

/// A clone of a `T` is the `T` it was made of.
pub open spec fn clones_are_equal<T: Clone>() -> bool {
    forall|a: T, b: T| #[trigger] cloned(a, b) ==> a == b
}

/// What both sides of the map hold.
#[verifier::ext_equal]
#[verifier::reject_recursive_types(L)]
#[verifier::reject_recursive_types(R)]
pub struct Sides<L, R, V> {
    pub left: Map<L, (R, V)>,
    pub right: Map<R, L>,
}

impl<L, R, V> Sides<L, R, V> {
    pub open spec fn empty() -> Self {
        Sides { left: Map::empty(), right: Map::empty() }
    }

    /// Each side leads to the other and back.
    pub open spec fn consistent(self) -> bool {
        &&& forall|l: L| #[trigger]
            self.left.contains_key(l) ==> {
                &&& self.right.contains_key(self.left[l].0)
                &&& self.right[self.left[l].0] == l
            }
        &&& forall|r: R| #[trigger]
            self.right.contains_key(r) ==> {
                &&& self.left.contains_key(self.right[r])
                &&& self.left[self.right[r]].0 == r
            }
    }

    /// Whether what `left` is bound to now can be let go of when it is bound to `right`.
    pub open spec fn can_insert(self, left: L, right: R, value: V) -> bool {
        if self.left.contains_key(left) {
            self.right.contains_key(self.left[left].0)
        } else {
            self.right.contains_key(right) ==> self.left.insert(left, (right, value)).contains_key(
                self.right[right],
            )
        }
    }

    /// `left` and `right` bound to each other: the entry of `left` makes way, else the one of
    /// `right`.
    pub open spec fn insert(self, left: L, right: R, value: V) -> Self {
        let bound = self.left.insert(left, (right, value));
        if self.left.contains_key(left) {
            Sides {
                left: bound,
                right: self.right.remove(self.left[left].0).insert(right, left),
            }
        } else if self.right.contains_key(right) {
            Sides {
                left: bound.remove(self.right[right]),
                right: self.right.insert(right, left),
            }
        } else {
            Sides { left: bound, right: self.right.insert(right, left) }
        }
    }

    /// The entry that makes way for `left` and `right`.
    pub open spec fn replaced(self, left: L, right: R, value: V) -> Option<(L, R, V)> {
        if self.left.contains_key(left) {
            let (old_right, old_value) = self.left[left];
            Some((self.right[old_right], old_right, old_value))
        } else if self.right.contains_key(right) {
            let old_left = self.right[right];
            Some((old_left, right, self.left.insert(left, (right, value))[old_left].1))
        } else {
            None
        }
    }

    pub open spec fn remove_by_left(self, left: L) -> Self {
        if self.left.contains_key(left) {
            Sides {
                left: self.left.remove(left),
                right: self.right.remove(self.left[left].0),
            }
        } else {
            self
        }
    }

    pub open spec fn remove_by_right(self, right: R) -> Self {
        if self.right.contains_key(right) {
            Sides {
                left: self.left.remove(self.right[right]),
                right: self.right.remove(right),
            }
        } else {
            self
        }
    }
}

/// An empty map is consistent.
pub proof fn empty_is_consistent<L, R, V>()
    ensures
        Sides::<L, R, V>::empty().consistent(),
{
}

/// Inserting keeps the sides consistent, unless `left` is bound to something else while `right`
/// is bound to another left: then only the entry of `left` makes way.
pub proof fn insert_keeps_consistent<L, R, V>(s: Sides<L, R, V>, left: L, right: R, value: V)
    requires
        s.consistent(),
        !(s.left.contains_key(left) && s.right.contains_key(right) && s.right[right] != left),
    ensures
        s.can_insert(left, right, value),
        s.insert(left, right, value).consistent(),
        s.insert(left, right, value).left[left] == (right, value),
        s.insert(left, right, value).right[right] == left,
{
}

/// Removing by either key keeps the sides consistent, and leaves neither key of the entry.
pub proof fn remove_keeps_consistent<L, R, V>(s: Sides<L, R, V>, left: L, right: R)
    requires
        s.consistent(),
    ensures
        s.remove_by_left(left).consistent(),
        s.remove_by_right(right).consistent(),
        s.left.contains_key(left) ==> !s.remove_by_left(left).right.contains_key(s.left[left].0),
        s.right.contains_key(right) ==> !s.remove_by_right(right).left.contains_key(s.right[right]),
{
}

/// An entry that is inserted takes the place of the one that had its left key, else of the one that
/// had its right key. That one is handed back, and all others stay.
pub proof fn insert_replaces_one<L, R, V>(s: Sides<L, R, V>, left: L, right: R, value: V)
    requires
        s.consistent(),
        !(s.left.contains_key(left) && s.right.contains_key(right) && s.right[right] != left),
    ensures
        ({
            let after = s.insert(left, right, value);
            let old = s.replaced(left, right, value);
            &&& s.left.contains_key(left) ==> old == Some((left, s.left[left].0, s.left[left].1))
            &&& !s.left.contains_key(left) && s.right.contains_key(right) ==> old == Some(
                (s.right[right], right, s.left[s.right[right]].1),
            )
            &&& !s.left.contains_key(left) && !s.right.contains_key(right) ==> old is None
            &&& forall|l: L|
                #![trigger after.left.contains_key(l)]
                l != left ==> (after.left.contains_key(l) <==> s.left.contains_key(l)
                    && s.left[l].0 != right)
            &&& forall|l: L|
                l != left && #[trigger] after.left.contains_key(l) ==> after.left[l] == s.left[l]
            &&& after.left.contains_key(left) && after.left[left] == (right, value)
            &&& after.right.contains_key(right) && after.right[right] == left
            &&& after.consistent()
        }),
{
    insert_keeps_consistent(s, left, right, value);
    let after = s.insert(left, right, value);
    assert forall|l: L|
        #![trigger after.left.contains_key(l)]
        l != left implies (after.left.contains_key(l) <==> s.left.contains_key(l) && s.left[l].0
        != right) by {
        if s.left.contains_key(l) && s.left[l].0 == right {
            assert(s.right[right] == l);
        }
        if s.right.contains_key(right) {
            assert(s.left.contains_key(s.right[right]));
        }
    }
}

/// Removing by either key removes the entry that has the key, and no other.
pub proof fn remove_removes_one<L, R, V>(s: Sides<L, R, V>, left: L, right: R)
    requires
        s.consistent(),
    ensures
        s.remove_by_left(left).left == s.left.remove(left),
        s.right.contains_key(right) ==> s.remove_by_right(right).left == s.left.remove(
            s.right[right],
        ),
        !s.right.contains_key(right) ==> s.remove_by_right(right) == s,
        s.remove_by_right(right).right == s.right.remove(right),
        s.left.contains_key(left) ==> s.remove_by_left(left).right == s.right.remove(
            s.left[left].0,
        ),
        !s.left.contains_key(left) ==> s.remove_by_left(left) == s,
{
    if !s.left.contains_key(left) {
        assert(s.left.remove(left) =~= s.left);
    }
    if !s.right.contains_key(right) {
        assert(s.right.remove(right) =~= s.right);
    }
}

/// Removing by either key of a new entry gives back the map before it.
pub proof fn remove_undoes_insert<L, R, V>(s: Sides<L, R, V>, left: L, right: R, value: V)
    requires
        !s.left.contains_key(left),
        !s.right.contains_key(right),
    ensures
        s.insert(left, right, value).remove_by_left(left) == s,
        s.insert(left, right, value).remove_by_right(right) == s,
{
    assert(s.insert(left, right, value).remove_by_left(left) =~= s);
    assert(s.insert(left, right, value).remove_by_right(right) =~= s);
}

/// A map from a left key to a right key and a value, which the right key finds too.
#[derive(Debug, Clone)]
#[verifier::reject_recursive_types(L)]
#[verifier::reject_recursive_types(R)]
#[verifier::reject_recursive_types(S)]
pub struct BiHashMap<L, R, V, S = RandomState> {
    left: HashMap<L, (R, V), S>,
    right: HashMap<R, L, S>,
}

impl<L, R, V, S> View for BiHashMap<L, R, V, S> {
    type V = Sides<L, R, V>;

    closed spec fn view(&self) -> Sides<L, R, V> {
        Sides { left: self.left@, right: self.right@ }
    }
}

/// The keys and the hasher are fit for a hash map.
pub open spec fn hashable<L, R, S>() -> bool {
    &&& vstd::std_specs::hash::obeys_key_model::<L>()
    &&& vstd::std_specs::hash::obeys_key_model::<R>()
    &&& vstd::std_specs::hash::builds_valid_hashers::<S>()
}

impl<L, R, V> BiHashMap<L, R, V, RandomState> {
    pub fn new() -> (map: Self)
        ensures
            map@ == Sides::<L, R, V>::empty(),
    {
        Self::default()
    }

    /// The entries, in no particular order.
    pub fn iter(&self) -> (entries: Vec<(&L, &R, &V)>)
        requires
            hashable::<L, R, RandomState>(),
        ensures
            entries@.len() == self@.left.len(),
            entries@.no_duplicates(),
            forall|i: int|
                0 <= i < entries@.len() ==> self@.left.contains_key(*(#[trigger] entries@[i]).0)
                    && self@.left[*entries@[i].0] == (*entries@[i].1, *entries@[i].2),
            forall|l: L| #[trigger]
                self@.left.contains_key(l) ==> exists|i: int|
                    0 <= i < entries@.len() && *(#[trigger] entries@[i]).0 == l,
    {
        let mut entries: Vec<(&L, &R, &V)> = Vec::new();
        for entry in it: self.left.iter()
            invariant
                it.seq().no_duplicates(),
                it.seq() == vstd::std_specs::iter::IteratorSpec::remaining(
                &vstd::std_specs::hash::spec_hash_map_iter(&self.left),
            ),
                entries@.len() == it.index(),
                forall|i: int|
                    0 <= i < entries@.len() ==> {
                        &&& (#[trigger] entries@[i]).0 == it.seq()[i].0
                        &&& entries@[i].1 == &it.seq()[i].1.0
                        &&& entries@[i].2 == &it.seq()[i].1.1
                    },
        {
            let (l, rv) = entry;
            entries.push((l, &rv.0, &rv.1));
        }
        proof {
            let v = vstd::std_specs::iter::IteratorSpec::remaining(
                &vstd::std_specs::hash::spec_hash_map_iter(&self.left),
            );
            assert(entries@.len() == v.len());
            assert forall|i: int, j: int|
                0 <= i < entries@.len() && 0 <= j < entries@.len() && i != j implies entries@[i]
                != entries@[j] by {
                assert(v[i] != v[j]);
                assert(self.left@[*v[i].0] == *v[i].1);
                assert(self.left@[*v[j].0] == *v[j].1);
            }
            assert forall|i: int| 0 <= i < entries@.len() implies self@.left.contains_key(
                *(#[trigger] entries@[i]).0,
            ) && self@.left[*entries@[i].0] == (*entries@[i].1, *entries@[i].2) by {
                assert(self.left@.contains_key(*v[i].0));
            }
            assert forall|l: L| #[trigger] self@.left.contains_key(l) implies exists|i: int|
                0 <= i < entries@.len() && *(#[trigger] entries@[i]).0 == l by {
                assert(v.contains((&l, &self.left@[l])));
                let i = choose|i: int| 0 <= i < v.len() && v[i] == (&l, &self.left@[l]);
                assert(*entries@[i].0 == l);
            }
        }
        entries
    }

    pub fn clear(&mut self)
        ensures
            final(self)@ == Sides::<L, R, V>::empty(),
    {
        self.left.clear();
        self.right.clear();
    }
}

impl<L, R, V, S> BiHashMap<L, R, V, S> where L: Eq + Hash, R: Eq + Hash, S: BuildHasher {
    pub fn contains_right(&self, right: &R) -> (r: bool)
        requires
            hashable::<L, R, S>(),
        ensures
            r == self@.right.contains_key(*right),
    {
        self.right.contains_key(right)
    }

    pub fn get_by_left(&self, left: &L) -> (r: Option<(&R, &V)>)
        requires
            hashable::<L, R, S>(),
        ensures
            (match r {
                Some((right, v)) => self@.left.contains_key(*left) && self@.left[*left] == (
                    *right,
                    *v,
                ),
                None => !self@.left.contains_key(*left),
            }),
    {
        match self.left.get(left) {
            Some(entry) => Some((&entry.0, &entry.1)),
            None => None,
        }
    }

    pub fn get_by_right(&self, right: &R) -> (r: Option<(&L, &V)>)
        requires
            hashable::<L, R, S>(),
            self@.right.contains_key(*right) ==> self@.left.contains_key(self@.right[*right]),
        ensures
            (match r {
                Some((left, v)) => {
                    &&& self@.right.contains_key(*right)
                    &&& *left == self@.right[*right]
                    &&& *v == self@.left[*left].1
                },
                None => !self@.right.contains_key(*right),
            }),
    {
        match self.right.get(right) {
            Some(left) => {
                let entry = self.left.get(left).unwrap();
                Some((left, &entry.1))
            },
            None => None,
        }
    }

    /// Binds `left` and `right` to each other, and returns the entry that makes way for it.
    pub fn insert(&mut self, left: L, right: R, value: V) -> (replaced: Option<(L, R, V)>) where
        L: Clone + Debug,
        R: Clone + Debug,

        requires
            hashable::<L, R, S>(),
            clones_are_equal::<L>(),
            clones_are_equal::<R>(),
            old(self)@.can_insert(left, right, value),
        ensures
            final(self)@ == old(self)@.insert(left, right, value),
            replaced == old(self)@.replaced(left, right, value),
    {
        let left_key = left.clone();
        let right_key = right.clone();
        assert(cloned(left, left_key) && cloned(right, right_key));
        if let Some((old_right, old_value)) = self.left.insert(left_key, (right_key, value)) {
            let old_left = self.right.remove(&old_right).unwrap();
            let right_key = right.clone();
            let left_key = left.clone();
            assert(cloned(left, left_key) && cloned(right, right_key));
            self.right.insert(right_key, left_key);
            Some((old_left, old_right, old_value))
        } else {
            let right_key = right.clone();
            assert(cloned(right, right_key));
            if let Some(old_left) = self.right.insert(right_key, left) {
                let (_, old_value) = self.left.remove(&old_left).unwrap();
                Some((old_left, right, old_value))
            } else {
                None
            }
        }
    }

    pub fn remove_by_left(&mut self, left: &L) -> (removed: Option<(R, V)>)
        requires
            hashable::<L, R, S>(),
        ensures
            final(self)@ == old(self)@.remove_by_left(*left),
            removed == (if old(self)@.left.contains_key(*left) {
                Some(old(self)@.left[*left])
            } else {
                None
            }),
    {
        let ghost before = self@;
        if let Some((right, value)) = self.left.remove(left) {
            self.right.remove(&right);
            Some((right, value))
        } else {
            assert(self@ =~= before);
            None
        }
    }

    pub fn remove_by_right(&mut self, right: &R) -> (removed: Option<(L, V)>)
        requires
            hashable::<L, R, S>(),
            old(self)@.right.contains_key(*right) ==> old(self)@.left.contains_key(
                old(self)@.right[*right],
            ),
        ensures
            final(self)@ == old(self)@.remove_by_right(*right),
            removed == (if old(self)@.right.contains_key(*right) {
                let left = old(self)@.right[*right];
                Some((left, old(self)@.left[left].1))
            } else {
                None
            }),
    {
        let ghost before = self@;
        if let Some(left) = self.right.remove(right) {
            let (_, value) = self.left.remove(&left).unwrap();
            Some((left, value))
        } else {
            assert(self@ =~= before);
            None
        }
    }
}

impl<L, R, V, S: Clone> BiHashMap<L, R, V, S> {
    pub fn with_hasher(hasher: S) -> (map: Self)
        ensures
            map@ == Sides::<L, R, V>::empty(),
    {
        BiHashMap {
            left: HashMap::with_hasher(hasher.clone()),
            right: HashMap::with_hasher(hasher),
        }
    }
}

impl<L, R, V, S: Default + Clone> Default for BiHashMap<L, R, V, S> {
    fn default() -> (map: Self)
        ensures
            map@ == Sides::<L, R, V>::empty(),
    {
        Self::with_hasher(S::default())
    }
}

} // verus!
