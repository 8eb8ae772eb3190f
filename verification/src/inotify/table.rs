//! What is watched: the roots, the handles of the paths, and the descriptors behind them.
//!
//! inotify watches inodes, not paths: a directory reached through more than one path (a symlink
//! and its target, a bind mount, a path through `..`), or a file with more than one link, gets one
//! descriptor, whichever path watches it. The first of these spellings is the one the descriptor
//! is bound to; the others are its aliases, each with the mask it asked for, and the kernel watches
//! the inode for all of them.

use crate::inotify::mask;
use crate::inotify::mask::{ENTRY_MASK, FULL_MASK};
use crate::path;
use crate::path::PathBuf;
use crate::path_map;
use crate::path_map::PathMap;
use crate::root;
use crate::root::{RootState, RootWatch};
use std::collections::HashMap;
use vstd::prelude::*;

verus! {

broadcast use vstd::std_specs::hash::group_hash_axioms;

/// The handle of a path: the descriptor of its inode, what the path asked for, and whether it is a
/// directory.
#[derive(Clone, Copy, Debug, PartialEq, Eq, Structural)]
pub struct Handle {
    pub w: i32,
    pub mask: u32,
    pub is_dir: bool,
}

/// Which file a path leads to: its device and inode.
#[derive(Clone, Copy, Debug, PartialEq, Eq, Structural)]
pub struct Inode {
    pub dev: u64,
    pub ino: u64,
}

/// A descriptor: the paths that have it, the one it is bound to first, and the inode it watches, as
/// the path it was first bound to found it.
#[verifier::ext_equal]
pub struct BoundView {
    pub spellings: Seq<Seq<Seq<u8>>>,
    pub inode: Inode,
}

/// The roots, the handles and the descriptors.
#[verifier::ext_equal]
pub struct TableView {
    pub roots: Map<Seq<Seq<u8>>, RootWatch>,
    pub handles: Map<Seq<Seq<u8>>, Handle>,
    pub bound: Map<i32, BoundView>,
    /// The paths that got a handle during the arm of a root, which drops them when it fails.
    pub armed: Option<Seq<Seq<Seq<u8>>>>,
}

/// `list` without `p`.
pub open spec fn without(list: Seq<Seq<Seq<u8>>>, p: Seq<Seq<u8>>) -> Seq<Seq<Seq<u8>>>
    decreases list.len(),
{
    if list.len() == 0 {
        list
    } else if list.last() == p {
        without(list.drop_last(), p)
    } else {
        without(list.drop_last(), p).push(list.last())
    }
}

/// What all of `spellings` ask for.
pub open spec fn asked_by(
    handles: Map<Seq<Seq<u8>>, Handle>,
    spellings: Seq<Seq<Seq<u8>>>,
) -> u32
    decreases spellings.len(),
{
    if spellings.len() == 0 {
        0
    } else {
        asked_by(handles, spellings.drop_last()) | handles[spellings.last()].mask
    }
}

impl TableView {
    pub open spec fn new() -> TableView {
        TableView {
            roots: Map::empty(),
            handles: Map::empty(),
            bound: Map::empty(),
            armed: None,
        }
    }

    /// A path has the handle of a descriptor exactly when it is one of its spellings, each path
    /// once; every descriptor has a spelling.
    pub open spec fn consistent(self) -> bool {
        &&& forall|p: Seq<Seq<u8>>| #[trigger]
            self.handles.contains_key(p) ==> self.bound.contains_key(self.handles[p].w)
                && self.bound[self.handles[p].w].spellings.contains(p)
        &&& forall|w: i32, p: Seq<Seq<u8>>|
            self.bound.contains_key(w) && #[trigger] self.bound[w].spellings.contains(p)
                ==> self.handles.contains_key(p) && self.handles[p].w == w
        &&& forall|w: i32| #[trigger]
            self.bound.contains_key(w) ==> self.bound[w].spellings.len() > 0
                && self.bound[w].spellings.no_duplicates()
    }

    pub open spec fn handle_at(self, p: Seq<Seq<u8>>) -> Option<Handle> {
        if self.handles.contains_key(p) {
            Some(self.handles[p])
        } else {
            None
        }
    }

    /// Every spelling that has the descriptor `w`, the one it is bound to first.
    pub open spec fn spellings(self, w: i32) -> Seq<Seq<Seq<u8>>> {
        if self.bound.contains_key(w) {
            self.bound[w].spellings
        } else {
            Seq::empty()
        }
    }

    /// What the kernel watches the inode of `w` for: what all of its spellings ask for.
    pub open spec fn kernel_mask(self, w: i32) -> u32 {
        asked_by(self.handles, self.spellings(w))
    }

    /// The handle of the descriptor `w` at `p`, which has none. The inode is that of a descriptor
    /// that no path has yet.
    pub open spec fn bind(
        self,
        w: i32,
        p: Seq<Seq<u8>>,
        mask: u32,
        is_dir: bool,
        inode: Inode,
    ) -> TableView {
        TableView {
            handles: self.handles.insert(p, Handle { w, mask, is_dir }),
            bound: self.bound.insert(
                w,
                BoundView {
                    spellings: self.spellings(w).push(p),
                    inode: if self.bound.contains_key(w) {
                        self.bound[w].inode
                    } else {
                        inode
                    },
                },
            ),
            armed: match self.armed {
                Some(armed) => Some(armed.push(p)),
                None => None,
            },
            ..self
        }
    }

    /// No handle at `p`. The next spelling of its descriptor takes it over.
    pub open spec fn unbind(self, p: Seq<Seq<u8>>) -> TableView {
        if self.handles.contains_key(p) {
            let w = self.handles[p].w;
            let left = without(self.spellings(w), p);
            TableView {
                handles: self.handles.remove(p),
                bound: if left.len() == 0 {
                    self.bound.remove(w)
                } else {
                    self.bound.insert(w, BoundView { spellings: left, ..self.bound[w] })
                },
                ..self
            }
        } else {
            self
        }
    }

    /// No handle of the descriptor `w`.
    pub open spec fn unbind_all(self, w: i32) -> TableView {
        TableView {
            handles: self.handles.remove_keys(self.spellings(w).to_set()),
            bound: self.bound.remove(w),
            ..self
        }
    }

    /// What the handle at `p` asks for is `mask`.
    pub open spec fn with_mask(self, p: Seq<Seq<u8>>, mask: u32) -> TableView {
        if self.handles.contains_key(p) {
            TableView {
                handles: self.handles.insert(p, Handle { mask, ..self.handles[p] }),
                ..self
            }
        } else {
            self
        }
    }

    pub open spec fn with_root(self, p: Seq<Seq<u8>>, root: RootWatch) -> TableView {
        TableView { roots: self.roots.insert(p, root), ..self }
    }

    pub open spec fn without_root(self, p: Seq<Seq<u8>>) -> TableView {
        TableView { roots: self.roots.remove(p), ..self }
    }

    /// The root at `p`, if there is one, is in the state `state`.
    pub open spec fn in_state(self, p: Seq<Seq<u8>>, state: RootState) -> TableView {
        TableView { roots: root::in_state(self.roots, p, state), ..self }
    }

    /// Whether a tracked root lies strictly below `p`.
    pub open spec fn leads_to_root(self, p: Seq<Seq<u8>>) -> bool {
        root::leads_to_root(self.roots, p)
    }

    /// Whether a root is right below `dir`.
    pub open spec fn is_parent_of_root(self, dir: Seq<Seq<u8>>) -> bool {
        root::is_parent_of_root(self.roots, dir)
    }

    /// Whether a root right below `dir` has no handle of its own: the directory reports it.
    pub open spec fn reports_root(self, dir: Seq<Seq<u8>>) -> bool {
        exists|r: Seq<Seq<u8>>| #[trigger]
            self.roots.contains_key(r) && path::parent(r) == Some(dir)
                && !self.handles.contains_key(r)
    }

    pub open spec fn is_below_recursive_root(self, p: Seq<Seq<u8>>) -> bool {
        root::is_below_recursive_root(self.roots, p)
    }

    /// Whether a root needs the handle at `p`, besides the tracked roots below it: `p` is a root, it
    /// lies below a recursive root, or a root right below it is reported by it, having no handle of
    /// its own.
    pub open spec fn is_handle_needed(self, p: Seq<Seq<u8>>) -> bool {
        self.roots.contains_key(p) || self.is_below_recursive_root(p) || self.reports_root(p)
    }

    /// The mask an ancestor of tracked roots needs: everything as the parent of a root, else only
    /// its entries.
    pub open spec fn chain_mask(self, dir: Seq<Seq<u8>>) -> u32 {
        if self.is_parent_of_root(dir) {
            FULL_MASK
        } else {
            ENTRY_MASK
        }
    }

    /// Whether events at `p` are reported: `p` or its parent is a root, or a root above is
    /// recursive.
    pub open spec fn is_watched_path(self, p: Seq<Seq<u8>>) -> bool {
        root::is_watched_path(self.roots, p)
    }
}

proof fn lemma_without(list: Seq<Seq<Seq<u8>>>, p: Seq<Seq<u8>>)
    ensures
        forall|q: Seq<Seq<u8>>| #[trigger]
            without(list, p).contains(q) <==> list.contains(q) && q != p,
        list.no_duplicates() ==> without(list, p).no_duplicates(),
        without(list, p).len() <= list.len(),
    decreases list.len(),
{
    if list.len() > 0 {
        let shorter = list.drop_last();
        lemma_without(shorter, p);
        let kept = without(shorter, p);
        assert forall|q: Seq<Seq<u8>>| list.contains(q) <==> shorter.contains(q) || q
            == list.last() by {
            if list.contains(q) {
                let i = choose|i: int| 0 <= i < list.len() && list[i] == q;
                if i < shorter.len() {
                    assert(shorter[i] == q);
                }
            }
            if shorter.contains(q) {
                let i = choose|i: int| 0 <= i < shorter.len() && shorter[i] == q;
                assert(list[i] == q);
            }
            assert(list[list.len() - 1] == list.last());
        }
        let all = kept.push(list.last());
        assert forall|q: Seq<Seq<u8>>| all.contains(q) <==> kept.contains(q) || q
            == list.last() by {
            if all.contains(q) {
                let i = choose|i: int| 0 <= i < all.len() && all[i] == q;
                if i < kept.len() {
                    assert(kept[i] == q);
                }
            }
            if kept.contains(q) {
                let i = choose|i: int| 0 <= i < kept.len() && kept[i] == q;
                assert(all[i] == q);
            }
            assert(all[kept.len() as int] == list.last());
        }
        if list.no_duplicates() {
            assert(shorter.no_duplicates());
            assert(!shorter.contains(list.last())) by {
                if shorter.contains(list.last()) {
                    let i = choose|i: int| 0 <= i < shorter.len() && shorter[i] == list.last();
                    assert(list[i] == list[list.len() - 1]);
                }
            }
            assert(all.no_duplicates()) by {
                assert forall|i: int, j: int| 0 <= i < all.len() && 0 <= j < all.len() && i
                    != j implies all[i] != all[j] by {
                    if i == kept.len() {
                        assert(kept.contains(kept[j]));
                    } else if j == kept.len() {
                        assert(kept.contains(kept[i]));
                    }
                }
            }
        }
    }
}

/// Binding a path without a handle keeps the table consistent.
pub proof fn bind_keeps_consistent(
    t: TableView,
    w: i32,
    p: Seq<Seq<u8>>,
    mask: u32,
    is_dir: bool,
    inode: Inode,
)
    requires
        t.consistent(),
        !t.handles.contains_key(p),
    ensures
        t.bind(w, p, mask, is_dir, inode).consistent(),
{
    let after = t.bind(w, p, mask, is_dir, inode);
    let old = t.spellings(w);
    let new = old.push(p);
    assert(!old.contains(p)) by {
        if t.bound.contains_key(w) && t.bound[w].spellings.contains(p) {
            assert(t.handles.contains_key(p));
        }
    }
    assert forall|q: Seq<Seq<u8>>| new.contains(q) <==> old.contains(q) || q == p by {
        if new.contains(q) {
            let i = choose|i: int| 0 <= i < new.len() && new[i] == q;
            if i < old.len() {
                assert(old[i] == q);
            }
        }
        if old.contains(q) {
            let i = choose|i: int| 0 <= i < old.len() && old[i] == q;
            assert(new[i] == q);
        }
        assert(new[old.len() as int] == p);
    }
    assert(new.no_duplicates()) by {
        assert forall|i: int, j: int| 0 <= i < new.len() && 0 <= j < new.len() && i != j implies new[i]
            != new[j] by {
            if i == old.len() {
                assert(old.contains(old[j]));
            } else if j == old.len() {
                assert(old.contains(old[i]));
            }
        }
    }
    assert forall|q: Seq<Seq<u8>>| #[trigger] after.handles.contains_key(q) implies after.bound.contains_key(
        after.handles[q].w,
    ) && after.bound[after.handles[q].w].spellings.contains(q) by {
        if q != p {
            assert(t.handles.contains_key(q));
            assert(t.bound[t.handles[q].w].spellings.contains(q));
        }
    }
    assert forall|v: i32, q: Seq<Seq<u8>>|
        after.bound.contains_key(v) && #[trigger] after.bound[v].spellings.contains(
            q,
        ) implies after.handles.contains_key(q) && after.handles[q].w == v by {
        if v == w {
            if q != p {
                assert(t.bound[w].spellings.contains(q));
            }
        } else {
            assert(t.bound[v].spellings.contains(q));
        }
    }
}

/// Unbinding a path keeps the table consistent.
pub proof fn unbind_keeps_consistent(t: TableView, p: Seq<Seq<u8>>)
    requires
        t.consistent(),
    ensures
        t.unbind(p).consistent(),
        !t.unbind(p).handles.contains_key(p),
{
    if t.handles.contains_key(p) {
        let after = t.unbind(p);
        let w = t.handles[p].w;
        let left = without(t.spellings(w), p);
        lemma_without(t.spellings(w), p);
        assert forall|q: Seq<Seq<u8>>| #[trigger]
            after.handles.contains_key(q) implies after.bound.contains_key(after.handles[q].w)
            && after.bound[after.handles[q].w].spellings.contains(q) by {
            assert(t.bound[t.handles[q].w].spellings.contains(q));
            if t.handles[q].w == w {
                assert(left.contains(q));
            }
        }
        assert forall|v: i32, q: Seq<Seq<u8>>|
            after.bound.contains_key(v) && #[trigger] after.bound[v].spellings.contains(
                q,
            ) implies after.handles.contains_key(q) && after.handles[q].w == v by {
            assert(t.bound[v].spellings.contains(q));
        }
    }
}

/// Dropping a descriptor keeps the table consistent.
pub proof fn unbind_all_keeps_consistent(t: TableView, w: i32)
    requires
        t.consistent(),
    ensures
        t.unbind_all(w).consistent(),
{
    let after = t.unbind_all(w);
    assert forall|q: Seq<Seq<u8>>| #[trigger]
        after.handles.contains_key(q) implies after.bound.contains_key(after.handles[q].w)
        && after.bound[after.handles[q].w].spellings.contains(q) by {
        assert(t.bound[t.handles[q].w].spellings.contains(q));
    }
    assert forall|v: i32, q: Seq<Seq<u8>>|
        after.bound.contains_key(v) && #[trigger] after.bound[v].spellings.contains(
            q,
        ) implies after.handles.contains_key(q) && after.handles[q].w == v by {
        assert(t.bound[v].spellings.contains(q));
        if t.spellings(w).contains(q) {
            assert(t.bound[w].spellings.contains(q));
        }
    }
}

/// Changing what a path asks for keeps the table consistent.
pub proof fn with_mask_keeps_consistent(t: TableView, p: Seq<Seq<u8>>, mask: u32)
    requires
        t.consistent(),
    ensures
        t.with_mask(p, mask).consistent(),
{
    let after = t.with_mask(p, mask);
    assert forall|q: Seq<Seq<u8>>| #[trigger]
        after.handles.contains_key(q) implies after.bound.contains_key(after.handles[q].w)
        && after.bound[after.handles[q].w].spellings.contains(q) by {
        assert(t.handles.contains_key(q));
    }
}

/// A path that is unbound right after it was bound leaves the table as it was.
pub proof fn unbind_undoes_bind(
    t: TableView,
    w: i32,
    p: Seq<Seq<u8>>,
    mask: u32,
    is_dir: bool,
    inode: Inode,
)
    requires
        t.consistent(),
        !t.handles.contains_key(p),
        t.armed is None,
    ensures
        t.bind(w, p, mask, is_dir, inode).unbind(p) == t,
{
    let bound = t.bind(w, p, mask, is_dir, inode);
    let old = t.spellings(w);
    assert(!old.contains(p)) by {
        if t.bound.contains_key(w) && t.bound[w].spellings.contains(p) {
            assert(t.handles.contains_key(p));
        }
    }
    lemma_without_absent(old, p);
    assert(old.push(p).drop_last() =~= old);
    assert(without(bound.spellings(w), p) == old);
    let after = bound.unbind(p);
    assert(after.handles =~= t.handles);
    assert(after.bound =~= t.bound);
}

proof fn lemma_without_absent(list: Seq<Seq<Seq<u8>>>, p: Seq<Seq<u8>>)
    requires
        !list.contains(p),
    ensures
        without(list, p) == list,
    decreases list.len(),
{
    if list.len() > 0 {
        assert(list[list.len() - 1] == list.last());
        assert forall|q: Seq<Seq<u8>>| list.drop_last().contains(q) implies list.contains(q) by {
            let i = choose|i: int| 0 <= i < list.drop_last().len() && list.drop_last()[i] == q;
            assert(list[i] == q);
        }
        lemma_without_absent(list.drop_last(), p);
        assert(list.drop_last().push(list.last()) =~= list);
    }
}

#[derive(Debug)]
struct Bound {
    spellings: Vec<PathBuf>,
    inode: Inode,
}

impl Bound {
    spec fn shown(self) -> BoundView {
        BoundView { spellings: path::views(self.spellings@), inode: self.inode }
    }
}

/// The roots, the handles and the descriptors.
#[derive(Debug)]
pub struct Table {
    roots: PathMap<RootWatch>,
    handles: PathMap<Handle>,
    bound: HashMap<i32, Bound>,
    armed: Option<Vec<PathBuf>>,
}

impl View for Table {
    type V = TableView;

    closed spec fn view(&self) -> TableView {
        TableView {
            roots: self.roots@,
            handles: self.handles@,
            bound: self.bound@.map_values(|b: Bound| b.shown()),
            armed: match self.armed {
                Some(armed) => Some(path::views(armed@)),
                None => None,
            },
        }
    }
}

/// `paths` without `path`.
fn leave_out(paths: &Vec<PathBuf>, path: &PathBuf) -> (left: Vec<PathBuf>)
    ensures
        path::views(left@) == without(path::views(paths@), path@),
{
    let ghost all = path::views(paths@);
    let mut left: Vec<PathBuf> = Vec::new();
    let mut i: usize = 0;
    assert(all.take(0) =~= Seq::empty());
    assert(path::views(left@) =~= without(all.take(0), path@));
    while i < paths.len()
        invariant
            i <= paths@.len(),
            all == path::views(paths@),
            path::views(left@) == without(all.take(i as int), path@),
        decreases paths.len() - i,
    {
        assert(all.take(i + 1).drop_last() =~= all.take(i as int));
        assert(all.take(i + 1).last() == paths@[i as int]@);
        if !paths[i].same(path) {
            let other = paths[i].clone();
            proof {
                path::lemma_views_push(left@, other);
            }
            left.push(other);
        }
        i = i + 1;
    }
    assert(all.take(i as int) =~= all);
    left
}

impl Table {
    pub closed spec fn wf(&self) -> bool {
        &&& self.roots.wf()
        &&& self.handles.wf()
        &&& self@.consistent()
    }

    /// The indexes of the table agree.
    pub proof fn lemma_consistent(&self)
        requires
            self.wf(),
        ensures
            self@.consistent(),
    {
    }

    pub fn new() -> (table: Table)
        ensures
            table.wf(),
            table@ == TableView::new(),
    {
        let table = Table {
            roots: PathMap::new(),
            handles: PathMap::new(),
            bound: HashMap::new(),
            armed: None,
        };
        assert(table@ =~= TableView::new());
        table
    }

    pub fn root(&self, path: &PathBuf) -> (root: Option<RootWatch>)
        requires
            self.wf(),
        ensures
            root == (if self@.roots.contains_key(path@) {
                Some(self@.roots[path@])
            } else {
                None
            }),
    {
        match self.roots.get(path) {
            Some(root) => Some(*root),
            None => None,
        }
    }

    /// The handle at `path`: the descriptor of its inode, and what `path` asked for.
    pub fn handle_at(&self, path: &PathBuf) -> (handle: Option<Handle>)
        requires
            self.wf(),
        ensures
            handle == self@.handle_at(path@),
    {
        match self.handles.get(path) {
            Some(handle) => Some(*handle),
            None => None,
        }
    }

    pub fn has_handle(&self, path: &PathBuf) -> (r: bool)
        requires
            self.wf(),
        ensures
            r == self@.handles.contains_key(path@),
    {
        self.handles.contains(path)
    }

    /// Whether a path has the descriptor `w`.
    pub fn is_bound(&self, w: i32) -> (r: bool)
        ensures
            r == self@.bound.contains_key(w),
    {
        self.bound.contains_key(&w)
    }

    /// The inode that `w` watches.
    pub fn inode(&self, w: i32) -> (inode: Option<Inode>)
        ensures
            inode == (if self@.bound.contains_key(w) {
                Some(self@.bound[w].inode)
            } else {
                None
            }),
    {
        match self.bound.get(&w) {
            Some(bound) => Some(bound.inode),
            None => None,
        }
    }

    /// Every spelling that has the descriptor `w`, the one it is bound to first.
    pub fn spellings(&self, w: i32) -> (spellings: Vec<PathBuf>)
        ensures
            path::views(spellings@) == self@.spellings(w),
    {
        match self.bound.get(&w) {
            Some(bound) => path::copy_paths(&bound.spellings),
            None => {
                let none: Vec<PathBuf> = Vec::new();
                assert(path::views(none@) =~= Seq::empty());
                none
            },
        }
    }

    /// What the kernel watches the inode of `w` for: what all of its spellings ask for.
    pub fn kernel_mask(&self, w: i32) -> (mask: u32)
        requires
            self.wf(),
        ensures
            mask == self@.kernel_mask(w),
    {
        let mut mask: u32 = 0;
        if let Some(bound) = self.bound.get(&w) {
            let ghost all = path::views(bound.spellings@);
            let mut i: usize = 0;
            assert(all.take(0) =~= Seq::empty());
            while i < bound.spellings.len()
                invariant
                    i <= bound.spellings@.len(),
                    all == path::views(bound.spellings@),
                    self.wf(),
                    self@.bound.contains_key(w),
                    self@.bound[w].spellings == all,
                    mask == asked_by(self@.handles, all.take(i as int)),
                decreases bound.spellings.len() - i,
            {
                proof {
                    assert(all.take(i + 1).drop_last() =~= all.take(i as int));
                    assert(all[i as int] == bound.spellings@[i as int]@);
                    assert(all.contains(all[i as int]));
                }
                match self.handles.get(&bound.spellings[i]) {
                    Some(handle) => {
                        mask = mask | handle.mask;
                    },
                    None => {},
                }
                i = i + 1;
            }
            assert(all.take(i as int) =~= all);
        }
        mask
    }

    /// Records the handle of the descriptor `w` at `path`, which has none: `path` is an alias when
    /// another spelling has the descriptor already.
    pub fn bind_handle(&mut self, w: i32, path: PathBuf, mask: u32, is_dir: bool, inode: Inode)
        requires
            old(self).wf(),
            !old(self)@.handles.contains_key(path@),
        ensures
            final(self).wf(),
            final(self)@ == old(self)@.bind(w, path@, mask, is_dir, inode),
    {
        let ghost p = path@;
        let ghost before = self@;
        let (mut spellings, inode_of_w) = match self.bound.remove(&w) {
            Some(bound) => (bound.spellings, bound.inode),
            None => (Vec::new(), inode),
        };
        proof {
            assert(path::views(spellings@) =~= before.spellings(w));
            path::lemma_views_push(spellings@, path);
        }
        spellings.push(path.clone());
        assert(path::views(spellings@) =~= before.spellings(w).push(p));
        self.bound.insert(w, Bound { spellings, inode: inode_of_w });
        let mut armed = self.armed.take();
        if let Some(mut list) = armed {
            proof {
                path::lemma_views_push(list@, path);
            }
            list.push(path.clone());
            assert(path::views(list@) =~= before.armed->0.push(p));
            armed = Some(list);
        }
        self.armed = armed;
        self.handles.insert(path, Handle { w, mask, is_dir });
        proof {
            bind_keeps_consistent(before, w, p, mask, is_dir, inode);
            assert(self@.bound =~= before.bind(w, p, mask, is_dir, inode).bound);
            assert(self@ =~= before.bind(w, p, mask, is_dir, inode));
        }
    }

    /// Forgets the handle at `path`. An alias of the handle takes it over.
    pub fn unbind_by_right(&mut self, path: &PathBuf)
        requires
            old(self).wf(),
        ensures
            final(self).wf(),
            final(self)@ == old(self)@.unbind(path@),
    {
        let ghost before = self@;
        proof {
            unbind_keeps_consistent(before, path@);
        }
        match self.handles.remove(path) {
            Some(handle) => {
                match self.bound.remove(&handle.w) {
                    Some(bound) => {
                        let left = leave_out(&bound.spellings, path);
                        if left.len() > 0 {
                            self.bound.insert(
                                handle.w,
                                Bound { spellings: left, inode: bound.inode },
                            );
                        }
                        assert(path::views(left@).len() == left@.len());
                    },
                    None => {},
                }
                assert(self@.bound =~= before.unbind(path@).bound);
                assert(self@ =~= before.unbind(path@));
            },
            None => {
                assert(self@ =~= before);
            },
        }
    }

    /// Forgets the descriptor `w` under every spelling.
    pub fn unbind_by_left(&mut self, w: i32)
        requires
            old(self).wf(),
        ensures
            final(self).wf(),
            final(self)@ == old(self)@.unbind_all(w),
    {
        let ghost before = self@;
        let ghost start = before.handles;
        proof {
            unbind_all_keeps_consistent(before, w);
        }
        if let Some(bound) = self.bound.remove(&w) {
            let ghost all = path::views(bound.spellings@);
            let mut i: usize = 0;
            assert(all.take(0).to_set() =~= Set::empty());
            assert(start.remove_keys(Set::empty()) =~= start);
            while i < bound.spellings.len()
                invariant
                    i <= bound.spellings@.len(),
                    all == path::views(bound.spellings@),
                    self.handles.wf(),
                    self.roots == old(self).roots,
                    self.armed == old(self).armed,
                    self.bound@ == old(self).bound@.remove(w),
                    self.handles@ == start.remove_keys(all.take(i as int).to_set()),
                decreases bound.spellings.len() - i,
            {
                self.handles.remove(&bound.spellings[i]);
                proof {
                    let next = all.take(i + 1);
                    assert(next =~= all.take(i as int).push(all[i as int]));
                    path_map::lemma_push_set(all.take(i as int), all[i as int]);
                    assert(self.handles@ =~= start.remove_keys(next.to_set()));
                }
                i = i + 1;
            }
            assert(all.take(i as int) =~= all);
            assert(all == before.spellings(w));
        } else {
            assert(before.spellings(w).to_set() =~= Set::empty());
            assert(start.remove_keys(Set::empty()) =~= start);
        }
        proof {
            assert(self@.bound =~= before.bound.remove(w));
            assert(self@ =~= before.unbind_all(w));
        }
    }

    /// Changes what the handle at `path` asks for.
    pub fn set_handle_mask(&mut self, path: &PathBuf, mask: u32)
        requires
            old(self).wf(),
        ensures
            final(self).wf(),
            final(self)@ == old(self)@.with_mask(path@, mask),
    {
        let ghost before = self@;
        proof {
            with_mask_keeps_consistent(before, path@, mask);
        }
        if let Some(handle) = self.handles.get(path) {
            let changed = Handle { mask, ..*handle };
            self.handles.insert(path.clone(), changed);
        }
        assert(self@ =~= before.with_mask(path@, mask));
    }

    /// Adds a root.
    pub fn insert_root(&mut self, path: PathBuf, root: RootWatch)
        requires
            old(self).wf(),
        ensures
            final(self).wf(),
            final(self)@ == old(self)@.with_root(path@, root),
    {
        self.roots.insert(path, root);
        assert(self@ =~= old(self)@.with_root(path@, root));
    }

    /// Removes a root.
    pub fn remove_root(&mut self, path: &PathBuf) -> (removed: Option<RootWatch>)
        requires
            old(self).wf(),
        ensures
            final(self).wf(),
            final(self)@ == old(self)@.without_root(path@),
            removed == (if old(self)@.roots.contains_key(path@) {
                Some(old(self)@.roots[path@])
            } else {
                None
            }),
    {
        let removed = self.roots.remove(path);
        assert(self@ =~= old(self)@.without_root(path@));
        removed
    }

    /// The root at `path`, if there is one, is in the state `state`.
    pub fn set_state(&mut self, path: &PathBuf, state: RootState)
        requires
            old(self).wf(),
        ensures
            final(self).wf(),
            final(self)@ == old(self)@.in_state(path@, state),
    {
        root::set_state(&mut self.roots, path, state);
        assert(self@ =~= old(self)@.in_state(path@, state));
    }

    /// The roots at and below `path`, in their order.
    pub fn roots_below(&self, path: &PathBuf) -> (roots: Vec<PathBuf>)
        requires
            self.wf(),
        ensures
            path::views(roots@) == path_map::at_and_below(self@.roots.dom(), path@),
            forall|i: int|
                0 <= i < roots@.len() ==> self@.roots.contains_key((#[trigger] roots@[i])@),
    {
        self.roots.keys_below(path)
    }

    /// The paths with a handle at and below `path`, in their order.
    pub fn handles_below(&self, path: &PathBuf) -> (paths: Vec<PathBuf>)
        requires
            self.wf(),
        ensures
            path::views(paths@) == path_map::at_and_below(self@.handles.dom(), path@),
            forall|i: int|
                0 <= i < paths@.len() ==> self@.handles.contains_key((#[trigger] paths@[i])@),
    {
        self.handles.keys_below(path)
    }

    /// Whether a tracked root lies strictly below `path`.
    pub fn leads_to_root(&self, path: &PathBuf) -> (r: bool)
        requires
            self.wf(),
        ensures
            r == self@.leads_to_root(path@),
    {
        root::has_tracked_below(&self.roots, path)
    }

    /// The tracked roots strictly below `path` that are missing, or those that are there, in their
    /// order.
    pub fn tracked_roots_below(&self, path: &PathBuf, missing: bool) -> (roots: Vec<PathBuf>)
        requires
            self.wf(),
        ensures
            path::views(roots@) == root::tracked_roots_below(self@.roots, path@, missing),
    {
        root::tracked_below(&self.roots, path, missing)
    }

    /// Whether a root right below `dir` has no handle of its own.
    fn has_dependent_file_root(&self, dir: &PathBuf) -> (r: bool)
        requires
            self.wf(),
        ensures
            r == self@.reports_root(dir@),
    {
        let (start, end) = self.roots.below(dir);
        proof {
            self.roots.lemma_entries();
        }
        let ghost keys = self.roots.keys();
        let mut i: usize = start;
        while i < end
            invariant
                self.wf(),
                start <= i <= end <= keys.len(),
                keys == self.roots.keys(),
                forall|k: int|
                    0 <= k < keys.len() ==> self.roots@.contains_key(#[trigger] keys[k]),
                forall|k: int|
                    0 <= k < keys.len() ==> (path::starts_with(#[trigger] keys[k], dir@) <==> start
                        <= k < end),
                forall|k: int|
                    start <= k < i ==> !(path::parent(#[trigger] keys[k]) == Some(dir@)
                        && !self@.handles.contains_key(keys[k])),
            decreases end - i,
        {
            let root = self.roots.key_at(i);
            if root.parent_is(dir) && !self.handles.contains(root) {
                assert(self@.roots.contains_key(keys[i as int]));
                return true;
            }
            i = i + 1;
        }
        proof {
            assert forall|r: Seq<Seq<u8>>| #[trigger] self@.roots.contains_key(r) && path::parent(r)
                == Some(dir@) implies self@.handles.contains_key(r) by {
                let k = choose|k: int| 0 <= k < keys.len() && #[trigger] keys[k] == r;
                assert(path::starts_with(keys[k], dir@)) by {
                    assert(r.take(dir@.len() as int) =~= r.drop_last());
                }
            }
        }
        false
    }

    pub fn is_below_recursive_root(&self, path: &PathBuf) -> (r: bool)
        requires
            self.wf(),
        ensures
            r == self@.is_below_recursive_root(path@),
    {
        root::has_recursive_above(&self.roots, path)
    }

    /// Whether a root needs the handle at `path`, besides the tracked roots below it: `path` is a
    /// root, it lies below a recursive root, or a root right below it is reported by it, having no
    /// handle of its own. A directory root reports its entries through its own handle: the handles
    /// of its entries are not its.
    pub fn is_handle_needed(&self, path: &PathBuf) -> (r: bool)
        requires
            self.wf(),
        ensures
            r == self@.is_handle_needed(path@),
    {
        self.roots.contains(path) || self.is_below_recursive_root(path)
            || self.has_dependent_file_root(path)
    }

    /// The mask an ancestor of tracked roots needs: everything as the parent of a root, else only
    /// its entries.
    pub fn chain_mask(&self, dir: &PathBuf) -> (mask: u32)
        requires
            self.wf(),
        ensures
            mask == self@.chain_mask(dir@),
    {
        if root::has_root_in(&self.roots, dir) {
            FULL_MASK
        } else {
            ENTRY_MASK
        }
    }

    /// Whether events at `path` are reported.
    pub fn is_watched_path(&self, path: &PathBuf) -> (r: bool)
        requires
            self.wf(),
        ensures
            r == self@.is_watched_path(path@),
    {
        root::reports(&self.roots, path)
    }

    /// Notes the paths that get a handle from now on.
    pub fn start_arm(&mut self)
        requires
            old(self).wf(),
        ensures
            final(self).wf(),
            final(self)@ == (TableView { armed: Some(Seq::empty()), ..old(self)@ }),
    {
        let none: Vec<PathBuf> = Vec::new();
        assert(path::views(none@) =~= Seq::empty());
        self.armed = Some(none);
        assert(self@ =~= TableView { armed: Some(Seq::empty()), ..old(self)@ });
    }

    /// The paths that got a handle since they are noted.
    pub fn take_armed(&mut self) -> (armed: Vec<PathBuf>)
        requires
            old(self).wf(),
        ensures
            final(self).wf(),
            final(self)@ == (TableView { armed: None, ..old(self)@ }),
            path::views(armed@) == (match old(self)@.armed {
                Some(armed) => armed,
                None => Seq::empty(),
            }),
    {
        let taken = self.armed.take();
        assert(self@ =~= TableView { armed: None, ..old(self)@ });
        match taken {
            Some(armed) => armed,
            None => {
                let none: Vec<PathBuf> = Vec::new();
                assert(path::views(none@) =~= Seq::empty());
                none
            },
        }
    }

    /// Forgets everything.
    pub fn clear(&mut self)
        requires
            old(self).wf(),
        ensures
            final(self).wf(),
            final(self)@ == (TableView { armed: old(self)@.armed, ..TableView::new() }),
    {
        self.roots.clear();
        self.handles.clear();
        self.bound.clear();
        assert(self@.bound =~= Map::empty());
        assert(self@ =~= TableView { armed: old(self)@.armed, ..TableView::new() });
    }
}

} // verus!
