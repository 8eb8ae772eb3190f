//! Paths, as the sequence of their components.
//!
//! A component is kept as its text: `/` for the root of the file system, `.` and `..`, or a name.
//! Two texts that differ only in repeated separators, in a trailing one or in a `.` that is not
//! the first component are the same path.

use crate::order;
use crate::order::Side;
use vstd::prelude::*;

verus! {

pub const SEPARATOR: u8 = 0x2f;

pub const DOT: u8 = 0x2e;

/// The text of the component at the start of an absolute path.
pub open spec fn root_dir() -> Seq<u8> {
    seq![SEPARATOR]
}

pub open spec fn cur_dir() -> Seq<u8> {
    seq![DOT]
}

pub open spec fn parent_dir() -> Seq<u8> {
    seq![DOT, DOT]
}

/// What the separators of `text` leave between them.
pub open spec fn pieces(text: Seq<u8>) -> Seq<Seq<u8>>
    decreases text.len(),
{
    if text.len() == 0 {
        seq![Seq::empty()]
    } else {
        let before = pieces(text.drop_last());
        if text.last() == SEPARATOR {
            before.push(Seq::empty())
        } else {
            before.drop_last().push(before.last().push(text.last()))
        }
    }
}

/// Whether the piece at `index` is a component: an empty one is not, and a `.` only when it
/// comes first.
pub open spec fn is_component(piece: Seq<u8>, index: int) -> bool {
    piece.len() > 0 && (piece == cur_dir() ==> index == 0)
}

/// The components among the pieces of a text.
pub open spec fn kept(pieces: Seq<Seq<u8>>) -> Seq<Seq<u8>>
    decreases pieces.len(),
{
    if pieces.len() == 0 {
        Seq::empty()
    } else {
        let before = kept(pieces.drop_last());
        if is_component(pieces.last(), pieces.len() - 1) {
            before.push(pieces.last())
        } else {
            before
        }
    }
}

/// The path that `text` spells.
pub open spec fn components(text: Seq<u8>) -> Seq<Seq<u8>> {
    if text.len() > 0 && text[0] == SEPARATOR {
        seq![root_dir()] + kept(pieces(text))
    } else {
        kept(pieces(text))
    }
}

/// Whether `p` begins at the root of the file system.
pub open spec fn is_absolute(p: Seq<Seq<u8>>) -> bool {
    p.len() > 0 && p[0] == root_dir()
}

/// How many components the last ancestor of `p` has: the root of the file system, or nothing.
pub open spec fn floor(p: Seq<Seq<u8>>) -> int {
    if is_absolute(p) {
        1
    } else {
        0
    }
}

/// Whether a directory contains `p`: all but the root and the empty path.
pub open spec fn has_parent(p: Seq<Seq<u8>>) -> bool {
    p.len() > floor(p)
}

pub open spec fn parent(p: Seq<Seq<u8>>) -> Option<Seq<Seq<u8>>> {
    if has_parent(p) {
        Some(p.drop_last())
    } else {
        None
    }
}

/// Whether `p` is `q` or lies below it.
pub open spec fn starts_with(p: Seq<Seq<u8>>, q: Seq<Seq<u8>>) -> bool {
    q.len() <= p.len() && p.take(q.len() as int) == q
}

/// Whether `q` is one of the directories that contain `p`, near or far.
pub open spec fn lies_below(p: Seq<Seq<u8>>, q: Seq<Seq<u8>>) -> bool {
    &&& floor(p) <= q.len() < p.len()
    &&& p.take(q.len() as int) == q
}

/// `p` followed by the relative path `q`.
pub open spec fn joined(p: Seq<Seq<u8>>, q: Seq<Seq<u8>>) -> Seq<Seq<u8>> {
    if is_absolute(q) || p.len() == 0 {
        q
    } else if q.len() > 0 && q[0] == cur_dir() {
        p + q.drop_first()
    } else {
        p + q
    }
}

/// The text that spells `p`, with one separator between two components.
pub open spec fn rendered(p: Seq<Seq<u8>>) -> Seq<u8>
    decreases p.len(),
{
    if p.len() == 0 {
        Seq::empty()
    } else if p.len() == 1 {
        p[0]
    } else if p.len() == 2 && p[0] == root_dir() {
        p[0] + p[1]
    } else {
        rendered(p.drop_last()).push(SEPARATOR) + p.last()
    }
}

/// Whether `p` is what a text spells: the root and `.` come first only, and no component is empty
/// or holds a separator.
pub open spec fn is_spelled(p: Seq<Seq<u8>>) -> bool {
    forall|i: int|
        0 <= i < p.len() ==> {
            &&& (#[trigger] p[i]).len() > 0
            &&& p[i] == cur_dir() ==> i == 0
            &&& p[i] == root_dir() ==> i == 0
            &&& p[i] != root_dir() ==> !p[i].contains(SEPARATOR)
        }
}

pub proof fn lemma_pieces_name(text: Seq<u8>, name: Seq<u8>)
    requires
        !name.contains(SEPARATOR),
    ensures
        pieces(text + name) == pieces(text).drop_last().push(pieces(text).last() + name),
        pieces(text).len() > 0,
    decreases name.len(),
{
    lemma_pieces_some(text);
    if name.len() == 0 {
        assert(text + name =~= text);
        assert(pieces(text).last() + name =~= pieces(text).last());
        assert(pieces(text) =~= pieces(text).drop_last().push(pieces(text).last()));
    } else {
        let shorter = name.drop_last();
        assert(name.contains(name.last()));
        assert forall|b: u8| shorter.contains(b) implies name.contains(b) by {
            let i = choose|i: int| 0 <= i < shorter.len() && shorter[i] == b;
            assert(name[i] == b);
        }
        lemma_pieces_name(text, shorter);
        let all = text + name;
        assert(all.drop_last() =~= text + shorter);
        assert(all.last() == name.last());
        let before = pieces(text).drop_last().push(pieces(text).last() + shorter);
        assert(before.drop_last() =~= pieces(text).drop_last());
        assert(before.last().push(name.last()) =~= pieces(text).last() + name);
    }
}

pub proof fn lemma_pieces_some(text: Seq<u8>)
    ensures
        pieces(text).len() > 0,
    decreases text.len(),
{
    if text.len() > 0 {
        lemma_pieces_some(text.drop_last());
    }
}

/// The pieces of a rendered path are its components, with empty ones about the root.
proof fn lemma_rendered(p: Seq<Seq<u8>>)
    requires
        is_spelled(p),
        p.len() > 0,
    ensures
        is_absolute(p) <==> rendered(p)[0] == SEPARATOR,
        rendered(p).len() > 0,
        is_absolute(p) && p.len() == 1 ==> pieces(rendered(p)) == seq![
            Seq::<u8>::empty(),
            Seq::<u8>::empty(),
        ],
        is_absolute(p) && p.len() > 1 ==> pieces(rendered(p)) == seq![Seq::<u8>::empty()] + p.skip(
            1,
        ),
        !is_absolute(p) ==> pieces(rendered(p)) == p,
    decreases p.len(),
{
    let empty = Seq::<u8>::empty();
    assert(pieces(empty) == seq![empty]);
    if p.len() == 1 {
        if p[0] == root_dir() {
            assert(p[0].drop_last() =~= empty);
            assert(pieces(p[0]) =~= seq![empty, empty]);
        } else {
            lemma_pieces_name(empty, p[0]);
            assert(empty + p[0] =~= p[0]);
            assert(pieces(p[0]) =~= p);
            assert(p[0].contains(p[0][0]));
        }
    } else if p.len() == 2 && p[0] == root_dir() {
        assert(p[0].drop_last() =~= empty);
        assert(pieces(p[0]) =~= seq![empty, empty]);
        lemma_pieces_name(p[0], p[1]);
        assert(empty + p[1] =~= p[1]);
        assert(pieces(rendered(p)) =~= seq![empty] + p.skip(1));
    } else {
        let shorter = p.drop_last();
        assert(is_spelled(shorter)) by {
            assert forall|i: int| 0 <= i < shorter.len() implies #[trigger] shorter[i] == p[i] by {}
        }
        lemma_rendered(shorter);
        let text = rendered(shorter).push(SEPARATOR);
        assert(text.drop_last() =~= rendered(shorter));
        assert(p.last() != root_dir());
        lemma_pieces_name(text, p.last());
        assert(pieces(text) == pieces(rendered(shorter)).push(empty));
        assert(pieces(text).drop_last() =~= pieces(rendered(shorter)));
        assert(empty + p.last() =~= p.last());
        assert(pieces(rendered(p)) =~= pieces(rendered(shorter)).push(p.last()));
        if is_absolute(p) {
            assert(pieces(rendered(p)) =~= seq![empty] + p.skip(1));
        } else {
            assert(pieces(rendered(p)) =~= p);
        }
    }
}

proof fn lemma_kept(all: Seq<Seq<u8>>, from: int)
    requires
        0 <= from <= all.len(),
        forall|i: int| 0 <= i < from ==> (#[trigger] all[i]).len() == 0,
        forall|i: int| from <= i < all.len() ==> #[trigger] is_component(all[i], i),
    ensures
        kept(all) == all.skip(from),
    decreases all.len(),
{
    if all.len() > 0 {
        let shorter = all.drop_last();
        if from == all.len() {
            lemma_kept(shorter, from - 1);
            assert(all.last() == all[all.len() - 1]);
            assert(kept(all) =~= all.skip(from));
        } else {
            assert forall|i: int| from <= i < shorter.len() implies #[trigger] is_component(
                shorter[i],
                i,
            ) by {
                assert(is_component(all[i], i));
            }
            lemma_kept(shorter, from);
            assert(is_component(all[all.len() - 1], all.len() - 1));
            assert(shorter.skip(from).push(all.last()) =~= all.skip(from));
        }
    } else {
        assert(kept(all) =~= all.skip(from));
    }
}

/// The text that spells a path spells that path, if a text does at all.
pub proof fn parse_undoes_render(p: Seq<Seq<u8>>)
    requires
        is_spelled(p),
    ensures
        components(rendered(p)) == p,
{
    if p.len() == 0 {
        assert(pieces(rendered(p)) == seq![Seq::<u8>::empty()]);
        lemma_kept(pieces(rendered(p)), 1);
        assert(components(rendered(p)) =~= p);
    } else {
        lemma_rendered(p);
        let all = pieces(rendered(p));
        if is_absolute(p) {
            if p.len() == 1 {
                lemma_kept(all, 2);
                assert(components(rendered(p)) =~= p);
            } else {
                assert forall|i: int| 1 <= i < all.len() implies #[trigger] is_component(
                    all[i],
                    i,
                ) by {
                    assert(all[i] == p[i]);
                }
                lemma_kept(all, 1);
                assert(all.skip(1) =~= p.skip(1));
                assert(components(rendered(p)) =~= p);
            }
        } else {
            assert forall|i: int| 0 <= i < all.len() implies #[trigger] is_component(all[i], i) by {
                assert(all[i] == p[i]);
            }
            lemma_kept(all, 0);
            assert(all.skip(0) =~= p);
        }
    }
}

/// What a text spells is a path that a text spells.
pub proof fn components_are_spelled(text: Seq<u8>)
    ensures
        is_spelled(components(text)),
{
    lemma_pieces_parts(text);
    let all = pieces(text);
    lemma_kept_parts(all);
    let k = kept(all);
    let p = components(text);
    assert(root_dir().contains(SEPARATOR)) by {
        assert(root_dir()[0] == SEPARATOR);
    }
    if text.len() > 0 && text[0] == SEPARATOR {
        assert(cur_dir()[0] != root_dir()[0]);
        lemma_first_piece(text);
        assert forall|i: int| 0 <= i < p.len() implies {
            &&& (#[trigger] p[i]).len() > 0
            &&& p[i] == cur_dir() ==> i == 0
            &&& p[i] == root_dir() ==> i == 0
            &&& p[i] != root_dir() ==> !p[i].contains(SEPARATOR)
        } by {
            if i > 0 {
                assert(p[i] == k[i - 1]);
                if p[i] == cur_dir() && i == 1 {
                    assert(all[0].len() == 0);
                    assert(k[0] != cur_dir());
                }
            }
        }
    }
}

proof fn lemma_first_piece(text: Seq<u8>)
    requires
        text.len() > 0,
        text[0] == SEPARATOR,
    ensures
        pieces(text)[0].len() == 0,
        pieces(text).len() > 1,
    decreases text.len(),
{
    if text.len() == 1 {
        assert(text.drop_last() =~= Seq::empty());
        assert(pieces(text.drop_last()) == seq![Seq::<u8>::empty()]);
    } else {
        lemma_first_piece(text.drop_last());
    }
}

proof fn lemma_pieces_parts(text: Seq<u8>)
    ensures
        pieces(text).len() > 0,
        forall|i: int|
            0 <= i < pieces(text).len() ==> !(#[trigger] pieces(text)[i]).contains(SEPARATOR),
    decreases text.len(),
{
    if text.len() > 0 {
        lemma_pieces_parts(text.drop_last());
        let before = pieces(text.drop_last());
        let last = before.last();
        if text.last() != SEPARATOR {
            assert forall|b: u8| last.push(text.last()).contains(b) implies b == text.last()
                || last.contains(b) by {
                let i = choose|i: int|
                    0 <= i < last.push(text.last()).len() && last.push(text.last())[i] == b;
                if i < last.len() {
                    assert(last[i] == b);
                }
            }
        }
    }
}

proof fn lemma_kept_parts(all: Seq<Seq<u8>>)
    requires
        forall|i: int| 0 <= i < all.len() ==> !(#[trigger] all[i]).contains(SEPARATOR),
    ensures
        kept(all).len() <= all.len(),
        forall|i: int|
            0 <= i < kept(all).len() ==> {
                &&& (#[trigger] kept(all)[i]).len() > 0
                &&& !kept(all)[i].contains(SEPARATOR)
                &&& kept(all)[i] == cur_dir() ==> i == 0 && all[0] == cur_dir()
            },
    decreases all.len(),
{
    if all.len() > 0 {
        lemma_kept_parts(all.drop_last());
        let before = kept(all.drop_last());
        assert(!all[all.len() - 1].contains(SEPARATOR));
        if all.len() > 1 {
            assert(all.drop_last()[0] == all[0]);
        }
    }
}

pub open spec fn byte_order() -> spec_fn(u8, u8) -> bool {
    |a: u8, b: u8| a < b
}

/// The order of names by their bytes.
pub open spec fn name_before(a: Seq<u8>, b: Seq<u8>) -> bool {
    order::lex_lt(byte_order(), a, b)
}

/// The root comes before `.`, then `..`, then the names.
pub open spec fn rank(component: Seq<u8>) -> int {
    if component == root_dir() {
        0
    } else if component == cur_dir() {
        1
    } else if component == parent_dir() {
        2
    } else {
        3
    }
}

pub open spec fn component_order() -> spec_fn(Seq<u8>, Seq<u8>) -> bool {
    |a: Seq<u8>, b: Seq<u8>| rank(a) < rank(b) || (rank(a) == rank(b) && name_before(a, b))
}

/// The order of paths by their components.
pub open spec fn path_before(a: Seq<Seq<u8>>, b: Seq<Seq<u8>>) -> bool {
    order::lex_lt(component_order(), a, b)
}

pub open spec fn path_order() -> spec_fn(Seq<Seq<u8>>, Seq<Seq<u8>>) -> bool {
    |a: Seq<Seq<u8>>, b: Seq<Seq<u8>>| path_before(a, b)
}

/// The order of names is total.
pub proof fn name_order_is_total()
    ensures
        order::total_order(|a: Seq<u8>, b: Seq<u8>| name_before(a, b)),
{
    order::lemma_lex_total(byte_order());
    let f = |a: Seq<u8>, b: Seq<u8>| name_before(a, b);
    let g = |a: Seq<u8>, b: Seq<u8>| order::lex_lt(byte_order(), a, b);
    assert forall|a: Seq<u8>, b: Seq<u8>| #[trigger] f(a, b) == g(a, b) by {}
    assert forall|a: Seq<u8>| !#[trigger] f(a, a) by {
        assert(!g(a, a));
    }
}

pub proof fn component_order_is_total()
    ensures
        order::total_order(component_order()),
{
    name_order_is_total();
    let f = |a: Seq<u8>, b: Seq<u8>| name_before(a, b);
    let lt = component_order();
    assert forall|a: Seq<u8>| !#[trigger] lt(a, a) by {
        assert(!f(a, a));
    }
    assert forall|a: Seq<u8>, b: Seq<u8>| a != b implies (#[trigger] lt(a, b) || lt(b, a)) by {
        assert(f(a, b) || f(b, a));
    }
    assert forall|a: Seq<u8>, b: Seq<u8>, c: Seq<u8>|
        #[trigger] lt(a, b) && #[trigger] lt(b, c) implies lt(a, c) by {
        assert(f(a, b) && f(b, c) ==> f(a, c));
    }
}

/// The order of paths is total.
pub proof fn path_order_is_total()
    ensures
        order::total_order(path_order()),
{
    component_order_is_total();
    order::lemma_lex_total(component_order());
    let f = path_order();
    let g = |a: Seq<Seq<u8>>, b: Seq<Seq<u8>>| order::lex_lt(component_order(), a, b);
    assert forall|a: Seq<Seq<u8>>, b: Seq<Seq<u8>>| #[trigger] f(a, b) == g(a, b) by {}
    assert forall|a: Seq<Seq<u8>>| !#[trigger] f(a, a) by {
        assert(!g(a, a));
    }
}

/// In the order of paths, `p` comes first of what starts with it, and nothing else comes in
/// between.
pub proof fn below_is_contiguous(p: Seq<Seq<u8>>, y: Seq<Seq<u8>>, z: Seq<Seq<u8>>)
    requires
        starts_with(z, p),
    ensures
        z == p || path_before(p, z),
        path_before(p, y) && !starts_with(y, p) ==> path_before(z, y),
{
    component_order_is_total();
    order::lemma_lex_prefix(component_order(), p, y, z);
}

/// `starts_with` is transitive.
pub proof fn starts_with_transitive(a: Seq<Seq<u8>>, b: Seq<Seq<u8>>, c: Seq<Seq<u8>>)
    requires
        starts_with(a, b),
        starts_with(b, c),
    ensures
        starts_with(a, c),
{
    assert(a.take(c.len() as int) =~= a.take(b.len() as int).take(c.len() as int));
}

/// A path of the file system.
#[derive(Debug, PartialEq, Eq, Hash)]
pub struct PathBuf {
    components: Vec<Vec<u8>>,
}

impl View for PathBuf {
    type V = Seq<Seq<u8>>;

    closed spec fn view(&self) -> Seq<Seq<u8>> {
        self.components@.map_values(|c: Vec<u8>| c@)
    }
}

/// The views of a list of paths.
pub open spec fn views(paths: Seq<PathBuf>) -> Seq<Seq<Seq<u8>>> {
    paths.map_values(|p: PathBuf| p@)
}

pub proof fn lemma_views_push(paths: Seq<PathBuf>, path: PathBuf)
    ensures
        views(paths.push(path)) == views(paths).push(path@),
{
    assert(views(paths.push(path)) =~= views(paths).push(path@));
}

/// Those of `list` that are `wanted`.
pub open spec fn chosen(
    list: Seq<Seq<Seq<u8>>>,
    wanted: spec_fn(Seq<Seq<u8>>) -> bool,
) -> Seq<Seq<Seq<u8>>>
    decreases list.len(),
{
    if list.len() == 0 {
        list
    } else if wanted(list.last()) {
        chosen(list.drop_last(), wanted).push(list.last())
    } else {
        chosen(list.drop_last(), wanted)
    }
}

pub fn copy_name(name: &Vec<u8>) -> (copy: Vec<u8>)
    ensures
        copy@ == name@,
{
    let mut copy: Vec<u8> = Vec::new();
    let mut i: usize = 0;
    while i < name.len()
        invariant
            i <= name@.len(),
            copy@ == name@.take(i as int),
        decreases name.len() - i,
    {
        copy.push(name[i]);
        assert(name@.take(i + 1) =~= name@.take(i as int).push(name@[i as int]));
        i = i + 1;
    }
    assert(name@.take(i as int) =~= name@);
    copy
}

pub fn same_name(a: &Vec<u8>, b: &Vec<u8>) -> (same: bool)
    ensures
        same == (a@ == b@),
{
    if a.len() != b.len() {
        return false;
    }
    let mut i: usize = 0;
    while i < a.len()
        invariant
            a@.len() == b@.len(),
            i <= a@.len(),
            a@.take(i as int) == b@.take(i as int),
        decreases a.len() - i,
    {
        if a[i] != b[i] {
            return false;
        }
        assert(a@.take(i + 1) =~= a@.take(i as int).push(a@[i as int]));
        assert(b@.take(i + 1) =~= b@.take(i as int).push(b@[i as int]));
        i = i + 1;
    }
    assert(a@.take(i as int) =~= a@);
    assert(b@.take(i as int) =~= b@);
    true
}

/// How `a` stands to `b` in the order of names.
pub fn compare_names(a: &Vec<u8>, b: &Vec<u8>) -> (side: Side)
    ensures
        side == Side::Same <==> a@ == b@,
        side == Side::Below <==> name_before(a@, b@),
        side == Side::Above <==> name_before(b@, a@),
{
    proof {
        name_order_is_total();
        let f = |a: Seq<u8>, b: Seq<u8>| name_before(a, b);
        assert(!f(a@, a@));
        assert(f(a@, b@) && f(b@, a@) ==> f(a@, a@));
    }
    let mut i: usize = 0;
    while i < a.len() && i < b.len()
        invariant
            i <= a@.len(),
            i <= b@.len(),
            a@.take(i as int) == b@.take(i as int),
            !name_before(a@, a@),
            name_before(a@, b@) && name_before(b@, a@) ==> name_before(a@, a@),
        decreases a.len() - i,
    {
        if a[i] != b[i] {
            proof {
                order::lemma_lex_skip(byte_order(), a@, b@, i as int);
                order::lemma_lex_skip(byte_order(), b@, a@, i as int);
                assert(a@.skip(i as int)[0] == a@[i as int]);
                assert(b@.skip(i as int)[0] == b@[i as int]);
            }
            return if a[i] < b[i] { Side::Below } else { Side::Above };
        }
        assert(a@.take(i + 1) =~= a@.take(i as int).push(a@[i as int]));
        assert(b@.take(i + 1) =~= b@.take(i as int).push(b@[i as int]));
        i = i + 1;
    }
    proof {
        order::lemma_lex_skip(byte_order(), a@, b@, i as int);
        order::lemma_lex_skip(byte_order(), b@, a@, i as int);
    }
    if i < b.len() {
        Side::Below
    } else if i < a.len() {
        Side::Above
    } else {
        assert(a@.take(i as int) =~= a@);
        assert(b@.take(i as int) =~= b@);
        Side::Same
    }
}

fn rank_of(component: &Vec<u8>) -> (r: u8)
    ensures
        r == rank(component@),
{
    if component.len() == 1 && component[0] == SEPARATOR {
        assert(component@ =~= root_dir());
        0
    } else if component.len() == 1 && component[0] == DOT {
        assert(component@ =~= cur_dir());
        assert(component@[0] != root_dir()[0]);
        1
    } else if component.len() == 2 && component[0] == DOT && component[1] == DOT {
        assert(component@ =~= parent_dir());
        2
    } else {
        assert(component@.len() == 1 ==> component@[0] != root_dir()[0]);
        assert(component@.len() == 1 ==> component@[0] != cur_dir()[0]);
        assert(component@.len() == 2 ==> component@[0] != parent_dir()[0] || component@[1]
            != parent_dir()[1]);
        3
    }
}

fn compare_components(a: &Vec<u8>, b: &Vec<u8>) -> (side: Side)
    ensures
        side == Side::Same <==> a@ == b@,
        side == Side::Below <==> component_order()(a@, b@),
        side == Side::Above <==> component_order()(b@, a@),
{
    let ra: u8 = rank_of(a);
    let rb: u8 = rank_of(b);
    if ra < rb {
        Side::Below
    } else if rb < ra {
        Side::Above
    } else {
        compare_names(a, b)
    }
}

impl PathBuf {
    /// The path without components.
    pub fn new() -> (path: Self)
        ensures
            path@ == Seq::<Seq<u8>>::empty(),
    {
        let path = PathBuf { components: Vec::new() };
        assert(path@ =~= Seq::empty());
        path
    }

    pub fn len(&self) -> (n: usize)
        ensures
            n == self@.len(),
    {
        self.components.len()
    }

    /// The text of the component at `i`.
    pub fn component(&self, i: usize) -> (c: &Vec<u8>)
        requires
            i < self@.len(),
        ensures
            c@ == self@[i as int],
    {
        &self.components[i]
    }

    /// Whether the component at `i` is a name: not the root, `.` or `..`.
    pub fn is_name(&self, i: usize) -> (r: bool)
        requires
            i < self@.len(),
        ensures
            r == (rank(self@[i as int]) == 3),
    {
        rank_of(&self.components[i]) == 3
    }

    /// Adds a component.
    pub fn push(&mut self, component: Vec<u8>)
        ensures
            final(self)@ == old(self)@.push(component@),
    {
        self.components.push(component);
        assert(self@ =~= old(self)@.push(component@));
    }

    /// The path that `text` spells.
    pub fn parse(text: &[u8]) -> (path: Self)
        ensures
            path@ == components(text@),
    {
        let mut path = PathBuf::new();
        if text.len() > 0 && text[0] == SEPARATOR {
            let mut root: Vec<u8> = Vec::new();
            root.push(SEPARATOR);
            assert(root@ =~= root_dir());
            path.push(root);
        }
        let ghost start = path@;
        let mut piece: Vec<u8> = Vec::new();
        let mut first: bool = true;
        let mut i: usize = 0;
        assert(text@.take(0) =~= Seq::empty());
        assert(pieces(text@.take(0)).drop_last() =~= Seq::empty());
        assert(path@ =~= start + kept(pieces(text@.take(0)).drop_last()));
        assert(piece@ =~= pieces(text@.take(0)).last());
        while i < text.len()
            invariant
                i <= text@.len(),
                pieces(text@.take(i as int)).len() > 0,
                first == (pieces(text@.take(i as int)).len() == 1),
                piece@ == pieces(text@.take(i as int)).last(),
                path@ == start + kept(pieces(text@.take(i as int)).drop_last()),
            decreases text.len() - i,
        {
            let ghost before = pieces(text@.take(i as int));
            assert(text@.take(i + 1).drop_last() =~= text@.take(i as int));
            let b: u8 = text[i];
            if b == SEPARATOR {
                let done = piece;
                piece = Vec::new();
                proof {
                    assert(pieces(text@.take(i + 1)) =~= before.push(Seq::empty()));
                    assert(before.push(Seq::empty()).drop_last() =~= before);
                    assert(piece@ =~= pieces(text@.take(i + 1)).last());
                }
                Self::push_piece(&mut path, done, first, Ghost(start), Ghost(before));
                first = false;
            } else {
                piece.push(b);
                proof {
                    let after = before.drop_last().push(before.last().push(b));
                    assert(pieces(text@.take(i + 1)) =~= after);
                    assert(after.drop_last() =~= before.drop_last());
                }
            }
            i = i + 1;
        }
        assert(text@.take(i as int) =~= text@);
        Self::push_piece(&mut path, piece, first, Ghost(start), Ghost(pieces(text@)));
        assert(path@ =~= components(text@));
        path
    }

    fn push_piece(
        path: &mut PathBuf,
        piece: Vec<u8>,
        first: bool,
        Ghost(start): Ghost<Seq<Seq<u8>>>,
        Ghost(upto): Ghost<Seq<Seq<u8>>>,
    )
        requires
            upto.len() > 0,
            piece@ == upto.last(),
            first == (upto.len() == 1),
            old(path)@ == start + kept(upto.drop_last()),
        ensures
            final(path)@ == start + kept(upto),
    {
        let is_dot = piece.len() == 1 && piece[0] == DOT;
        assert(is_dot == (piece@ == cur_dir())) by {
            if is_dot {
                assert(piece@ =~= cur_dir());
            } else if piece@ == cur_dir() {
                assert(cur_dir()[0] == DOT);
            }
        }
        if piece.len() > 0 && (!is_dot || first) {
            path.push(piece);
            assert(path@ =~= start + kept(upto));
        }
    }

    /// Whether both are the same path.
    pub fn same(&self, other: &PathBuf) -> (same: bool)
        ensures
            same == (self@ == other@),
    {
        self.len() == other.len() && self.starts_with(other)
    }

    /// Whether the first `n` components are `other`.
    pub fn prefix_is(&self, n: usize, other: &PathBuf) -> (same: bool)
        requires
            n <= self@.len(),
        ensures
            same == (self@.take(n as int) == other@),
    {
        let same = n == other.len() && self.starts_with(other);
        assert(same == (self@.take(n as int) == other@));
        same
    }

    /// Whether the path is `other` or lies below it.
    pub fn starts_with(&self, other: &PathBuf) -> (r: bool)
        ensures
            r == starts_with(self@, other@),
            self@.len() == other@.len() ==> r == (self@ == other@),
    {
        if other.len() > self.len() {
            return false;
        }
        let mut i: usize = 0;
        while i < other.len()
            invariant
                i <= other@.len() <= self@.len(),
                self@.take(i as int) == other@.take(i as int),
            decreases other@.len() - i,
        {
            assert(self@.take(i + 1) =~= self@.take(i as int).push(self@[i as int]));
            assert(other@.take(i + 1) =~= other@.take(i as int).push(other@[i as int]));
            if !same_name(self.component(i), other.component(i)) {
                assert(self@.take(other@.len() as int)[i as int] == self@[i as int]);
                return false;
            }
            i = i + 1;
        }
        assert(other@.take(i as int) =~= other@);
        assert(self@.len() == other@.len() ==> self@.take(i as int) =~= self@);
        true
    }

    /// The text that spells the path.
    pub fn to_bytes(&self) -> (text: Vec<u8>)
        ensures
            text@ == rendered(self@),
    {
        let mut text: Vec<u8> = Vec::new();
        let mut i: usize = 0;
        assert(self@.take(0) =~= Seq::empty());
        assert(text@ =~= rendered(self@.take(0)));
        while i < self.len()
            invariant
                i <= self@.len(),
                text@ == rendered(self@.take(i as int)),
            decreases self@.len() - i,
        {
            let name = self.component(i);
            if i > 0 && !(i == 1 && self.floor() == 1) {
                text.push(SEPARATOR);
            }
            let ghost start = text@;
            let mut j: usize = 0;
            assert(start + name@.take(0) =~= start);
            while j < name.len()
                invariant
                    j <= name@.len(),
                    text@ == start + name@.take(j as int),
                decreases name.len() - j,
            {
                text.push(name[j]);
                assert(start + name@.take(j + 1) =~= (start + name@.take(j as int)).push(
                    name@[j as int],
                ));
                j = j + 1;
            }
            proof {
                assert(name@.take(j as int) =~= name@);
                let next = self@.take(i + 1);
                assert(next.drop_last() =~= self@.take(i as int));
                assert(next.last() == name@);
                assert(start + name@ =~= rendered(next)) by {
                    if i == 1 {
                        assert(self@.take(1) =~= seq![self@[0]]);
                    } else if i == 0 {
                        assert(start + name@ =~= name@);
                    }
                }
            }
            i = i + 1;
        }
        assert(self@.take(i as int) =~= self@);
        text
    }

    /// How the first `n` components of the path stand to `other` in the order of paths.
    pub fn compare_prefix(&self, n: usize, other: &PathBuf) -> (side: Side)
        requires
            n <= self@.len(),
        ensures
            side == Side::Same <==> self@.take(n as int) == other@,
            side == Side::Below <==> path_before(self@.take(n as int), other@),
            side == Side::Above <==> path_before(other@, self@.take(n as int)),
    {
        let ghost a = self@.take(n as int);
        let ghost b = other@;
        proof {
            path_order_is_total();
            let f = path_order();
            assert(!f(a, a));
            assert(f(a, b) && f(b, a) ==> f(a, a));
        }
        let mut i: usize = 0;
        while i < n && i < other.len()
            invariant
                i <= n <= self@.len(),
                i <= other@.len(),
                a == self@.take(n as int),
                b == other@,
                a.take(i as int) == b.take(i as int),
                !path_before(a, a),
                path_before(a, b) && path_before(b, a) ==> path_before(a, a),
            decreases n - i,
        {
            let side = compare_components(self.component(i), other.component(i));
            if side != Side::Same {
                proof {
                    order::lemma_lex_skip(component_order(), a, b, i as int);
                    order::lemma_lex_skip(component_order(), b, a, i as int);
                    assert(a.skip(i as int)[0] == self@[i as int]);
                    assert(b.skip(i as int)[0] == other@[i as int]);
                }
                return side;
            }
            assert(a.take(i + 1) =~= a.take(i as int).push(a[i as int]));
            assert(b.take(i + 1) =~= b.take(i as int).push(b[i as int]));
            i = i + 1;
        }
        proof {
            order::lemma_lex_skip(component_order(), a, b, i as int);
            order::lemma_lex_skip(component_order(), b, a, i as int);
        }
        if i < other.len() {
            Side::Below
        } else if i < n {
            Side::Above
        } else {
            assert(a.take(i as int) =~= a);
            assert(b.take(i as int) =~= b);
            Side::Same
        }
    }

    /// The path of the first `n` components.
    pub fn prefix(&self, n: usize) -> (path: PathBuf)
        requires
            n <= self@.len(),
        ensures
            path@ == self@.take(n as int),
    {
        let mut path = PathBuf::new();
        path.push_range(self, 0, n);
        assert(path@ =~= self@.take(n as int));
        path
    }

    /// Adds the components of `other` from `from` to `to`.
    fn push_range(&mut self, other: &PathBuf, from: usize, to: usize)
        requires
            from <= to <= other@.len(),
        ensures
            final(self)@ == old(self)@ + other@.subrange(from as int, to as int),
    {
        let ghost start = self@;
        let mut i: usize = from;
        assert(self@ =~= start + other@.subrange(from as int, i as int));
        while i < to
            invariant
                from <= i <= to <= other@.len(),
                self@ == start + other@.subrange(from as int, i as int),
            decreases to - i,
        {
            self.push(copy_name(other.component(i)));
            assert(self@ =~= start + other@.subrange(from as int, i + 1));
            i = i + 1;
        }
    }

    /// How many components the last ancestor of the path has.
    pub fn floor(&self) -> (n: usize)
        ensures
            n == floor(self@),
    {
        if self.len() > 0 {
            let first = self.component(0);
            if first.len() == 1 && first[0] == SEPARATOR {
                assert(first@ =~= root_dir());
                return 1;
            }
            assert(first@ != root_dir()) by {
                if first@ == root_dir() {
                    assert(root_dir()[0] == SEPARATOR);
                }
            }
        }
        0
    }

    pub fn is_absolute(&self) -> (r: bool)
        ensures
            r == is_absolute(self@),
    {
        self.floor() == 1
    }

    /// The directory that contains the path.
    pub fn parent(&self) -> (parent: Option<PathBuf>)
        ensures
            (match parent {
                Some(p) => has_parent(self@) && p@ == self@.drop_last(),
                None => !has_parent(self@),
            }),
    {
        if self.len() > self.floor() {
            let p = self.prefix(self.len() - 1);
            assert(p@ =~= self@.drop_last());
            Some(p)
        } else {
            None
        }
    }

    /// Whether `dir` is the directory that contains the path.
    pub fn parent_is(&self, dir: &PathBuf) -> (r: bool)
        ensures
            r == (parent(self@) == Some(dir@)),
    {
        if self.len() > self.floor() {
            let r = self.prefix_is(self.len() - 1, dir);
            assert(self@.take(self@.len() - 1) =~= self@.drop_last());
            r
        } else {
            false
        }
    }

    /// The path followed by `tail`, or `tail` alone when it is absolute.
    pub fn join(&self, tail: &PathBuf) -> (path: PathBuf)
        ensures
            path@ == joined(self@, tail@),
    {
        if tail.is_absolute() || self.len() == 0 {
            return tail.clone();
        }
        let mut path = self.clone();
        let from: usize = if tail.len() > 0 && rank_of(tail.component(0)) == 1 {
            1
        } else {
            0
        };
        path.push_range(tail, from, tail.len());
        assert(path@ =~= joined(self@, tail@));
        path
    }

    /// The path with `tail` added from its component `from` on.
    pub fn join_from(&self, tail: &PathBuf, from: usize) -> (path: PathBuf)
        requires
            from <= tail@.len(),
        ensures
            path@ == self@ + tail@.skip(from as int),
    {
        let mut path = self.clone();
        path.push_range(tail, from, tail.len());
        assert(path@ =~= self@ + tail@.skip(from as int));
        path
    }

    /// The entry `name` of the directory.
    pub fn entry(&self, name: &Vec<u8>) -> (path: PathBuf)
        ensures
            path@ == self@.push(name@),
    {
        let mut path = self.clone();
        path.push(copy_name(name));
        path
    }
}

impl Clone for PathBuf {
    fn clone(&self) -> (copy: PathBuf)
        ensures
            copy@ == self@,
    {
        let copy = self.prefix(self.len());
        assert(self@.take(self@.len() as int) =~= self@);
        copy
    }
}

/// A copy of a list of paths.
pub fn copy_paths(paths: &Vec<PathBuf>) -> (copy: Vec<PathBuf>)
    ensures
        views(copy@) == views(paths@),
{
    let mut copy: Vec<PathBuf> = Vec::new();
    let mut i: usize = 0;
    while i < paths.len()
        invariant
            i <= paths@.len(),
            copy@.len() == i,
            forall|j: int| 0 <= j < i ==> #[trigger] copy@[j]@ == paths@[j]@,
        decreases paths.len() - i,
    {
        copy.push(paths[i].clone());
        i = i + 1;
    }
    assert(views(copy@) =~= views(paths@));
    copy
}

/// Whether `paths` contains `path`.
pub fn contains_path(paths: &Vec<PathBuf>, path: &PathBuf) -> (r: bool)
    ensures
        r == views(paths@).contains(path@),
{
    let mut i: usize = 0;
    while i < paths.len()
        invariant
            i <= paths@.len(),
            forall|j: int| 0 <= j < i ==> #[trigger] views(paths@)[j] != path@,
        decreases paths.len() - i,
    {
        if paths[i].same(path) {
            assert(views(paths@)[i as int] == path@);
            return true;
        }
        i = i + 1;
    }
    false
}

} // verus!
