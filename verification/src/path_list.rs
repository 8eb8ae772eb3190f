//! Lists of paths that are gone through.

use crate::path;
use crate::path::PathBuf;
use crate::queue::Queue;
use vstd::prelude::*;

verus! {

/// What is left of a list of paths.
pub open spec fn left(paths: Queue<PathBuf>) -> Seq<Seq<Seq<u8>>> {
    path::views(paths.rest())
}

/// Takes the first off a list of paths.
pub fn advance(paths: &mut Queue<PathBuf>)
    requires
        left(*old(paths)).len() > 0,
    ensures
        left(*final(paths)) == left(*old(paths)).drop_first(),
{
    paths.advance();
    assert(left(*paths) =~= left(*old(paths)).drop_first());
}

/// The first of a list of paths, and what is left of it.
pub fn take_first(paths: Queue<PathBuf>) -> (r: Option<(PathBuf, Queue<PathBuf>)>)
    ensures
        (match r {
            Some((first, rest)) => left(paths).len() > 0 && first@ == left(paths)[0] && left(rest)
                == left(paths).drop_first(),
            None => left(paths).len() == 0,
        }),
{
    let first = match paths.first() {
        Some(first) => first.clone(),
        None => {
            return None;
        },
    };
    let mut rest = paths;
    advance(&mut rest);
    Some((first, rest))
}

/// Those of `list` that are wanted.
pub(crate) fn chosen_paths<F>(
    list: &Vec<PathBuf>,
    keep: F,
    Ghost(wanted): Ghost<spec_fn(Seq<Seq<u8>>) -> bool>,
) -> (chosen: Vec<PathBuf>) where F: Fn(&PathBuf) -> bool
    requires
        forall|i: int|
            0 <= i < list@.len() ==> keep.requires((&#[trigger] list@[i],)),
        forall|i: int, r: bool|
            0 <= i < list@.len() && #[trigger] keep.ensures((&list@[i],), r) ==> r == wanted(
                list@[i]@,
            ),
    ensures
        path::views(chosen@) == path::chosen(path::views(list@), wanted),
{
    let ghost all = path::views(list@);
    let mut chosen: Vec<PathBuf> = Vec::new();
    let mut i: usize = 0;
    assert(all.take(0) =~= Seq::empty());
    assert(path::views(chosen@) =~= path::chosen(all.take(0), wanted));
    while i < list.len()
        invariant
            i <= list@.len(),
            all == path::views(list@),
            path::views(chosen@) == path::chosen(all.take(i as int), wanted),
            forall|i: int| 0 <= i < list@.len() ==> keep.requires((&#[trigger] list@[i],)),
            forall|i: int, r: bool|
                0 <= i < list@.len() && #[trigger] keep.ensures((&list@[i],), r) ==> r == wanted(
                    list@[i]@,
                ),
        decreases list.len() - i,
    {
        let kept = keep(&list[i]);
        assert(all.take(i + 1).drop_last() =~= all.take(i as int));
        assert(all.take(i + 1).last() == list@[i as int]@);
        if kept {
            let copy = list[i].clone();
            proof {
                path::lemma_views_push(chosen@, copy);
            }
            chosen.push(copy);
        }
        i = i + 1;
    }
    assert(all.take(i as int) =~= all);
    chosen
}

} // verus!
