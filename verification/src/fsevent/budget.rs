//! How many paths all streams of the process may watch together.

use std::sync::atomic::{AtomicUsize, Ordering};
use vstd::prelude::*;

verus! {

/// A twelfth rather than a tenth of the descriptors: the edge also shifts with how many of them
/// the process already holds.
pub const DESCRIPTORS_PER_PATH: usize = 12;

/// The number of paths with `path_count` more, if that is within `budget`.
pub open spec fn combined(active: usize, path_count: usize, budget: usize) -> Option<usize> {
    if active + path_count <= budget {
        Some((active + path_count) as usize)
    } else {
        None
    }
}

/// The number of paths with `path_count` more, if that is within `budget`.
pub fn combine(active_path_count: usize, path_count: usize, budget: usize) -> (r: Option<usize>)
    ensures
        r == combined(active_path_count, path_count, budget),
{
    match active_path_count.checked_add(path_count) {
        Some(combined_path_count) => if combined_path_count <= budget {
            Some(combined_path_count)
        } else {
            None
        },
        None => None,
    }
}

/// `AtomicUsize::fetch_update` offers the value of the counter to a function, here one that adds
/// `path_count` as long as the sum is within `budget`. It returns the value that the function
/// changed, or the one for which it declined. What the counter holds is up to all threads.
#[verifier::external_body]
fn add_within(active_paths: &AtomicUsize, path_count: usize, budget: usize) -> (r: Result<
    usize,
    usize,
>)
    ensures
        (match r {
            Ok(before) => combined(before, path_count, budget) is Some,
            Err(before) => combined(before, path_count, budget) is None,
        }),
{
    active_paths.fetch_update(
        Ordering::Relaxed,
        Ordering::Relaxed,
        |active_path_count| combine(active_path_count, path_count, budget),
    )
}

/// `AtomicUsize::fetch_sub` takes `path_count` off the counter. What it held before is up to all
/// threads.
#[verifier::external_body]
fn take_off(active_paths: &AtomicUsize, path_count: usize)
    opens_invariants none
    no_unwind
{
    active_paths.fetch_sub(path_count, Ordering::Relaxed);
}

/// The paths of a live stream, counted among those of all streams until it is dropped.
#[derive(Debug)]
pub struct FseventsPathReservation<'a> {
    active_paths: &'a AtomicUsize,
    path_count: usize,
}

impl<'a> FseventsPathReservation<'a> {
    pub closed spec fn path_count(&self) -> usize {
        self.path_count
    }

    /// Counts `path_count` paths among the active ones, if all together are within `budget`.
    /// Otherwise says how many are active.
    pub fn acquire(active_paths: &'a AtomicUsize, path_count: usize, budget: usize) -> (r: Result<
        FseventsPathReservation<'a>,
        usize,
    >)
        ensures
            (match r {
                Ok(reservation) => reservation.path_count() == path_count && path_count <= budget,
                Err(active) => combined(active, path_count, budget) is None,
            }),
    {
        match add_within(active_paths, path_count, budget) {
            Ok(_) => Ok(FseventsPathReservation { active_paths, path_count }),
            Err(active) => Err(active),
        }
    }
}

impl<'a> Drop for FseventsPathReservation<'a> {
    fn drop(&mut self)
        opens_invariants none
        no_unwind
    {
        take_off(self.active_paths, self.path_count);
    }
}

/// How many paths the streams may watch when the process may open `soft_limit` descriptors.
pub open spec fn path_budget(soft_limit: Option<u64>) -> int {
    match soft_limit {
        Some(soft) => if soft <= usize::MAX {
            soft as int / DESCRIPTORS_PER_PATH as int
        } else {
            usize::MAX as int
        },
        None => usize::MAX as int,
    }
}

/// How many paths the streams may watch when the process may open `soft_limit` descriptors, or an
/// unknown number of them.
pub fn fsevents_path_budget(soft_limit: Option<u64>) -> (budget: usize)
    ensures
        budget == path_budget(soft_limit),
{
    match soft_limit {
        Some(soft) => if soft <= usize::MAX as u64 {
            soft as usize / DESCRIPTORS_PER_PATH
        } else {
            usize::MAX
        },
        None => usize::MAX,
    }
}

/// Whether there is a number of active paths beside which `path_count` more are too many.
pub open spec fn is_refusable(path_count: usize, soft_limit: Option<u64>) -> bool {
    exists|active: usize| #[trigger]
        combined(active, path_count, path_budget(soft_limit) as usize) is None
}

/// Counts the paths of a stream that is to be started among the active ones. Too many of them are
/// refused, with the number of the active ones.
pub fn reserve<'a>(
    active_paths: &'a AtomicUsize,
    path_count: usize,
    soft_limit: Option<u64>,
) -> (r: Result<FseventsPathReservation<'a>, usize>)
    ensures
        (match r {
            Ok(reservation) => reservation.path_count() == path_count && path_count <= path_budget(
                soft_limit,
            ),
            Err(active) => active + path_count > path_budget(soft_limit),
        }),
{
    FseventsPathReservation::acquire(active_paths, path_count, fsevents_path_budget(soft_limit))
}

} // verus!
