//! How the tasks of an event loop end.

use crate::error::{Error, ErrorView};
use crate::root::RootState;
use vstd::prelude::*;

verus! {

/// How a task ended.
#[derive(Debug)]
pub enum Outcome<E> {
    Done,
    /// Whether the parent of a root is there.
    Reached(bool),
    /// What a root is, now that it is armed.
    Armed(RootState),
    Failed(E),
}

impl<E> Outcome<E> {
    /// What a root is found to be.
    pub open spec fn state(self) -> RootState {
        match self {
            Outcome::Armed(state) => state,
            _ => RootState::Missing,
        }
    }
}

pub open spec fn ended_with(outcome: Outcome<Error>) -> Outcome<ErrorView> {
    match outcome {
        Outcome::Done => Outcome::Done,
        Outcome::Reached(reached) => Outcome::Reached(reached),
        Outcome::Armed(state) => Outcome::Armed(state),
        Outcome::Failed(error) => Outcome::Failed(error@),
    }
}

} // verus!
