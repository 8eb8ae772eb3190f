//! How a path is watched.

use vstd::prelude::*;

verus! {

#[derive(Copy, Clone, Debug, PartialEq, Eq, Hash, Structural)]
pub enum RecursiveMode {
    /// Watch all sub-directories as well, including directories created after the watch.
    Recursive,
    /// Watch only the path and its direct entries.
    NonRecursive,
}

#[derive(Copy, Clone, Debug, PartialEq, Eq, Hash, Structural)]
pub enum TargetMode {
    /// Watch whatever is at the path, also when it is replaced or comes later.
    TrackPath,
    /// Watch what is at the path now.
    NoTrack,
}

#[derive(Copy, Clone, Debug, PartialEq, Eq, Hash, Structural)]
pub struct WatchMode {
    pub recursive_mode: RecursiveMode,
    pub target_mode: TargetMode,
}

impl WatchMode {
    pub open spec fn is_recursive(self) -> bool {
        self.recursive_mode == RecursiveMode::Recursive
    }

    pub open spec fn tracks_path(self) -> bool {
        self.target_mode == TargetMode::TrackPath
    }

    pub fn recursive(&self) -> (r: bool)
        ensures
            r == self.is_recursive(),
    {
        self.recursive_mode == RecursiveMode::Recursive
    }

    pub fn tracks(&self) -> (r: bool)
        ensures
            r == self.tracks_path(),
    {
        self.target_mode == TargetMode::TrackPath
    }

    /// The mode of a path that is watched in both modes.
    pub open spec fn both(a: WatchMode, b: WatchMode) -> WatchMode {
        WatchMode {
            recursive_mode: if a.is_recursive() || b.is_recursive() {
                RecursiveMode::Recursive
            } else {
                RecursiveMode::NonRecursive
            },
            target_mode: if a.tracks_path() || b.tracks_path() {
                TargetMode::TrackPath
            } else {
                TargetMode::NoTrack
            },
        }
    }

    /// Makes the mode watch what `other` watches too.
    pub fn upgrade_with(&mut self, other: WatchMode)
        ensures
            *final(self) == WatchMode::both(*old(self), other),
    {
        if other.recursive() {
            self.recursive_mode = RecursiveMode::Recursive;
        }
        if other.tracks() {
            self.target_mode = TargetMode::TrackPath;
        }
    }
}

/// A path that is watched in two modes is watched recursively if one of them is recursive, and
/// tracked if one of them tracks it.
pub proof fn both_modes_are_kept(a: WatchMode, b: WatchMode)
    ensures
        WatchMode::both(a, b).recursive_mode == RecursiveMode::Recursive <==> a.recursive_mode
            == RecursiveMode::Recursive || b.recursive_mode == RecursiveMode::Recursive,
        WatchMode::both(a, b).target_mode == TargetMode::TrackPath <==> a.target_mode
            == TargetMode::TrackPath || b.target_mode == TargetMode::TrackPath,
        WatchMode::both(a, b) == WatchMode::both(b, a),
        WatchMode::both(a, a) == a,
{
}

} // verus!
