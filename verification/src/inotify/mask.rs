//! What a watch asks for, and what an event says.

use vstd::prelude::*;

verus! {

pub const ACCESS: u32 = 0x1;

pub const MODIFY: u32 = 0x2;

pub const ATTRIB: u32 = 0x4;

pub const CLOSE_WRITE: u32 = 0x8;

pub const CLOSE_NOWRITE: u32 = 0x10;

pub const OPEN: u32 = 0x20;

pub const MOVED_FROM: u32 = 0x40;

pub const MOVED_TO: u32 = 0x80;

pub const CREATE: u32 = 0x100;

pub const DELETE: u32 = 0x200;

pub const DELETE_SELF: u32 = 0x400;

pub const MOVE_SELF: u32 = 0x800;

pub const UNMOUNT: u32 = 0x2000;

pub const Q_OVERFLOW: u32 = 0x4000;

pub const IGNORED: u32 = 0x8000;

/// An add keeps what the watch asks for already.
pub const MASK_ADD: u32 = 0x20000000;

pub const ISDIR: u32 = 0x40000000;

/// What an event can say.
pub const ALL_EVENTS: u32 = ACCESS | MODIFY | ATTRIB | CLOSE_WRITE | CLOSE_NOWRITE | OPEN
    | MOVED_FROM | MOVED_TO | CREATE | DELETE | DELETE_SELF | MOVE_SELF | UNMOUNT | Q_OVERFLOW
    | IGNORED | ISDIR;

/// What the ancestors of a tracked path are watched for: only their entries coming and going.
pub const ENTRY_MASK: u32 = CREATE | DELETE | MOVED_FROM | MOVED_TO;

pub const FULL_MASK: u32 = ENTRY_MASK | ATTRIB | OPEN | CLOSE_WRITE | MODIFY;

pub const SELF_MASK: u32 = DELETE_SELF | MOVE_SELF;

/// What inotify reports whatever a watch asks for, besides the removal of the watch.
pub const UNMASKED_EVENTS: u32 = ISDIR | UNMOUNT;

/// Whether all of `part` is in `mask`.
pub open spec fn has(mask: u32, part: u32) -> bool {
    mask & part == part
}

/// Whether all of `part` is in `mask`.
pub fn contains(mask: u32, part: u32) -> (r: bool)
    ensures
        r == has(mask, part),
{
    mask & part == part
}

/// What an event says to a path that asked for `asked`.
pub open spec fn seen_of(event: u32, asked: u32) -> u32 {
    event & ((asked & ALL_EVENTS) | UNMASKED_EVENTS)
}

/// What an event says to a path that asked for `asked`.
pub fn seen(event: u32, asked: u32) -> (mask: u32)
    ensures
        mask == seen_of(event, asked),
{
    event & ((asked & ALL_EVENTS) | UNMASKED_EVENTS)
}

/// A path is told what it asked for, and no more but for what comes unasked.
pub proof fn seen_is_asked(event: u32, asked: u32, part: u32)
    requires
        has(seen_of(event, asked), part),
    ensures
        has(event, part),
        has(asked | UNMASKED_EVENTS, part),
{
    assert((event & ((asked & ALL_EVENTS) | UNMASKED_EVENTS)) & part == part ==> event & part
        == part && (asked | UNMASKED_EVENTS) & part == part) by (bit_vector);
}

/// What a watch for everything asks for, bit by bit.
pub proof fn lemma_full()
    ensures
        FULL_MASK == CREATE | DELETE | MOVED_FROM | MOVED_TO | ATTRIB | OPEN | CLOSE_WRITE | MODIFY,
        ENTRY_MASK == CREATE | DELETE | MOVED_FROM | MOVED_TO,
        SELF_MASK == DELETE_SELF | MOVE_SELF,
{
}

/// A watch for everything sees its entries come and go.
pub proof fn full_mask_holds_entry_mask(mask: u32)
    requires
        has(mask, FULL_MASK),
    ensures
        has(mask, ENTRY_MASK),
{
    assert(mask & FULL_MASK == FULL_MASK ==> mask & ENTRY_MASK == ENTRY_MASK) by (bit_vector);
}

/// The events and flags are those of inotify, bit by bit.
pub proof fn bits_are_those_of_inotify()
    ensures
        ACCESS == 0x1 && MODIFY == 0x2 && ATTRIB == 0x4 && CLOSE_WRITE == 0x8,
        CLOSE_NOWRITE == 0x10 && OPEN == 0x20 && MOVED_FROM == 0x40 && MOVED_TO == 0x80,
        CREATE == 0x100 && DELETE == 0x200 && DELETE_SELF == 0x400 && MOVE_SELF == 0x800,
        UNMOUNT == 0x2000 && Q_OVERFLOW == 0x4000 && IGNORED == 0x8000,
        MASK_ADD == 0x2000_0000 && ISDIR == 0x4000_0000,
        ALL_EVENTS == 0x4000_efff,
        ENTRY_MASK == 0x3c0,
        FULL_MASK == 0x3ee,
        SELF_MASK == 0xc00,
        UNMASKED_EVENTS == 0x4000_2000,
{
    assert(0x100u32 | 0x200 | 0x40 | 0x80 == 0x3c0) by (bit_vector);
    assert(0x3c0u32 | 0x4 | 0x20 | 0x8 | 0x2 == 0x3ee) by (bit_vector);
    assert(0x400u32 | 0x800 == 0xc00) by (bit_vector);
    assert(0x4000_0000u32 | 0x2000 == 0x4000_2000) by (bit_vector);
    assert(0x1u32 | 0x2 | 0x4 | 0x8 | 0x10 | 0x20 | 0x40 | 0x80 | 0x100 | 0x200 | 0x400 | 0x800
        | 0x2000 | 0x4000 | 0x8000 | 0x4000_0000 == 0x4000_efff) by (bit_vector);
}

} // verus!
