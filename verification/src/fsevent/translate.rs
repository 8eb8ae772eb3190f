//! What the flags of an FSEvents event say.

use crate::event;
use crate::event::{
    CreateKind, DataChange, Event, EventKind, EventView, Flag, MetadataKind, ModifyKind, RemoveKind,
    RenameMode,
};
use vstd::prelude::*;

verus! {

pub const NONE: u32 = 0;

pub const MUST_SCAN_SUBDIRS: u32 = 0x1;

pub const USER_DROPPED: u32 = 0x2;

pub const KERNEL_DROPPED: u32 = 0x4;

pub const IDS_WRAPPED: u32 = 0x8;

pub const HISTORY_DONE: u32 = 0x10;

pub const ROOT_CHANGED: u32 = 0x20;

pub const MOUNT: u32 = 0x40;

pub const UNMOUNT: u32 = 0x80;

pub const ITEM_CREATED: u32 = 0x100;

pub const ITEM_REMOVED: u32 = 0x200;

pub const INODE_META_MOD: u32 = 0x400;

pub const ITEM_RENAMED: u32 = 0x800;

pub const ITEM_MODIFIED: u32 = 0x1000;

pub const FINDER_INFO_MOD: u32 = 0x2000;

pub const ITEM_CHANGE_OWNER: u32 = 0x4000;

pub const ITEM_XATTR_MOD: u32 = 0x8000;

pub const IS_FILE: u32 = 0x10000;

pub const IS_DIR: u32 = 0x20000;

pub const IS_SYMLINK: u32 = 0x40000;

pub const OWN_EVENT: u32 = 0x80000;

pub const IS_HARDLINK: u32 = 0x100000;

pub const IS_LAST_HARDLINK: u32 = 0x200000;

pub const ITEM_CLONED: u32 = 0x400000;

/// The flags that are known.
pub const ALL: u32 = 0x7fffff;

/// The flags of an event.
#[derive(Copy, Clone, Debug, PartialEq, Eq, Hash, Structural)]
pub struct StreamFlags {
    pub bits: u32,
}

impl StreamFlags {
    pub open spec fn has(self, flags: u32) -> bool {
        self.bits & flags == flags
    }

    pub open spec fn has_any(self, flags: u32) -> bool {
        self.bits & flags != 0
    }

    /// The flags that are known of `bits`.
    pub fn from_bits_truncate(bits: u32) -> (flags: StreamFlags)
        ensures
            flags.bits == bits & ALL,
    {
        StreamFlags { bits: bits & ALL }
    }

    /// Whether all of `flags` are set.
    pub fn contains(&self, flags: u32) -> (r: bool)
        ensures
            r == self.has(flags),
    {
        self.bits & flags == flags
    }

    /// Whether one of `flags` is set.
    pub fn intersects(&self, flags: u32) -> (r: bool)
        ensures
            r == self.has_any(flags),
    {
        self.bits & flags != 0
    }
}

/// What a `ROOT_CHANGED` event says about the root.
#[derive(Clone, Copy, Debug, PartialEq, Eq, Structural)]
pub enum RootChange {
    /// The root went: it is not there any more.
    Gone,
    /// The root is not there, and was not before either: it went already, or never was.
    StillGone,
    /// The root is back, a directory or a file.
    Present { is_dir: bool },
    /// The root is there, and there is nothing to report: its coming back was reported already,
    /// or the watch does not track the path.
    Reported,
}

/// `event` alone where `condition` holds, else nothing.
#[verifier::opaque]
pub open spec fn only_if(condition: bool, event: EventView) -> Seq<EventView> {
    if condition {
        seq![event]
    } else {
        Seq::empty()
    }
}

/// An event with what the flags say of every event: that it is about a clone, unless something
/// else is said of it, and that this process caused it.
pub open spec fn marked(flags: StreamFlags, process_id: u32, event: EventView) -> EventView {
    let event = if flags.has(ITEM_CLONED) && event.attrs.info is None {
        event.with_info("is: clone")
    } else {
        event
    };
    if flags.has(OWN_EVENT) {
        event.with_process_id(process_id)
    } else {
        event
    }
}

/// Events were dropped.
pub open spec fn rescan(flags: StreamFlags) -> EventView {
    let event = EventView::new(EventKind::Other).with_flag(Flag::Rescan);
    if flags.has(USER_DROPPED) {
        event.with_info("rescan: user dropped")
    } else if flags.has(KERNEL_DROPPED) {
        event.with_info("rescan: kernel dropped")
    } else {
        event
    }
}

/// The kind of the event for a root that is back.
pub open spec fn created_kind(is_dir: bool) -> EventKind {
    if is_dir {
        EventKind::Create(CreateKind::Folder)
    } else {
        EventKind::Create(CreateKind::File)
    }
}

/// How a root that is not there went.
pub open spec fn gone_kind(flags: StreamFlags) -> EventKind {
    if flags.has(ITEM_REMOVED) {
        if flags.has(IS_DIR) {
            EventKind::Remove(RemoveKind::Folder)
        } else if flags.has(IS_FILE) {
            EventKind::Remove(RemoveKind::File)
        } else {
            EventKind::Remove(RemoveKind::Any)
        }
    } else if flags.has(ITEM_RENAMED) {
        EventKind::Modify(ModifyKind::Name(RenameMode::From))
    } else {
        EventKind::Remove(RemoveKind::Any)
    }
}

/// What a change of the root is reported as. A root that is back is not reported when the flags
/// carry its own creation.
pub open spec fn root_event(flags: StreamFlags, root: Option<RootChange>) -> Option<EventView> {
    match root {
        Some(RootChange::Present { is_dir }) => if flags.has(ITEM_CREATED) {
            None
        } else {
            Some(EventView::new(created_kind(is_dir)).with_info("root changed"))
        },
        Some(RootChange::Reported) => None,
        Some(RootChange::StillGone) => None,
        Some(RootChange::Gone) => Some(
            EventView::new(gone_kind(flags)).with_info("root changed"),
        ),
        None => Some(EventView::new(gone_kind(flags)).with_info("root changed")),
    }
}

/// An event about an item, of one kind for each type of item.
pub open spec fn item_event(
    flags: StreamFlags,
    folder: EventKind,
    file: EventKind,
    other: EventKind,
    any: EventKind,
) -> EventView {
    if flags.has(IS_DIR) {
        EventView::new(folder)
    } else if flags.has(IS_FILE) {
        EventView::new(file)
    } else if flags.has(IS_SYMLINK) {
        EventView::new(other).with_info("is: symlink")
    } else if flags.has(IS_HARDLINK) {
        EventView::new(other).with_info("is: hardlink")
    } else if flags.has(ITEM_CLONED) {
        EventView::new(other).with_info("is: clone")
    } else {
        EventView::new(any)
    }
}

/// The item was created.
pub open spec fn created(flags: StreamFlags) -> EventView {
    item_event(
        flags,
        EventKind::Create(CreateKind::Folder),
        EventKind::Create(CreateKind::File),
        EventKind::Create(CreateKind::Other),
        EventKind::Create(CreateKind::Any),
    )
}

/// The item was removed.
pub open spec fn removed(flags: StreamFlags) -> EventView {
    item_event(
        flags,
        EventKind::Remove(RemoveKind::Folder),
        EventKind::Remove(RemoveKind::File),
        EventKind::Remove(RemoveKind::Other),
        EventKind::Remove(RemoveKind::Any),
    )
}

pub open spec fn metadata(kind: MetadataKind) -> EventView {
    EventView::new(EventKind::Modify(ModifyKind::Metadata(kind)))
}

/// What the flags of an event say, one event for each of them, before the marks.
#[verifier::opaque]
pub open spec fn said(
    flags: StreamFlags,
    root: Option<RootChange>,
    create_reported: bool,
) -> Seq<EventView> {
    let root_changed = flags.has(ROOT_CHANGED);
    Seq::empty() + only_if(flags.has(MUST_SCAN_SUBDIRS), rescan(flags)) + only_if(
        root_changed && root_event(flags, root) is Some,
        root_event(flags, root)->0,
    ) + only_if(
        flags.has(MOUNT),
        EventView::new(EventKind::Create(CreateKind::Other)).with_info("mount"),
    ) + only_if(
        flags.has(UNMOUNT),
        EventView::new(EventKind::Remove(RemoveKind::Other)).with_info("mount"),
    ) + only_if(flags.has(ITEM_CREATED) && !create_reported, created(flags)) + only_if(
        flags.has(ITEM_RENAMED) && !root_changed,
        EventView::new(EventKind::Modify(ModifyKind::Name(RenameMode::Any))),
    ) + only_if(flags.has(INODE_META_MOD), metadata(MetadataKind::Any)) + only_if(
        flags.has(FINDER_INFO_MOD),
        metadata(MetadataKind::Other).with_info("meta: finder info"),
    ) + only_if(flags.has(ITEM_CHANGE_OWNER), metadata(MetadataKind::Ownership)) + only_if(
        flags.has(ITEM_XATTR_MOD),
        metadata(MetadataKind::Extended),
    ) + only_if(
        flags.has(ITEM_MODIFIED),
        EventView::new(EventKind::Modify(ModifyKind::Data(DataChange::Content))),
    ) + only_if(flags.has(ITEM_REMOVED) && !root_changed, removed(flags))
}

/// What the flags of an event say.
///
/// The event that ends the history says nothing. Without `precise`, only that events were dropped
/// is told apart from what happened.
pub open spec fn translated(
    flags: StreamFlags,
    precise: bool,
    root: Option<RootChange>,
    create_reported: bool,
    process_id: u32,
) -> Seq<EventView> {
    if flags.has(HISTORY_DONE) {
        Seq::empty()
    } else if !precise {
        only_if(flags.has(MUST_SCAN_SUBDIRS), rescan(flags)).push(EventView::new(EventKind::Any))
    } else {
        said(flags, root, create_reported).map_values(
            |event: EventView| marked(flags, process_id, event),
        )
    }
}

pub proof fn lemma_said(
    flags: StreamFlags,
    process_id: u32,
    said: Seq<EventView>,
    condition: bool,
    event: EventView,
)
    ensures
        (said + only_if(condition, event)).map_values(
            |e: EventView| marked(flags, process_id, e),
        ) == said.map_values(|e: EventView| marked(flags, process_id, e)) + only_if(
            condition,
            marked(flags, process_id, event),
        ),
{
    reveal(only_if);
    assert((said + only_if(condition, event)).map_values(|e: EventView| marked(flags, process_id, e))
        =~= said.map_values(|e: EventView| marked(flags, process_id, e)) + only_if(
        condition,
        marked(flags, process_id, event),
    ));
}

proof fn lemma_only_if(condition: bool, event: EventView)
    ensures
        only_if(condition, event).len() == (if condition {
            1nat
        } else {
            0
        }),
{
    reveal(only_if);
}

/// 1 where all of `flags` are set in `bits`, else 0.
#[verifier::opaque]
spec fn ones(bits: u32, flags: u32) -> nat {
    if bits & flags == flags {
        1
    } else {
        0
    }
}

/// How many events `said` holds for a root that is gone and a creation that was not reported.
proof fn lemma_said_len(flags: StreamFlags)
    ensures
        said(flags, None, false).len() == ones(flags.bits, MUST_SCAN_SUBDIRS) + ones(
            flags.bits,
            MOUNT,
        ) + ones(flags.bits, UNMOUNT) + ones(flags.bits, ITEM_CREATED) + ones(
            flags.bits,
            INODE_META_MOD,
        ) + ones(flags.bits, FINDER_INFO_MOD) + ones(flags.bits, ITEM_CHANGE_OWNER) + ones(
            flags.bits,
            ITEM_XATTR_MOD,
        ) + ones(flags.bits, ITEM_MODIFIED) + if flags.has(ROOT_CHANGED) {
            1
        } else {
            ones(flags.bits, ITEM_RENAMED) + ones(flags.bits, ITEM_REMOVED)
        },
{
    reveal(said);
    reveal(ones);
    assert forall|condition: bool, event: EventView| (#[trigger] only_if(condition, event)).len()
        == if condition {
        1nat
    } else {
        0
    } by {
        lemma_only_if(condition, event);
    }
}

/// What is said of another root, or of a creation that was reported, is no more than that.
proof fn lemma_said_at_most(flags: StreamFlags, root: Option<RootChange>, create_reported: bool)
    ensures
        said(flags, root, create_reported).len() <= said(flags, None, false).len(),
        root == Some(RootChange::Gone) && !create_reported ==> said(flags, root, create_reported)
            == said(flags, None, false),
{
    reveal(said);
    assert forall|condition: bool, event: EventView| (#[trigger] only_if(condition, event)).len()
        == if condition {
        1nat
    } else {
        0
    } by {
        lemma_only_if(condition, event);
    }
}

fn one(flags: &StreamFlags, flag: u32) -> (n: usize)
    ensures
        n == ones(flags.bits, flag),
        n <= 1,
{
    reveal(ones);
    if flags.contains(flag) {
        1
    } else {
        0
    }
}

fn rescan_event(flags: &StreamFlags) -> (event: Event)
    ensures
        event@ == rescan(*flags),
{
    let event = Event::new(EventKind::Other).set_flag(Flag::Rescan);
    if flags.contains(USER_DROPPED) {
        event.set_info("rescan: user dropped")
    } else if flags.contains(KERNEL_DROPPED) {
        event.set_info("rescan: kernel dropped")
    } else {
        event
    }
}

fn item(
    flags: &StreamFlags,
    folder: EventKind,
    file: EventKind,
    other: EventKind,
    any: EventKind,
) -> (event: Event)
    ensures
        event@ == item_event(*flags, folder, file, other, any),
{
    if flags.contains(IS_DIR) {
        Event::new(folder)
    } else if flags.contains(IS_FILE) {
        Event::new(file)
    } else if flags.contains(IS_SYMLINK) {
        Event::new(other).set_info("is: symlink")
    } else if flags.contains(IS_HARDLINK) {
        Event::new(other).set_info("is: hardlink")
    } else if flags.contains(ITEM_CLONED) {
        Event::new(other).set_info("is: clone")
    } else {
        Event::new(any)
    }
}

fn metadata_event(kind: MetadataKind) -> (event: Event)
    ensures
        event@ == metadata(kind),
{
    Event::new(EventKind::Modify(ModifyKind::Metadata(kind)))
}

fn changed_root(flags: &StreamFlags, root: Option<RootChange>) -> (event: Option<Event>)
    ensures
        (match event {
            Some(event) => root_event(*flags, root) == Some(event@),
            None => root_event(*flags, root) is None,
        }),
{
    match root {
        Some(RootChange::Present { is_dir }) => {
            if flags.contains(ITEM_CREATED) {
                None
            } else {
                let kind = if is_dir {
                    CreateKind::Folder
                } else {
                    CreateKind::File
                };
                Some(Event::new(EventKind::Create(kind)).set_info("root changed"))
            }
        },
        Some(RootChange::Reported) => None,
        Some(RootChange::StillGone) => None,
        _ => {
            let kind = if flags.contains(ITEM_REMOVED) {
                if flags.contains(IS_DIR) {
                    EventKind::Remove(RemoveKind::Folder)
                } else if flags.contains(IS_FILE) {
                    EventKind::Remove(RemoveKind::File)
                } else {
                    EventKind::Remove(RemoveKind::Any)
                }
            } else if flags.contains(ITEM_RENAMED) {
                EventKind::Modify(ModifyKind::Name(RenameMode::From))
            } else {
                EventKind::Remove(RemoveKind::Any)
            };
            Some(Event::new(kind).set_info("root changed"))
        },
    }
}

/// The events that are being told.
struct Telling {
    flags: StreamFlags,
    process_id: u32,
    events: Vec<Event>,
    before: Ghost<Seq<EventView>>,
    said: Ghost<Seq<EventView>>,
}

impl Telling {
    spec fn wf(self) -> bool {
        event::views(self.events@) == self.before@ + self.said@.map_values(
            |e: EventView| marked(self.flags, self.process_id, e),
        )
    }

    /// Tells `event`, marked, where `condition` holds.
    fn tell_if(&mut self, condition: bool, event: Event)
        requires
            old(self).wf(),
        ensures
            final(self).wf(),
            final(self).flags == old(self).flags,
            final(self).process_id == old(self).process_id,
            final(self).before == old(self).before,
            final(self).said@ == old(self).said@ + only_if(condition, event@),
    {
        proof {
            lemma_said(self.flags, self.process_id, self.said@, condition, event@);
            reveal(only_if);
        }
        if condition {
            let mut told = event;
            if self.flags.contains(ITEM_CLONED) && told.info().is_none() {
                told = told.set_info("is: clone");
            }
            if self.flags.contains(OWN_EVENT) {
                told = told.set_process_id(self.process_id);
            }
            event::push_event(&mut self.events, told);
        }
        proof {
            self.said@ = self.said@ + only_if(condition, event@);
        }
        assert(event::views(self.events@) =~= self.before@ + self.said@.map_values(
            |e: EventView| marked(self.flags, self.process_id, e),
        ));
    }

    /// Tells what became of a root that changed.
    fn tell_root(&mut self, root_changed: bool, root: Option<RootChange>)
        requires
            old(self).wf(),
        ensures
            final(self).wf(),
            final(self).flags == old(self).flags,
            final(self).process_id == old(self).process_id,
            final(self).before == old(self).before,
            final(self).said@ == old(self).said@ + only_if(
                root_changed && root_event(old(self).flags, root) is Some,
                root_event(old(self).flags, root)->0,
            ),
    {
        match changed_root(&self.flags, root) {
            Some(event) => self.tell_if(root_changed, event),
            None => {
                reveal(only_if);
                assert(self.said@ =~= self.said@ + Seq::<EventView>::empty());
            },
        }
    }
}

/// Appends what the flags of an event say to `events`.
///
/// `root` says, for a `ROOT_CHANGED` event, what became of the root; `None` counts as gone.
/// `create_reported` says that the creation the flags carry was reported already, from the disk,
/// and is left out. `process_id` is the id of this process.
pub fn translate_flags_with(
    flags: &StreamFlags,
    precise: bool,
    root: Option<RootChange>,
    create_reported: bool,
    process_id: u32,
    events: Vec<Event>,
) -> (told: Vec<Event>)
    ensures
        event::views(told@) == event::views(events@) + translated(
            *flags,
            precise,
            root,
            create_reported,
            process_id,
        ),
{
    let ghost before = event::views(events@);
    let mut events = events;
    if flags.contains(HISTORY_DONE) {
        assert(before =~= before + Seq::<EventView>::empty());
        return events;
    }
    if !precise {
        reveal(only_if);
        if flags.contains(MUST_SCAN_SUBDIRS) {
            event::push_event(&mut events, rescan_event(flags));
        }
        event::push_event(&mut events, Event::new(EventKind::Any));
        assert(event::views(events@) =~= before + translated(
            *flags,
            precise,
            root,
            create_reported,
            process_id,
        ));
        return events;
    }
    let mut telling = Telling {
        flags: *flags,
        process_id,
        events,
        before: Ghost(before),
        said: Ghost(Seq::empty()),
    };
    assert(telling.wf()) by {
        assert(before =~= before + telling.said@.map_values(
            |e: EventView| marked(*flags, process_id, e),
        ));
    }
    let root_changed = flags.contains(ROOT_CHANGED);
    telling.tell_if(flags.contains(MUST_SCAN_SUBDIRS), rescan_event(flags));
    telling.tell_root(root_changed, root);
    telling.tell_if(
        flags.contains(MOUNT),
        Event::new(EventKind::Create(CreateKind::Other)).set_info("mount"),
    );
    telling.tell_if(
        flags.contains(UNMOUNT),
        Event::new(EventKind::Remove(RemoveKind::Other)).set_info("mount"),
    );
    telling.tell_if(
        flags.contains(ITEM_CREATED) && !create_reported,
        item(
            flags,
            EventKind::Create(CreateKind::Folder),
            EventKind::Create(CreateKind::File),
            EventKind::Create(CreateKind::Other),
            EventKind::Create(CreateKind::Any),
        ),
    );
    telling.tell_if(
        flags.contains(ITEM_RENAMED) && !root_changed,
        Event::new(EventKind::Modify(ModifyKind::Name(RenameMode::Any))),
    );
    telling.tell_if(flags.contains(INODE_META_MOD), metadata_event(MetadataKind::Any));
    telling.tell_if(
        flags.contains(FINDER_INFO_MOD),
        metadata_event(MetadataKind::Other).set_info("meta: finder info"),
    );
    telling.tell_if(flags.contains(ITEM_CHANGE_OWNER), metadata_event(MetadataKind::Ownership));
    telling.tell_if(flags.contains(ITEM_XATTR_MOD), metadata_event(MetadataKind::Extended));
    telling.tell_if(
        flags.contains(ITEM_MODIFIED),
        Event::new(EventKind::Modify(ModifyKind::Data(DataChange::Content))),
    );
    telling.tell_if(
        flags.contains(ITEM_REMOVED) && !root_changed,
        item(
            flags,
            EventKind::Remove(RemoveKind::Folder),
            EventKind::Remove(RemoveKind::File),
            EventKind::Remove(RemoveKind::Other),
            EventKind::Remove(RemoveKind::Any),
        ),
    );
    reveal(said);
    telling.events
}

/// What the flags of an event say.
pub fn translate_flags(
    flags: &StreamFlags,
    precise: bool,
    root: Option<RootChange>,
    create_reported: bool,
    process_id: u32,
) -> (told: Vec<Event>)
    ensures
        event::views(told@) == translated(*flags, precise, root, create_reported, process_id),
{
    let told = translate_flags_with(flags, precise, root, create_reported, process_id, Vec::new());
    assert(event::views(told@) =~= translated(*flags, precise, root, create_reported, process_id));
    told
}

/// How many events the flags of an event say, for a root that is gone and a creation that was not
/// reported before.
pub fn translated_event_count(flags: &StreamFlags, precise: bool) -> (count: usize)
    ensures
        forall|process_id: u32|
            count == #[trigger] translated(*flags, precise, None, false, process_id).len(),
{
    if flags.contains(HISTORY_DONE) {
        return 0;
    }
    let rescans: usize = one(flags, MUST_SCAN_SUBDIRS);
    if !precise {
        proof {
            lemma_only_if(flags.has(MUST_SCAN_SUBDIRS), rescan(*flags));
            reveal(ones);
        }
        return rescans + 1;
    }
    proof {
        lemma_said_len(*flags);
    }
    let moves: usize = if flags.contains(ROOT_CHANGED) {
        1
    } else {
        one(flags, ITEM_RENAMED) + one(flags, ITEM_REMOVED)
    };
    rescans + moves + one(flags, MOUNT) + one(flags, UNMOUNT) + one(flags, ITEM_CREATED) + one(
        flags,
        INODE_META_MOD,
    ) + one(flags, FINDER_INFO_MOD) + one(flags, ITEM_CHANGE_OWNER) + one(flags, ITEM_XATTR_MOD)
        + one(flags, ITEM_MODIFIED)
}

/// Flags say at most as many events as for a root that is gone and a creation that was not
/// reported before: an event whose count is 0 can be passed over.
pub proof fn count_is_a_bound(
    flags: StreamFlags,
    precise: bool,
    root: Option<RootChange>,
    create_reported: bool,
    process_id: u32,
)
    ensures
        translated(flags, precise, root, create_reported, process_id).len() <= translated(
            flags,
            precise,
            None,
            false,
            process_id,
        ).len(),
        root == Some(RootChange::Gone) && !create_reported ==> translated(
            flags,
            precise,
            root,
            create_reported,
            process_id,
        ) == translated(flags, precise, None, false, process_id),
{
    lemma_said_at_most(flags, root, create_reported);
}

/// The event that ends the history says nothing.
pub proof fn history_done_says_nothing(
    flags: StreamFlags,
    precise: bool,
    root: Option<RootChange>,
    create_reported: bool,
    process_id: u32,
)
    requires
        flags.has(HISTORY_DONE),
    ensures
        translated(flags, precise, root, create_reported, process_id).len() == 0,
{
}

} // verus!
