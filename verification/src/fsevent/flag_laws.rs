//! What each flag of an FSEvents event says.

use crate::event::{
    CreateKind, DataChange, EventAttributes, EventKind, EventView, Flag, MetadataKind, ModifyKind,
    RemoveKind, RenameMode,
};
use crate::fsevent::translate;
use crate::fsevent::translate::{
    FINDER_INFO_MOD, HISTORY_DONE, INODE_META_MOD, IS_DIR, IS_FILE, IS_HARDLINK, IS_SYMLINK,
    ITEM_CHANGE_OWNER, ITEM_CLONED, ITEM_CREATED, ITEM_MODIFIED, ITEM_REMOVED, ITEM_RENAMED,
    ITEM_XATTR_MOD, KERNEL_DROPPED, MOUNT, MUST_SCAN_SUBDIRS, OWN_EVENT, ROOT_CHANGED, RootChange,
    StreamFlags, UNMOUNT, USER_DROPPED,
};
use vstd::prelude::*;

verus! {

/// Whether `flag` is set.
pub open spec fn is_set(flags: StreamFlags, flag: u32) -> bool {
    flags.bits & flag == flag
}

/// An event of `kind` that is told of, with what is said about it. Where nothing is, a clone is
/// said to be one. An event that this process caused carries its id.
pub open spec fn told(
    flags: StreamFlags,
    process_id: u32,
    kind: EventKind,
    info: Option<&'static str>,
    flag: Option<Flag>,
) -> EventView {
    EventView {
        kind,
        paths: seq![],
        attrs: EventAttributes {
            tracker: None,
            flag,
            info: match info {
                Some(info) => Some(info),
                None => if is_set(flags, ITEM_CLONED) {
                    Some("is: clone")
                } else {
                    None
                },
            },
            process_id: if is_set(flags, OWN_EVENT) {
                Some(process_id)
            } else {
                None
            },
        },
    }
}

/// What is said about the loss of events.
pub open spec fn loss(flags: StreamFlags) -> Option<&'static str> {
    if is_set(flags, USER_DROPPED) {
        Some("rescan: user dropped")
    } else if is_set(flags, KERNEL_DROPPED) {
        Some("rescan: kernel dropped")
    } else {
        None
    }
}

/// What is said about the type of an item that is neither a folder nor a file.
pub open spec fn item_info(flags: StreamFlags) -> Option<&'static str> {
    if is_set(flags, IS_DIR) || is_set(flags, IS_FILE) {
        None
    } else if is_set(flags, IS_SYMLINK) {
        Some("is: symlink")
    } else if is_set(flags, IS_HARDLINK) {
        Some("is: hardlink")
    } else {
        None
    }
}

pub open spec fn is_other_item(flags: StreamFlags) -> bool {
    is_set(flags, IS_SYMLINK) || is_set(flags, IS_HARDLINK) || is_set(flags, ITEM_CLONED)
}

/// The kind of the creation of an item.
pub open spec fn item_creation(flags: StreamFlags) -> EventKind {
    if is_set(flags, IS_DIR) {
        EventKind::Create(CreateKind::Folder)
    } else if is_set(flags, IS_FILE) {
        EventKind::Create(CreateKind::File)
    } else if is_other_item(flags) {
        EventKind::Create(CreateKind::Other)
    } else {
        EventKind::Create(CreateKind::Any)
    }
}

/// The kind of the removal of an item.
pub open spec fn item_removal(flags: StreamFlags) -> EventKind {
    if is_set(flags, IS_DIR) {
        EventKind::Remove(RemoveKind::Folder)
    } else if is_set(flags, IS_FILE) {
        EventKind::Remove(RemoveKind::File)
    } else if is_other_item(flags) {
        EventKind::Remove(RemoveKind::Other)
    } else {
        EventKind::Remove(RemoveKind::Any)
    }
}

/// How a root went, as far as the flags say.
pub open spec fn root_removal(flags: StreamFlags) -> EventKind {
    if is_set(flags, ITEM_REMOVED) && is_set(flags, IS_DIR) {
        EventKind::Remove(RemoveKind::Folder)
    } else if is_set(flags, ITEM_REMOVED) && is_set(flags, IS_FILE) {
        EventKind::Remove(RemoveKind::File)
    } else if is_set(flags, ITEM_RENAMED) && !is_set(flags, ITEM_REMOVED) {
        EventKind::Modify(ModifyKind::Name(RenameMode::From))
    } else {
        EventKind::Remove(RemoveKind::Any)
    }
}

/// Whether a change of the root is told: that it went, or that it is back, which the flags do not
/// tell themselves.
pub open spec fn is_root_told(flags: StreamFlags, root: Option<RootChange>) -> bool {
    is_set(flags, ROOT_CHANGED) && match root {
        None => true,
        Some(RootChange::Gone) => true,
        Some(RootChange::StillGone) => false,
        Some(RootChange::Present { .. }) => !is_set(flags, ITEM_CREATED),
        Some(RootChange::Reported) => false,
    }
}

/// The kind of what is told of a change of the root.
pub open spec fn root_kind(flags: StreamFlags, root: Option<RootChange>) -> EventKind {
    match root {
        Some(RootChange::Present { is_dir }) => if is_dir {
            EventKind::Create(CreateKind::Folder)
        } else {
            EventKind::Create(CreateKind::File)
        },
        _ => root_removal(flags),
    }
}

/// `event` where `condition` holds.
#[verifier::opaque]
pub open spec fn where_so(condition: bool, event: EventView) -> Seq<EventView> {
    if condition {
        seq![event]
    } else {
        seq![]
    }
}

/// Each flag of a precise event is told in an event of its own, in this order: that events were
/// lost, that the root went or is back, that a volume came or went, that the item was created,
/// renamed, that one of four kinds of what is known of it changed, that its content did, and that
/// it was removed. A rename and a removal of the root are told as its change.
pub proof fn flags_are_told_in_order(
    flags: StreamFlags,
    root: Option<RootChange>,
    create_reported: bool,
    process_id: u32,
)
    requires
        !is_set(flags, HISTORY_DONE),
    ensures
        ({
            let t = |kind: EventKind, info: Option<&'static str>|
                told(flags, process_id, kind, info, None);
            let is_root = is_set(flags, ROOT_CHANGED);
            translate::translated(flags, true, root, create_reported, process_id) == where_so(
                is_set(flags, MUST_SCAN_SUBDIRS),
                told(flags, process_id, EventKind::Other, loss(flags), Some(Flag::Rescan)),
            ) + where_so(
                is_root_told(flags, root),
                t(root_kind(flags, root), Some("root changed")),
            ) + where_so(
                is_set(flags, MOUNT),
                t(EventKind::Create(CreateKind::Other), Some("mount")),
            ) + where_so(
                is_set(flags, UNMOUNT),
                t(EventKind::Remove(RemoveKind::Other), Some("mount")),
            ) + where_so(
                is_set(flags, ITEM_CREATED) && !create_reported,
                t(item_creation(flags), item_info(flags)),
            ) + where_so(
                is_set(flags, ITEM_RENAMED) && !is_root,
                t(EventKind::Modify(ModifyKind::Name(RenameMode::Any)), None),
            ) + where_so(
                is_set(flags, INODE_META_MOD),
                t(EventKind::Modify(ModifyKind::Metadata(MetadataKind::Any)), None),
            ) + where_so(
                is_set(flags, FINDER_INFO_MOD),
                t(
                    EventKind::Modify(ModifyKind::Metadata(MetadataKind::Other)),
                    Some("meta: finder info"),
                ),
            ) + where_so(
                is_set(flags, ITEM_CHANGE_OWNER),
                t(EventKind::Modify(ModifyKind::Metadata(MetadataKind::Ownership)), None),
            ) + where_so(
                is_set(flags, ITEM_XATTR_MOD),
                t(EventKind::Modify(ModifyKind::Metadata(MetadataKind::Extended)), None),
            ) + where_so(
                is_set(flags, ITEM_MODIFIED),
                t(EventKind::Modify(ModifyKind::Data(DataChange::Content)), None),
            ) + where_so(
                is_set(flags, ITEM_REMOVED) && !is_root,
                t(item_removal(flags), item_info(flags)),
            )
        }),
{
    reveal(translate::said);
    let is_root = flags.has(ROOT_CHANGED);
    let rename = EventView::new(EventKind::Modify(ModifyKind::Name(RenameMode::Any)));
    let mount = EventView::new(EventKind::Create(CreateKind::Other)).with_info("mount");
    let unmount = EventView::new(EventKind::Remove(RemoveKind::Other)).with_info("mount");
    let finder = translate::metadata(MetadataKind::Other).with_info("meta: finder info");
    let content = EventView::new(EventKind::Modify(ModifyKind::Data(DataChange::Content)));
    let change = translate::root_event(flags, root);
    let s0 = Seq::<EventView>::empty();
    let s1 = s0 + translate::only_if(flags.has(MUST_SCAN_SUBDIRS), translate::rescan(flags));
    let s2 = s1 + translate::only_if(is_root && change is Some, change->0);
    let s3 = s2 + translate::only_if(flags.has(MOUNT), mount);
    let s4 = s3 + translate::only_if(flags.has(UNMOUNT), unmount);
    let s5 = s4 + translate::only_if(
        flags.has(ITEM_CREATED) && !create_reported,
        translate::created(flags),
    );
    let s6 = s5 + translate::only_if(flags.has(ITEM_RENAMED) && !is_root, rename);
    let s7 = s6 + translate::only_if(
        flags.has(INODE_META_MOD),
        translate::metadata(MetadataKind::Any),
    );
    let s8 = s7 + translate::only_if(flags.has(FINDER_INFO_MOD), finder);
    let s9 = s8 + translate::only_if(
        flags.has(ITEM_CHANGE_OWNER),
        translate::metadata(MetadataKind::Ownership),
    );
    let s10 = s9 + translate::only_if(
        flags.has(ITEM_XATTR_MOD),
        translate::metadata(MetadataKind::Extended),
    );
    let s11 = s10 + translate::only_if(flags.has(ITEM_MODIFIED), content);
    let pid = process_id;
    lemma_told(flags, pid, s0, flags.has(MUST_SCAN_SUBDIRS), translate::rescan(flags));
    lemma_told(flags, pid, s1, is_root && change is Some, change->0);
    lemma_told(flags, pid, s2, flags.has(MOUNT), mount);
    lemma_told(flags, pid, s3, flags.has(UNMOUNT), unmount);
    lemma_told(
        flags,
        pid,
        s4,
        flags.has(ITEM_CREATED) && !create_reported,
        translate::created(flags),
    );
    lemma_told(flags, pid, s5, flags.has(ITEM_RENAMED) && !is_root, rename);
    lemma_told(flags, pid, s6, flags.has(INODE_META_MOD), translate::metadata(MetadataKind::Any));
    lemma_told(flags, pid, s7, flags.has(FINDER_INFO_MOD), finder);
    lemma_told(
        flags,
        pid,
        s8,
        flags.has(ITEM_CHANGE_OWNER),
        translate::metadata(MetadataKind::Ownership),
    );
    lemma_told(
        flags,
        pid,
        s9,
        flags.has(ITEM_XATTR_MOD),
        translate::metadata(MetadataKind::Extended),
    );
    lemma_told(flags, pid, s10, flags.has(ITEM_MODIFIED), content);
    lemma_told(
        flags,
        pid,
        s11,
        flags.has(ITEM_REMOVED) && !is_root,
        translate::removed(flags),
    );
    assert(s0.map_values(|e: EventView| translate::marked(flags, pid, e)) =~= s0);
    let first = where_so(
        flags.has(MUST_SCAN_SUBDIRS),
        translate::marked(flags, pid, translate::rescan(flags)),
    );
    assert(s0 + first =~= first);
    lemma_items(flags, root, pid);
    lemma_marks(flags, pid);
}

/// What is told of the root and of items.
proof fn lemma_items(flags: StreamFlags, root: Option<RootChange>, pid: u32)
    ensures
        ({
            let change = translate::root_event(flags, root);
            where_so(
                flags.has(ROOT_CHANGED) && change is Some,
                translate::marked(flags, pid, change->0),
            ) == where_so(
                is_root_told(flags, root),
                told(flags, pid, root_kind(flags, root), Some("root changed"), None),
            )
        }),
        translate::marked(flags, pid, translate::created(flags)) == told(
            flags,
            pid,
            item_creation(flags),
            item_info(flags),
            None,
        ),
        translate::marked(flags, pid, translate::removed(flags)) == told(
            flags,
            pid,
            item_removal(flags),
            item_info(flags),
            None,
        ),
{
    reveal(where_so);
}

/// What is told of the rest.
proof fn lemma_marks(flags: StreamFlags, pid: u32)
    ensures
        translate::marked(flags, pid, translate::rescan(flags)) == told(
            flags,
            pid,
            EventKind::Other,
            loss(flags),
            Some(Flag::Rescan),
        ),
        forall|kind: EventKind| #[trigger]
            translate::marked(flags, pid, EventView::new(kind)) == told(
                flags,
                pid,
                kind,
                None,
                None,
            ),
        forall|kind: EventKind, info: &'static str| #[trigger]
            translate::marked(flags, pid, EventView::new(kind).with_info(info)) == told(
                flags,
                pid,
                kind,
                Some(info),
                None,
            ),
{
}

proof fn lemma_told(
    flags: StreamFlags,
    process_id: u32,
    said: Seq<EventView>,
    condition: bool,
    event: EventView,
)
    ensures
        (said + translate::only_if(condition, event)).map_values(
            |e: EventView| translate::marked(flags, process_id, e),
        ) == said.map_values(|e: EventView| translate::marked(flags, process_id, e)) + where_so(
            condition,
            translate::marked(flags, process_id, event),
        ),
{
    reveal(translate::only_if);
    reveal(where_so);
    translate::lemma_said(flags, process_id, said, condition, event);
}

proof fn lemma_contains()
    ensures
        forall|a: Seq<EventView>, b: Seq<EventView>, x: EventView| #[trigger]
            (a + b).contains(x) <==> a.contains(x) || b.contains(x),
        forall|condition: bool, event: EventView, x: EventView| #[trigger]
            where_so(condition, event).contains(x) <==> condition && x == event,
{
    reveal(where_so);
    assert forall|a: Seq<EventView>, b: Seq<EventView>, x: EventView| #[trigger]
        (a + b).contains(x) <==> a.contains(x) || b.contains(x) by {
        if a.contains(x) {
            assert((a + b)[a.index_of(x)] == x);
        }
        if b.contains(x) {
            assert((a + b)[a.len() + b.index_of(x)] == x);
        }
        if (a + b).contains(x) {
            let i = (a + b).index_of(x);
            if i < a.len() {
                assert(a[i] == x);
            } else {
                assert(b[i - a.len()] == x);
            }
        }
    }
    assert forall|condition: bool, event: EventView, x: EventView| #[trigger]
        where_so(condition, event).contains(x) <==> condition && x == event by {
        if condition {
            assert(where_so(condition, event)[0] == event);
        }
    }
}

/// A precise event tells each of its flags in an event of the flag's kind, whatever other flags it
/// has.
pub proof fn each_flag_is_told(
    flags: StreamFlags,
    root: Option<RootChange>,
    create_reported: bool,
    process_id: u32,
)
    requires
        !is_set(flags, HISTORY_DONE),
    ensures
        ({
            let all = translate::translated(flags, true, root, create_reported, process_id);
            let is_told = |kind: EventKind, info: Option<&'static str>|
                all.contains(told(flags, process_id, kind, info, None));
            &&& is_set(flags, MUST_SCAN_SUBDIRS) ==> all.contains(
                told(flags, process_id, EventKind::Other, loss(flags), Some(Flag::Rescan)),
            )
            &&& is_root_told(flags, root) ==> is_told(root_kind(flags, root), Some("root changed"))
            &&& is_set(flags, MOUNT) ==> is_told(
                EventKind::Create(CreateKind::Other),
                Some("mount"),
            )
            &&& is_set(flags, UNMOUNT) ==> is_told(
                EventKind::Remove(RemoveKind::Other),
                Some("mount"),
            )
            &&& is_set(flags, ITEM_CREATED) && !create_reported ==> is_told(
                item_creation(flags),
                item_info(flags),
            )
            &&& is_set(flags, ITEM_RENAMED) && !is_set(flags, ROOT_CHANGED) ==> is_told(
                EventKind::Modify(ModifyKind::Name(RenameMode::Any)),
                None,
            )
            &&& is_set(flags, INODE_META_MOD) ==> is_told(
                EventKind::Modify(ModifyKind::Metadata(MetadataKind::Any)),
                None,
            )
            &&& is_set(flags, FINDER_INFO_MOD) ==> is_told(
                EventKind::Modify(ModifyKind::Metadata(MetadataKind::Other)),
                Some("meta: finder info"),
            )
            &&& is_set(flags, ITEM_CHANGE_OWNER) ==> is_told(
                EventKind::Modify(ModifyKind::Metadata(MetadataKind::Ownership)),
                None,
            )
            &&& is_set(flags, ITEM_XATTR_MOD) ==> is_told(
                EventKind::Modify(ModifyKind::Metadata(MetadataKind::Extended)),
                None,
            )
            &&& is_set(flags, ITEM_MODIFIED) ==> is_told(
                EventKind::Modify(ModifyKind::Data(DataChange::Content)),
                None,
            )
            &&& is_set(flags, ITEM_REMOVED) && !is_set(flags, ROOT_CHANGED) ==> is_told(
                item_removal(flags),
                item_info(flags),
            )
        }),
{
    flags_are_told_in_order(flags, root, create_reported, process_id);
    lemma_contains();
}

/// An event of a kind is told only where a flag of that kind is set: of a creation where an item
/// was created, a volume came or the root is back, of a removal where an item was removed, a volume
/// went or the root did, of a rename where something was renamed, and so on. Nothing is told of
/// accesses, and nothing that is of no kind.
pub proof fn kinds_come_from_flags(
    flags: StreamFlags,
    root: Option<RootChange>,
    create_reported: bool,
    process_id: u32,
    event: EventView,
)
    requires
        !is_set(flags, HISTORY_DONE),
        translate::translated(flags, true, root, create_reported, process_id).contains(event),
    ensures
        match event.kind {
            EventKind::Create(_) => {
                ||| is_set(flags, ITEM_CREATED) && !create_reported
                ||| is_set(flags, MOUNT)
                ||| is_set(flags, ROOT_CHANGED) && (root matches Some(RootChange::Present { .. }))
            },
            EventKind::Remove(_) => {
                ||| is_set(flags, ITEM_REMOVED)
                ||| is_set(flags, UNMOUNT)
                ||| is_set(flags, ROOT_CHANGED) && (root is None || root == Some(RootChange::Gone))
            },
            EventKind::Modify(ModifyKind::Name(RenameMode::Any)) => is_set(flags, ITEM_RENAMED)
                && !is_set(flags, ROOT_CHANGED),
            EventKind::Modify(ModifyKind::Name(RenameMode::From)) => is_set(flags, ITEM_RENAMED)
                && is_set(flags, ROOT_CHANGED) && (root is None || root == Some(RootChange::Gone)),
            EventKind::Modify(ModifyKind::Metadata(MetadataKind::Any)) => is_set(
                flags,
                INODE_META_MOD,
            ),
            EventKind::Modify(ModifyKind::Metadata(MetadataKind::Other)) => is_set(
                flags,
                FINDER_INFO_MOD,
            ),
            EventKind::Modify(ModifyKind::Metadata(MetadataKind::Ownership)) => is_set(
                flags,
                ITEM_CHANGE_OWNER,
            ),
            EventKind::Modify(ModifyKind::Metadata(MetadataKind::Extended)) => is_set(
                flags,
                ITEM_XATTR_MOD,
            ),
            EventKind::Modify(ModifyKind::Data(DataChange::Content)) => is_set(
                flags,
                ITEM_MODIFIED,
            ),
            EventKind::Other => is_set(flags, MUST_SCAN_SUBDIRS) && event.attrs.flag == Some(
                Flag::Rescan,
            ),
            _ => false,
        },
        event.paths.len() == 0,
        event.attrs.tracker is None,
        event.attrs.process_id == if is_set(flags, OWN_EVENT) {
            Some(process_id)
        } else {
            None
        },
{
    flags_are_told_in_order(flags, root, create_reported, process_id);
    lemma_contains();
}

/// An event that is not precise tells that events were lost, and then that something happened. The
/// event that ends the history tells nothing.
pub proof fn imprecise_event_is_told(
    flags: StreamFlags,
    root: Option<RootChange>,
    create_reported: bool,
    process_id: u32,
    precise: bool,
)
    ensures
        is_set(flags, HISTORY_DONE) ==> translate::translated(
            flags,
            precise,
            root,
            create_reported,
            process_id,
        ) == Seq::<EventView>::empty(),
        !is_set(flags, HISTORY_DONE) ==> ({
            let plain = |kind: EventKind, info: Option<&'static str>, flag: Option<Flag>|
                EventView {
                    kind,
                    paths: seq![],
                    attrs: EventAttributes { tracker: None, flag, info, process_id: None },
                };
            translate::translated(flags, false, root, create_reported, process_id) == if is_set(
                flags,
                MUST_SCAN_SUBDIRS,
            ) {
                seq![
                    plain(EventKind::Other, loss(flags), Some(Flag::Rescan)),
                    plain(EventKind::Any, None, None),
                ]
            } else {
                seq![plain(EventKind::Any, None, None)]
            }
        }),
{
    reveal(translate::only_if);
    let any = EventView::new(EventKind::Any);
    assert(Seq::<EventView>::empty().push(any) =~= seq![any]);
    assert(seq![translate::rescan(flags)].push(any) =~= seq![translate::rescan(flags), any]);
}

/// The flags are those of FSEvents, bit by bit, and the ones that are known are all of them.
pub proof fn bits_are_those_of_fsevents()
    ensures
        translate::MUST_SCAN_SUBDIRS == 0x1 && translate::USER_DROPPED == 0x2,
        translate::KERNEL_DROPPED == 0x4 && translate::IDS_WRAPPED == 0x8,
        translate::HISTORY_DONE == 0x10 && translate::ROOT_CHANGED == 0x20,
        translate::MOUNT == 0x40 && translate::UNMOUNT == 0x80,
        translate::ITEM_CREATED == 0x100 && translate::ITEM_REMOVED == 0x200,
        translate::INODE_META_MOD == 0x400 && translate::ITEM_RENAMED == 0x800,
        translate::ITEM_MODIFIED == 0x1000 && translate::FINDER_INFO_MOD == 0x2000,
        translate::ITEM_CHANGE_OWNER == 0x4000 && translate::ITEM_XATTR_MOD == 0x8000,
        translate::IS_FILE == 0x10000 && translate::IS_DIR == 0x20000,
        translate::IS_SYMLINK == 0x40000 && translate::OWN_EVENT == 0x80000,
        translate::IS_HARDLINK == 0x100000 && translate::IS_LAST_HARDLINK == 0x200000,
        translate::ITEM_CLONED == 0x400000,
        translate::ALL == 0x7fffff,
{
}

} // verus!
