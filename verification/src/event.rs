//! What is reported to the user of a watcher.

use crate::path;
use crate::path::PathBuf;
use vstd::prelude::*;

verus! {

#[derive(Copy, Clone, Debug, PartialEq, Eq, Hash, Structural)]
pub enum AccessMode {
    Any,
    Execute,
    Read,
    Write,
    Other,
}

#[derive(Copy, Clone, Debug, PartialEq, Eq, Hash, Structural)]
pub enum AccessKind {
    Any,
    Read,
    Open(AccessMode),
    Close(AccessMode),
    Other,
}

#[derive(Copy, Clone, Debug, PartialEq, Eq, Hash, Structural)]
pub enum CreateKind {
    Any,
    File,
    Folder,
    Other,
}

#[derive(Copy, Clone, Debug, PartialEq, Eq, Hash, Structural)]
pub enum DataChange {
    Any,
    Size,
    Content,
    Other,
}

#[derive(Copy, Clone, Debug, PartialEq, Eq, Hash, Structural)]
pub enum MetadataKind {
    Any,
    AccessTime,
    WriteTime,
    Permissions,
    Ownership,
    Extended,
    Other,
}

#[derive(Copy, Clone, Debug, PartialEq, Eq, Hash, Structural)]
pub enum RenameMode {
    Any,
    To,
    From,
    Both,
    Other,
}

#[derive(Copy, Clone, Debug, PartialEq, Eq, Hash, Structural)]
pub enum ModifyKind {
    Any,
    Data(DataChange),
    Metadata(MetadataKind),
    Name(RenameMode),
    Other,
}

#[derive(Copy, Clone, Debug, PartialEq, Eq, Hash, Structural)]
pub enum RemoveKind {
    Any,
    File,
    Folder,
    Other,
}

#[derive(Copy, Clone, Debug, PartialEq, Eq, Hash, Structural)]
pub enum EventKind {
    Any,
    Access(AccessKind),
    Create(CreateKind),
    Modify(ModifyKind),
    Remove(RemoveKind),
    Other,
}

#[derive(Copy, Clone, Debug, PartialEq, Eq, Hash, Structural)]
pub enum Flag {
    /// Events were missed: what is watched has to be looked at again.
    Rescan,
}

/// What is known of an event beside its kind and its paths.
#[derive(Copy, Clone, Debug, PartialEq, Eq, Hash)]
pub struct EventAttributes {
    /// Ties the events of one rename together.
    pub tracker: Option<usize>,
    pub flag: Option<Flag>,
    pub info: Option<&'static str>,
    pub process_id: Option<u32>,
}

/// An event, with its paths as sequences of components.
#[verifier::ext_equal]
pub struct EventView {
    pub kind: EventKind,
    pub paths: Seq<Seq<Seq<u8>>>,
    pub attrs: EventAttributes,
}

impl EventView {
    pub open spec fn new(kind: EventKind) -> EventView {
        EventView {
            kind,
            paths: Seq::empty(),
            attrs: EventAttributes { tracker: None, flag: None, info: None, process_id: None },
        }
    }

    pub open spec fn with_path(self, path: Seq<Seq<u8>>) -> EventView {
        EventView { paths: self.paths.push(path), ..self }
    }

    pub open spec fn with_info(self, info: &'static str) -> EventView {
        EventView { attrs: EventAttributes { info: Some(info), ..self.attrs }, ..self }
    }

    pub open spec fn with_flag(self, flag: Flag) -> EventView {
        EventView { attrs: EventAttributes { flag: Some(flag), ..self.attrs }, ..self }
    }

    pub open spec fn with_tracker(self, tracker: usize) -> EventView {
        EventView { attrs: EventAttributes { tracker: Some(tracker), ..self.attrs }, ..self }
    }

    pub open spec fn with_process_id(self, process_id: u32) -> EventView {
        EventView { attrs: EventAttributes { process_id: Some(process_id), ..self.attrs }, ..self }
    }
}

#[derive(Debug, PartialEq, Eq, Hash)]
pub struct Event {
    pub kind: EventKind,
    pub paths: Vec<PathBuf>,
    pub attrs: EventAttributes,
}

impl View for Event {
    type V = EventView;

    open spec fn view(&self) -> EventView {
        EventView { kind: self.kind, paths: path::views(self.paths@), attrs: self.attrs }
    }
}

/// The views of a list of events.
pub open spec fn views(events: Seq<Event>) -> Seq<EventView> {
    events.map_values(|e: Event| e@)
}

pub proof fn lemma_views_push(events: Seq<Event>, event: Event)
    ensures
        views(events.push(event)) == views(events).push(event@),
{
    assert(views(events.push(event)) =~= views(events).push(event@));
}

impl Event {
    pub fn new(kind: EventKind) -> (event: Event)
        ensures
            event@ == EventView::new(kind),
    {
        let event = Event {
            kind,
            paths: Vec::new(),
            attrs: EventAttributes { tracker: None, flag: None, info: None, process_id: None },
        };
        assert(event@.paths =~= Seq::empty());
        event
    }

    pub fn add_path(self, path: PathBuf) -> (event: Event)
        ensures
            event@ == self@.with_path(path@),
    {
        proof {
            path::lemma_views_push(self.paths@, path);
        }
        let mut event = self;
        event.paths.push(path);
        event
    }

    pub fn set_info(self, info: &'static str) -> (event: Event)
        ensures
            event@ == self@.with_info(info),
    {
        let mut event = self;
        event.attrs.info = Some(info);
        event
    }

    pub fn set_flag(self, flag: Flag) -> (event: Event)
        ensures
            event@ == self@.with_flag(flag),
    {
        let mut event = self;
        event.attrs.flag = Some(flag);
        event
    }

    pub fn set_tracker(self, tracker: usize) -> (event: Event)
        ensures
            event@ == self@.with_tracker(tracker),
    {
        let mut event = self;
        event.attrs.tracker = Some(tracker);
        event
    }

    pub fn set_process_id(self, process_id: u32) -> (event: Event)
        ensures
            event@ == self@.with_process_id(process_id),
    {
        let mut event = self;
        event.attrs.process_id = Some(process_id);
        event
    }

    pub fn info(&self) -> (info: Option<&'static str>)
        ensures
            info == self@.attrs.info,
    {
        self.attrs.info
    }
}

impl Clone for Event {
    fn clone(&self) -> (copy: Event)
        ensures
            copy@ == self@,
    {
        Event { kind: self.kind, paths: path::copy_paths(&self.paths), attrs: self.attrs }
    }
}

/// Adds an event to a list.
pub fn push_event(events: &mut Vec<Event>, event: Event)
    ensures
        views(final(events)@) == views(old(events)@).push(event@),
{
    proof {
        lemma_views_push(events@, event);
    }
    events.push(event);
}

/// What an event is built from is what it carries: its kind, its paths in the order they were
/// added, and what else is known of it.
pub proof fn event_carries_what_it_is_built_from(
    kind: EventKind,
    p: Seq<Seq<u8>>,
    q: Seq<Seq<u8>>,
    info: &'static str,
    flag: Flag,
    tracker: usize,
    process_id: u32,
)
    ensures
        EventView::new(kind).with_path(p).with_path(q).with_info(info).with_flag(
            flag,
        ).with_tracker(tracker).with_process_id(process_id) == (EventView {
            kind,
            paths: seq![p, q],
            attrs: EventAttributes {
                tracker: Some(tracker),
                flag: Some(flag),
                info: Some(info),
                process_id: Some(process_id),
            },
        }),
        EventView::new(kind) == (EventView {
            kind,
            paths: seq![],
            attrs: EventAttributes { tracker: None, flag: None, info: None, process_id: None },
        }),
{
    assert(Seq::<Seq<Seq<u8>>>::empty() =~= seq![]);
    assert(Seq::<Seq<Seq<u8>>>::empty().push(p).push(q) =~= seq![p, q]);
}

} // verus!
