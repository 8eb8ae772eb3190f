//! What a watcher hands to its user: events, and errors.

use crate::error::{Error, ErrorView};
use crate::event;
use crate::event::{Event, EventAttributes, EventKind, EventView};
use vstd::prelude::*;

verus! {

#[derive(Debug, PartialEq, Eq)]
pub enum Report {
    Event(Event),
    Error(Error),
}

pub enum ReportView {
    Event(EventView),
    Error(ErrorView),
}

impl View for Report {
    type V = ReportView;

    open spec fn view(&self) -> ReportView {
        match self {
            Report::Event(event) => ReportView::Event(event@),
            Report::Error(error) => ReportView::Error(error@),
        }
    }
}

/// The report of an event of `kind` at `paths` of which nothing else is known but what ties it to
/// other events.
pub open spec fn told(
    kind: EventKind,
    paths: Seq<Seq<Seq<u8>>>,
    tracker: Option<usize>,
) -> ReportView {
    ReportView::Event(
        EventView {
            kind,
            paths,
            attrs: EventAttributes { tracker, flag: None, info: None, process_id: None },
        },
    )
}

/// The views of a list of reports.
pub open spec fn views(reports: Seq<Report>) -> Seq<ReportView> {
    reports.map_values(|r: Report| r@)
}

/// Adds an event to what is reported.
pub fn push_event(reports: &mut Vec<Report>, event: Event)
    ensures
        views(final(reports)@) == views(old(reports)@).push(ReportView::Event(event@)),
{
    let ghost before = reports@;
    reports.push(Report::Event(event));
    assert(views(reports@) =~= views(before).push(ReportView::Event(event@)));
}

/// Adds events to what is reported.
pub fn push_events(reports: &mut Vec<Report>, events: Vec<Event>)
    ensures
        views(final(reports)@) == views(old(reports)@) + event::views(events@).map_values(
            |e: EventView| ReportView::Event(e),
        ),
{
    let ghost before = views(reports@);
    let ghost all = event::views(events@).map_values(|e: EventView| ReportView::Event(e));
    let mut i: usize = 0;
    assert(before =~= before + all.take(0));
    while i < events.len()
        invariant
            i <= events@.len() == all.len(),
            all == event::views(events@).map_values(|e: EventView| ReportView::Event(e)),
            views(reports@) == before + all.take(i as int),
        decreases events.len() - i,
    {
        push_event(reports, events[i].clone());
        assert(all[i as int] == ReportView::Event(events@[i as int]@));
        assert(before + all.take(i + 1) =~= (before + all.take(i as int)).push(all[i as int]));
        i = i + 1;
    }
    assert(all.take(i as int) =~= all);
}

/// Adds an error to what is reported.
pub fn push_error(reports: &mut Vec<Report>, error: Error)
    ensures
        views(final(reports)@) == views(old(reports)@).push(ReportView::Error(error@)),
{
    let ghost before = reports@;
    reports.push(Report::Error(error));
    assert(views(reports@) =~= views(before).push(ReportView::Error(error@)));
}

} // verus!
