//! The change-notification broadcast point. The store appends an event
//! here after a write has committed; delivering events to subscribers is
//! the consumers' concern, so emission never fails and never waits.

use vstd::prelude::*;

use crate::models::{Record, RecordV};

verus! {

/// Model of one emitted notification.
pub ghost struct EventV {
    pub previous: Option<RecordV>,
    pub current: RecordV,
}

/// A "record changed" notification: the previous latest record of the
/// location, if any (`None` marks a first-ever record), and the version
/// that replaced it.
pub enum Event {
    NewRecordUpdate(Option<Record>, Record),
}

impl View for Event {
    type V = EventV;

    open spec fn view(&self) -> EventV {
        match self {
            Event::NewRecordUpdate(prev, cur) => EventV {
                previous: match prev {
                    Some(p) => Some(p@),
                    None => None,
                },
                current: cur@,
            },
        }
    }
}

/// The models of a sequence of emitted events.
pub open spec fn events_view(s: Seq<Event>) -> Seq<EventV> {
    s.map_values(|e: Event| e@)
}

/// The process-wide publish point, recording emitted events in order.
pub struct EventStream {
    pub events: Vec<Event>,
}

impl View for EventStream {
    type V = Seq<EventV>;

    open spec fn view(&self) -> Seq<EventV> {
        events_view(self.events@)
    }
}

impl EventStream {
    /// A stream with no subscribers having seen anything yet.
    pub fn new() -> (s: EventStream)
        ensures
            s@.len() == 0,
    {
        EventStream { events: Vec::new() }
    }

    /// Publish one event to all subscribers, fire-and-forget.
    pub fn emit(&mut self, e: Event)
        ensures
            final(self)@ == old(self)@.push(e@),
    {
        let ghost pre = self.events@;
        self.events.push(e);
        proof {
            assert(forall|k: int|
                0 <= k < pre.len() ==> (#[trigger] self.events@[k]) == pre[k]);
            assert(self@ =~= old(self)@.push(e@));
        }
    }
}

} // verus!
