//! The event log: the most recent events, newest first.
//!
//! Every event gets the next number. The log keeps the last
//! [`MAX_EVENTS`] of them and lets older ones go.
use std::collections::VecDeque;
use vstd::prelude::*;

verus! {

/// How many events the log keeps.
pub const MAX_EVENTS: usize = 20;

/// How much an event matters.
#[derive(Debug, Clone, Copy, PartialEq, Eq, Structural)]
pub enum Level {
    Info,
    Error,
}

/// One event: its number, its level and what happened.
pub struct LogLine {
    pub num: usize,
    pub level: Level,
    pub value: String,
}

/// What an event stands for.
pub struct LogLineView {
    pub num: usize,
    pub level: Level,
    pub value: Seq<char>,
}

impl View for LogLine {
    type V = LogLineView;

    open spec fn view(&self) -> LogLineView {
        LogLineView { num: self.num, level: self.level, value: self.value@ }
    }
}

/// What a log stands for: the number that the next event gets, and the
/// events that are kept, newest first.
pub struct EventLogView {
    pub last: usize,
    pub events: Seq<LogLineView>,
}

impl EventLogView {
    /// The log after an event: the event stands first, with the next number,
    /// and of the others the newest are kept as far as there is room. The
    /// number stops at the largest that there is.
    pub open spec fn pushed(self, level: Level, value: Seq<char>) -> EventLogView {
        let events = seq![LogLineView { num: self.last, level, value }] + self.events;
        EventLogView {
            last: if self.last < usize::MAX {
                (self.last + 1) as usize
            } else {
                self.last
            },
            events: if events.len() > MAX_EVENTS {
                events.take(MAX_EVENTS as int)
            } else {
                events
            },
        }
    }
}

/// What each of a list of events stands for.
pub open spec fn events_view(events: Seq<LogLine>) -> Seq<LogLineView> {
    Seq::new(events.len(), |i: int| events[i]@)
}

/// The events of a run, as far as they are kept.
pub struct EventLog {
    last: usize,
    events: VecDeque<LogLine>,
}

impl View for EventLog {
    type V = EventLogView;

    closed spec fn view(&self) -> EventLogView {
        EventLogView { last: self.last, events: events_view(self.events@) }
    }
}

impl Default for EventLog {
    fn default() -> (log: EventLog)
        ensures
            log@ == (EventLogView { last: 0, events: seq![] }),
    {
        let log = EventLog { last: 0, events: VecDeque::new() };
        proof {
            assert(log@.events =~= Seq::<LogLineView>::empty());
        }
        log
    }
}

impl EventLog {
    /// The log holds no more events than it keeps.
    pub open spec fn wf(&self) -> bool {
        self@.events.len() <= MAX_EVENTS
    }

    /// Records something that happened.
    pub fn info(&mut self, str: String)
        ensures
            final(self).wf(),
            final(self)@ == old(self)@.pushed(Level::Info, str@),
    {
        self.push(Level::Info, str);
    }

    /// Records something that went wrong.
    pub fn error(&mut self, str: String)
        ensures
            final(self).wf(),
            final(self)@ == old(self)@.pushed(Level::Error, str@),
    {
        self.push(Level::Error, str);
    }

    /// Records an event: see [`EventLogView::pushed`].
    pub fn push(&mut self, level: Level, str: String)
        ensures
            final(self).wf(),
            final(self)@ == old(self)@.pushed(level, str@),
    {
        let ghost before = self@.events;
        let ghost added = seq![LogLineView { num: self.last, level, value: str@ }] + before;
        let line = LogLine { num: self.last, level, value: str };
        self.events.push_front(line);
        proof {
            assert(events_view(self.events@) =~= added);
            assert(added.take(added.len() as int) =~= added);
        }
        if self.last < usize::MAX {
            self.last += 1;
        }
        while self.events.len() > MAX_EVENTS
            invariant
                self.events@.len() <= added.len(),
                self.events@.len() >= MAX_EVENTS || self.events@.len() == added.len(),
                added == seq![LogLineView { num: old(self)@.last, level, value: str@ }] + old(
                    self,
                )@.events,
                events_view(self.events@) == added.take(self.events@.len() as int),
                self.last == old(self)@.pushed(level, str@).last,
            decreases self.events@.len(),
        {
            let ghost kept = self.events@.len();
            self.events.pop_back();
            proof {
                assert(events_view(self.events@) =~= added.take(kept - 1));
            }
        }
    }

    /// The events that are kept, newest first.
    pub fn list(&self) -> (events: &VecDeque<LogLine>)
        ensures
            events_view(events@) == self@.events,
    {
        &self.events
    }
}

} // verus!
