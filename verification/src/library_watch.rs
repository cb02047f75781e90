//! When a change below a library's root leads to a rescan: once for a burst of changes, when the
//! burst has settled, and never on account of the rescan itself.
use vstd::prelude::*;
use vstd::string::*;

use crate::text::owned;

verus! {

/// How long no change may come before a burst has settled, in nanoseconds.
pub const WATCHER_DEBOUNCE: u64 = 1500000000;

/// How long every event is discarded after a rescan, in nanoseconds.
pub const POST_RESCAN_QUIET_PERIOD: u64 = 1500000000;

/// What the watcher is doing. Times are nanoseconds since the Unix epoch.
#[derive(Debug, Clone, Copy, PartialEq, Eq, Structural)]
pub enum Phase {
    /// Waiting for a first change.
    Idle,
    /// A burst of changes is under way; it has settled at the deadline.
    Settling { deadline: i128 },
    /// A rescan is due; nothing is listened to until it is done.
    Rescanning,
    /// A rescan is done; every event is discarded until then.
    Quiet { until: i128 },
    /// No more events can come.
    Closed,
}

/// What comes from the file system.
#[derive(Debug, Clone)]
pub enum WatchEvent {
    /// Something was created, written, removed or renamed.
    Change,
    /// Something was only opened, read or closed.
    Access,
    /// The events themselves failed.
    Error(String),
    /// Nothing came for as long as was waited.
    Timeout,
    /// No more events can come.
    Disconnected,
}

/// How long to wait for the next event.
#[derive(Debug, Clone, Copy, PartialEq, Eq, Structural)]
pub enum Wait {
    /// As long as it takes.
    Forever,
    /// At most so many nanoseconds.
    AtMost(u128),
    /// Not at all: the time is over.
    Over,
}

/// What is to be done about an event.
#[derive(Debug, Clone)]
pub enum WatchAction {
    Nothing,
    /// Rescan the library.
    Rescan,
    /// Write a line to the log.
    Log(String),
    /// Write a line to the log, and stop.
    Stop(String),
}

/// The line on events that failed.
pub open spec fn event_error(label: Seq<char>, e: Seq<char>) -> Seq<char> {
    label + ": event error: "@ + e
}

/// The line on a watcher that can get no more events.
pub open spec fn channel_closed(label: Seq<char>) -> Seq<char> {
    label
        + ": event channel closed; automatic rescans are disabled for the rest of this session"@
}

/// The phase after an event.
pub open spec fn next_phase(p: Phase, e: WatchEvent, now: int) -> Phase {
    match (p, e) {
        (Phase::Closed, _) => Phase::Closed,
        (Phase::Rescanning, _) => Phase::Rescanning,
        (_, WatchEvent::Disconnected) => Phase::Closed,
        (Phase::Idle, WatchEvent::Change) => Phase::Settling {
            deadline: (now + WATCHER_DEBOUNCE) as i128,
        },
        (Phase::Idle, _) => Phase::Idle,
        (Phase::Settling { .. }, WatchEvent::Change) => Phase::Settling {
            deadline: (now + WATCHER_DEBOUNCE) as i128,
        },
        (Phase::Settling { .. }, WatchEvent::Timeout) => Phase::Rescanning,
        (Phase::Settling { deadline }, _) => Phase::Settling { deadline },
        (Phase::Quiet { .. }, WatchEvent::Timeout) => Phase::Idle,
        (Phase::Quiet { until }, _) => Phase::Quiet { until },
    }
}

/// Whether an event leads to a rescan.
pub open spec fn rescans(p: Phase, e: WatchEvent) -> bool {
    p is Settling && e is Timeout
}

/// A watcher of one library.
#[derive(Debug, Clone)]
pub struct LibraryWatch {
    /// How the watcher is called in the log.
    pub label: String,
    pub phase: Phase,
}

impl LibraryWatch {
    /// A watcher that waits for a first change.
    pub fn new(label: &str) -> (r: Self)
        ensures
            r.label@ == label@,
            r.phase == Phase::Idle,
    {
        LibraryWatch { label: owned(label), phase: Phase::Idle }
    }

    /// How long to wait for the next event.
    pub fn wait(&self, now: i128) -> (r: Wait)
        ensures
            r == (match self.phase {
                Phase::Settling { deadline } => if deadline > now {
                    Wait::AtMost((deadline - now) as u128)
                } else {
                    Wait::Over
                },
                Phase::Quiet { until } => if until > now {
                    Wait::AtMost((until - now) as u128)
                } else {
                    Wait::Over
                },
                _ => Wait::Forever,
            }),
    {
        let end: i128 = match self.phase {
            Phase::Settling { deadline } => deadline,
            Phase::Quiet { until } => until,
            _ => return Wait::Forever,
        };
        if end <= now {
            Wait::Over
        } else if now >= 0 || end < 0 {
            Wait::AtMost((end - now) as u128)
        } else if now == i128::MIN {
            Wait::AtMost(end as u128 + 0x8000_0000_0000_0000_0000_0000_0000_0000)
        } else {
            Wait::AtMost(end as u128 + (-now) as u128)
        }
    }

    /// What is to be done about an event that comes at a time.
    pub fn on_event(&mut self, e: WatchEvent, now: i128) -> (r: WatchAction)
        requires
            now <= i128::MAX - WATCHER_DEBOUNCE,
        ensures
            final(self).label@ == old(self).label@,
            final(self).phase == next_phase(old(self).phase, e, now as int),
            (r is Rescan) == rescans(old(self).phase, e),
            match r {
                WatchAction::Log(line) => (match e {
                    WatchEvent::Error(m) => (old(self).phase is Idle || old(self).phase is Settling)
                        && line@ == event_error(old(self).label@, m@),
                    _ => false,
                }),
                WatchAction::Stop(line) => e is Disconnected && !(old(self).phase is Closed)
                    && !(old(self).phase is Rescanning) && line@ == channel_closed(old(self).label@),
                WatchAction::Rescan => true,
                WatchAction::Nothing => !(e is Error && (old(self).phase is Idle || old(
                    self,
                ).phase is Settling)) && !(e is Disconnected && !(old(self).phase is Closed) && !(
                old(self).phase is Rescanning)),
            },
    {
        match self.phase {
            Phase::Closed => return WatchAction::Nothing,
            Phase::Rescanning => return WatchAction::Nothing,
            _ => {},
        }
        match e {
            WatchEvent::Disconnected => {
                self.phase = Phase::Closed;
                let mut line = self.label.clone();
                line.append(
                    ": event channel closed; automatic rescans are disabled for the rest of this session",
                );
                WatchAction::Stop(line)
            },
            WatchEvent::Change => {
                match self.phase {
                    Phase::Quiet { .. } => {},
                    _ => {
                        self.phase = Phase::Settling { deadline: now + WATCHER_DEBOUNCE as i128 };
                    },
                }
                WatchAction::Nothing
            },
            WatchEvent::Access => WatchAction::Nothing,
            WatchEvent::Error(m) => match self.phase {
                Phase::Quiet { .. } => WatchAction::Nothing,
                _ => {
                    let mut line = self.label.clone();
                    line.append(": event error: ");
                    line.append(m.as_str());
                    WatchAction::Log(line)
                },
            },
            WatchEvent::Timeout => match self.phase {
                Phase::Settling { .. } => {
                    self.phase = Phase::Rescanning;
                    WatchAction::Rescan
                },
                Phase::Quiet { .. } => {
                    self.phase = Phase::Idle;
                    WatchAction::Nothing
                },
                _ => WatchAction::Nothing,
            },
        }
    }

    /// Notes that a rescan is done: events are discarded for a while.
    pub fn rescanned(&mut self, now: i128)
        requires
            old(self).phase is Rescanning,
            now <= i128::MAX - POST_RESCAN_QUIET_PERIOD,
        ensures
            final(self).label@ == old(self).label@,
            final(self).phase == (Phase::Quiet { until: (now + POST_RESCAN_QUIET_PERIOD) as i128 }),
    {
        self.phase = Phase::Quiet { until: now + POST_RESCAN_QUIET_PERIOD as i128 };
    }
}

/// The line on a watcher that could not be set up.
pub fn start_failed(label: &str, e: &str) -> (r: String)
    ensures
        r@ == "warning: could not start the "@ + label@ + " ("@ + e@
            + "); automatic rescans are disabled for this session"@,
{
    let mut s = owned("warning: could not start the ");
    s.append(label);
    s.append(" (");
    s.append(e);
    s.append("); automatic rescans are disabled for this session");
    s
}

/// The line on a library that cannot be watched.
pub fn watch_failed(label: &str, root: &str, e: &str) -> (r: String)
    ensures
        r@ == "warning: "@ + label@ + " could not watch "@ + root@ + " for changes ("@ + e@
            + "); automatic rescans are disabled for this session"@,
{
    let mut s = owned("warning: ");
    s.append(label);
    s.append(" could not watch ");
    s.append(root);
    s.append(" for changes (");
    s.append(e);
    s.append("); automatic rescans are disabled for this session");
    s
}

/// The line on a library that is watched.
pub fn watching(label: &str, root: &str) -> (r: String)
    ensures
        r@ == label@ + ": watching "@ + root@ + " for library changes"@,
{
    let mut s = owned(label);
    s.append(": watching ");
    s.append(root);
    s.append(" for library changes");
    s
}

/// The phase after a run of events, each with its time.
pub open spec fn phase_after(p: Phase, events: Seq<(WatchEvent, int)>) -> Phase
    decreases events.len(),
{
    if events.len() == 0 {
        p
    } else {
        next_phase(phase_after(p, events.drop_last()), events.last().0, events.last().1)
    }
}

/// How many of a run of events lead to a rescan.
pub open spec fn rescan_count(p: Phase, events: Seq<(WatchEvent, int)>) -> nat
    decreases events.len(),
{
    if events.len() == 0 {
        0
    } else {
        rescan_count(p, events.drop_last()) + if rescans(
            phase_after(p, events.drop_last()),
            events.last().0,
        ) {
            1nat
        } else {
            0
        }
    }
}

/// Whether a run of events holds nothing but changes, accesses and failures.
pub open spec fn is_burst(events: Seq<(WatchEvent, int)>) -> bool {
    forall|i: int|
        0 <= i < events.len() ==> {
            ||| (#[trigger] events[i]).0 is Change
            ||| events[i].0 is Access
            ||| events[i].0 is Error
        }
}

/// Whether a run of events holds a change.
pub open spec fn has_change(events: Seq<(WatchEvent, int)>) -> bool {
    exists|i: int| 0 <= i < events.len() && (#[trigger] events[i]).0 is Change
}

proof fn burst_phase(events: Seq<(WatchEvent, int)>)
    requires
        is_burst(events),
    ensures
        rescan_count(Phase::Idle, events) == 0,
        has_change(events) ==> phase_after(Phase::Idle, events) is Settling,
        !has_change(events) ==> phase_after(Phase::Idle, events) is Idle,
    decreases events.len(),
{
    if events.len() > 0 {
        let rest = events.drop_last();
        assert forall|i: int| 0 <= i < rest.len() implies {
            ||| (#[trigger] rest[i]).0 is Change
            ||| rest[i].0 is Access
            ||| rest[i].0 is Error
        } by {
            assert(rest[i] == events[i]);
        }
        burst_phase(rest);
        let last = events.len() - 1;
        assert(events[last].0 is Change || events[last].0 is Access || events[last].0 is Error);
        if events[last].0 is Change {
            assert(has_change(events));
        } else if has_change(events) {
            let i = choose|i: int| 0 <= i < events.len() && (#[trigger] events[i]).0 is Change;
            assert(rest[i] == events[i]);
            assert(has_change(rest));
        }
        if has_change(rest) {
            let i = choose|i: int| 0 <= i < rest.len() && (#[trigger] rest[i]).0 is Change;
            assert(events[i] == rest[i]);
        }
    }
}

/// A burst of any number of changes, with accesses and failures among them, leads to exactly one
/// rescan, when it has settled; events without a change lead to none.
pub proof fn a_burst_is_one_rescan(events: Seq<(WatchEvent, int)>, settled: int)
    requires
        is_burst(events),
    ensures
        rescan_count(Phase::Idle, events) == 0,
        rescan_count(Phase::Idle, events.push((WatchEvent::Timeout, settled))) == (if has_change(
            events,
        ) {
            1nat
        } else {
            0
        }),
{
    burst_phase(events);
    assert(events.push((WatchEvent::Timeout, settled)).drop_last() =~= events);
}

/// What is only read or opened neither starts a rescan nor puts one off.
pub proof fn reading_changes_nothing(p: Phase, now: int)
    ensures
        next_phase(p, WatchEvent::Access, now) == p,
        !rescans(p, WatchEvent::Access),
{
}

/// Whatever comes in the quiet time after a rescan leads to no other rescan, so a rescan never
/// leads to itself.
pub proof fn a_rescan_does_not_lead_to_itself(until: i128, events: Seq<(WatchEvent, int)>)
    requires
        is_burst(events),
    ensures
        rescan_count(Phase::Quiet { until }, events) == 0,
        phase_after(Phase::Quiet { until }, events) == (Phase::Quiet { until }),
    decreases events.len(),
{
    if events.len() > 0 {
        let rest = events.drop_last();
        assert forall|i: int| 0 <= i < rest.len() implies {
            ||| (#[trigger] rest[i]).0 is Change
            ||| rest[i].0 is Access
            ||| rest[i].0 is Error
        } by {
            assert(rest[i] == events[i]);
        }
        a_rescan_does_not_lead_to_itself(until, rest);
        let last = events.len() - 1;
        assert(events[last].0 is Change || events[last].0 is Access || events[last].0 is Error);
    }
}

/// Each change of a burst puts the rescan off by the whole time that a burst takes to settle; a rescan
/// comes only when nothing more has come for so long, and after it the watcher listens again only once
/// the quiet time is over.
pub proof fn changes_put_a_rescan_off(p: Phase, e: WatchEvent, now: int)
    requires
        0 <= now <= i128::MAX - WATCHER_DEBOUNCE,
    ensures
        p is Idle || p is Settling ==> next_phase(p, WatchEvent::Change, now) == (Phase::Settling {
            deadline: (now + WATCHER_DEBOUNCE) as i128,
        }),
        rescans(p, e) ==> e is Timeout && p is Settling && next_phase(p, e, now) is Rescanning,
        next_phase(p, e, now) is Rescanning && !(p is Rescanning) ==> rescans(p, e),
        p is Quiet && !(e is Timeout) && !(e is Disconnected) ==> next_phase(p, e, now) == p,
        p is Quiet && e is Timeout ==> next_phase(p, e, now) is Idle,
        e is Disconnected && !(p is Rescanning) ==> next_phase(p, e, now) is Closed,
        p is Closed ==> next_phase(p, e, now) is Closed,
        WATCHER_DEBOUNCE == 1_500_000_000,
        POST_RESCAN_QUIET_PERIOD == 1_500_000_000,
{
}

} // verus!
