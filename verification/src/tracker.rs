//! The retry tracker: a queue of propagations that wait for their
//! acknowledgment, oldest first, and the decision what to do about the oldest
//! one.
//!
//! The tracker never waits and never sends. Its owner hands it the actions
//! that arrive and the current time, and carries out the step it decides on.

use vstd::prelude::*;
use std::collections::HashSet;
use std::collections::VecDeque;
use crate::body::{BroadcastBody, BroadcastBodyView};
use crate::ids::{MessageId, MessageIdCounter};
use crate::message::{Message, MessageBody, MessageView};

verus! {

/// How long a propagation may stay unacknowledged before it is sent again, in
/// milliseconds.
pub const RETRY_INTERVAL_MS: u64 = 150;

/// What the dissemination engine asks of the tracker.
#[derive(Debug, PartialEq, Eq)]
pub enum TrackerAction {
    /// Start tracking a propagation that was just sent.
    Track(Message<BroadcastBody>),
    /// Stop tracking the propagation with this id: it was acknowledged.
    Stop(MessageId),
}

/// The mathematical content of a [`TrackerAction`].
pub enum TrackerActionView {
    Track(MessageView<BroadcastBodyView>),
    Stop(MessageId),
}

impl View for TrackerAction {
    type V = TrackerActionView;

    open spec fn view(&self) -> TrackerActionView {
        match self {
            TrackerAction::Track(msg) => TrackerActionView::Track(msg@),
            TrackerAction::Stop(id) => TrackerActionView::Stop(*id),
        }
    }
}

/// What the tracker decided when it inspected its oldest entry.
#[derive(Debug, PartialEq, Eq)]
pub enum TrackerStep {
    /// Nothing is tracked: wait until an action arrives.
    Idle,
    /// The oldest entry had been cancelled and was removed: inspect again.
    Cancelled(MessageId),
    /// The oldest entry was overdue. `msg` is to be sent: it is the tracked
    /// propagation under a fresh message id, and it is now tracked in place
    /// of the one that carried `previous`.
    Resend { previous: MessageId, msg: Message<BroadcastBody> },
    /// The oldest entry is not due yet: wait this many milliseconds, or until
    /// an action arrives, whichever comes first.
    Wait(u64),
}

/// The mathematical content of a [`TrackerStep`].
pub enum TrackerStepView {
    Idle,
    Cancelled(MessageId),
    Resend { previous: MessageId, msg: MessageView<BroadcastBodyView> },
    Wait(u64),
}

impl View for TrackerStep {
    type V = TrackerStepView;

    open spec fn view(&self) -> TrackerStepView {
        match self {
            TrackerStep::Idle => TrackerStepView::Idle,
            TrackerStep::Cancelled(id) => TrackerStepView::Cancelled(*id),
            TrackerStep::Resend { previous, msg } => TrackerStepView::Resend {
                previous: *previous,
                msg: msg@,
            },
            TrackerStep::Wait(ms) => TrackerStepView::Wait(*ms),
        }
    }
}

/// A tracked propagation as the tracker's model sees it: the envelope, and
/// the time at which it was last sent.
pub struct OutstandingView {
    pub msg: MessageView<BroadcastBodyView>,
    pub sent: u64,
}

/// The tracker's state as a mathematical value: the queue of tracked
/// propagations, oldest first, and the ids that were acknowledged before
/// their entry was removed from the queue.
pub struct TrackerView {
    pub queue: Seq<OutstandingView>,
    pub cancelled: Set<usize>,
}

impl TrackerView {
    /// The tracker that tracks nothing.
    pub open spec fn empty() -> TrackerView {
        TrackerView { queue: Seq::empty(), cancelled: Set::empty() }
    }

    /// Only propagations are tracked, and the queue is ordered by the time of
    /// sending, oldest first.
    pub open spec fn wf(self) -> bool {
        &&& forall|i: int|
            0 <= i < self.queue.len() ==> (#[trigger] self.queue[i]).msg.body is Broadcast
        &&& forall|i: int, j: int|
            0 <= i <= j < self.queue.len() ==> self.queue[i].sent <= self.queue[j].sent
    }

    /// The latest time at which a tracked propagation was sent, 0 if nothing
    /// is tracked.
    pub open spec fn latest(self) -> u64 {
        if self.queue.len() == 0 {
            0
        } else {
            self.queue.last().sent
        }
    }

    /// The state after `msg` was handed over for tracking at time `now`.
    /// Anything but a propagation is ignored.
    pub open spec fn track(self, msg: MessageView<BroadcastBodyView>, now: u64) -> TrackerView {
        if msg.body is Broadcast {
            TrackerView { queue: self.queue.push(OutstandingView { msg, sent: now }), ..self }
        } else {
            self
        }
    }

    /// The state after the acknowledgment of `id` was reported.
    pub open spec fn stop(self, id: MessageId) -> TrackerView {
        TrackerView { cancelled: self.cancelled.insert(id.0), ..self }
    }

    /// The state after `action` arrived at time `now`.
    pub open spec fn handle(self, action: TrackerActionView, now: u64) -> TrackerView {
        match action {
            TrackerActionView::Track(msg) => self.track(msg, now),
            TrackerActionView::Stop(id) => self.stop(id),
        }
    }

    /// Whether the entry at `i` has waited a full retry interval at `now`.
    pub open spec fn overdue(self, i: int, now: u64) -> bool {
        now - self.queue[i].sent >= RETRY_INTERVAL_MS
    }

    /// One inspection of the oldest entry at time `now`, where `next_id` is
    /// the id that the allocator would hand out next: the state afterwards,
    /// and the step decided on.
    pub open spec fn poll(self, now: u64, next_id: usize) -> (TrackerView, TrackerStepView) {
        if self.queue.len() == 0 {
            (self, TrackerStepView::Idle)
        } else {
            let front = self.queue[0];
            let id = front.msg.body.msg_id();
            if self.cancelled.contains(id.0) {
                (
                    TrackerView {
                        queue: self.queue.drop_first(),
                        cancelled: self.cancelled.remove(id.0),
                    },
                    TrackerStepView::Cancelled(id),
                )
            } else if self.overdue(0, now) {
                let msg = MessageView {
                    body: BroadcastBody::with_msg_id(front.msg.body, MessageId(next_id)),
                    ..front.msg
                };
                (
                    TrackerView {
                        queue: self.queue.drop_first().push(OutstandingView { msg, sent: now }),
                        ..self
                    },
                    TrackerStepView::Resend { previous: id, msg },
                )
            } else {
                (self, TrackerStepView::Wait((RETRY_INTERVAL_MS - (now - front.sent)) as u64))
            }
        }
    }
}

/// A tracked propagation and the time at which it was last sent, in
/// milliseconds.
struct Outstanding {
    msg: Message<BroadcastBody>,
    sent: u64,
}

impl View for Outstanding {
    type V = OutstandingView;

    closed spec fn view(&self) -> OutstandingView {
        OutstandingView { msg: self.msg@, sent: self.sent }
    }
}

impl DeepView for Outstanding {
    type V = OutstandingView;

    closed spec fn deep_view(&self) -> OutstandingView {
        self@
    }
}

/// The retry tracker.
pub struct Tracker {
    trackers: VecDeque<Outstanding>,
    cancellations: HashSet<usize>,
}

impl View for Tracker {
    type V = TrackerView;

    closed spec fn view(&self) -> TrackerView {
        TrackerView { queue: self.trackers.deep_view(), cancelled: self.cancellations@ }
    }
}

impl Tracker {
    /// The invariant of the tracker: that of its model.
    pub open spec fn wf(&self) -> bool {
        self@.wf()
    }

    /// A tracker that tracks nothing.
    pub fn new() -> (tracker: Tracker)
        ensures
            tracker.wf(),
            tracker@ == TrackerView::empty(),
    {
        let tracker = Tracker { trackers: VecDeque::new(), cancellations: HashSet::new() };
        assert(tracker@.queue =~= Seq::empty());
        tracker
    }

    /// The number of propagations that are tracked.
    pub fn len(&self) -> (n: usize)
        ensures
            n == self@.queue.len(),
    {
        self.trackers.len()
    }

    /// The latest time at which a tracked propagation was sent, 0 if nothing
    /// is tracked. Time handed to the tracker must not lie before it.
    pub fn latest(&self) -> (at: u64)
        ensures
            at == self@.latest(),
    {
        let n = self.trackers.len();
        if n == 0 {
            0
        } else {
            self.trackers[n - 1].sent
        }
    }

    /// Takes in an action of the engine at time `now`: a propagation to track
    /// goes to the back of the queue, an acknowledged id into the set of
    /// cancellations.
    pub fn handle_msg(&mut self, msg: TrackerAction, now: u64)
        requires
            old(self).wf(),
            msg is Track ==> now >= old(self)@.latest(),
        ensures
            final(self).wf(),
            final(self)@ == old(self)@.handle(msg@, now),
    {
        match msg {
            TrackerAction::Track(msg) => {
                let is_propagation = match &msg.body {
                    BroadcastBody::Broadcast { .. } => true,
                    _ => false,
                };
                if is_propagation {
                    let ghost before = self.trackers.deep_view();
                    let entry = Outstanding { msg, sent: now };
                    self.trackers.push_back(entry);
                    assert(self.trackers.deep_view() =~= before.push(entry@));
                }
            },
            TrackerAction::Stop(id) => {
                self.cancellations.insert(id.0);
            },
        }
    }

    /// Inspects the oldest entry at time `now` and decides what is to be done
    /// about it.
    ///
    /// An entry whose id was cancelled is removed together with the
    /// cancellation. Otherwise, an entry that has waited a full retry
    /// interval is sent again: it gets a fresh id from `counter` and the time
    /// `now`, and goes to the back of the queue. Otherwise nothing changes,
    /// and the step says how long the entry still has.
    pub fn poll(&mut self, counter: &mut MessageIdCounter, now: u64) -> (step: TrackerStep)
        requires
            old(self).wf(),
            now >= old(self)@.latest(),
            old(counter)@ < usize::MAX,
        ensures
            final(self).wf(),
            (final(self)@, step@) == old(self)@.poll(now, old(counter)@ as usize),
            final(counter)@ == old(counter)@ + (if step is Resend { 1nat } else { 0nat }),
    {
        if self.trackers.len() == 0 {
            return TrackerStep::Idle;
        }
        let ghost before = self.trackers.deep_view();
        assert(before[0] == self.trackers@[0]@);
        let id = self.trackers[0].msg.body.msg_id();
        if self.cancellations.remove(&id.0) {
            self.trackers.pop_front();
            assert(self.trackers.deep_view() =~= before.drop_first());
            return TrackerStep::Cancelled(id);
        }
        assert(self.cancellations@ =~= old(self).cancellations@);
        let elapsed = now - self.trackers[0].sent;
        if elapsed >= RETRY_INTERVAL_MS {
            let oldest = self.trackers.pop_front().unwrap();
            let msg = oldest.msg.clone_with_msg_id(counter.next_id());
            let entry = Outstanding { msg: msg.clone(), sent: now };
            self.trackers.push_back(entry);
            assert(self.trackers.deep_view() =~= before.drop_first().push(entry@));
            TrackerStep::Resend { previous: id, msg }
        } else {
            TrackerStep::Wait(RETRY_INTERVAL_MS - elapsed)
        }
    }
}

} // verus!
