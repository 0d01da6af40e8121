//! What holds of the retry tracker over any course of events: its queue
//! stays ordered, a propagation that has waited a full retry interval is
//! sent again under a fresh id as soon as it is inspected, the tracker
//! rests only when nothing is overdue, and a propagation whose
//! acknowledgment was reported is never sent again.

use vstd::prelude::*;
use crate::body::BroadcastBodyView;
use crate::ids::MessageId;
use crate::tracker::{
    OutstandingView, TrackerActionView, TrackerStepView, TrackerView, RETRY_INTERVAL_MS,
};

verus! {

/// Something that happens to the tracker.
pub enum TrackerEvent {
    /// An action of the engine arrives at time `now`.
    Action { action: TrackerActionView, now: u64 },
    /// The tracker inspects its oldest entry at time `now`, while `next_id`
    /// is the id that the allocator hands out next.
    Poll { now: u64, next_id: usize },
}

/// The number of entries of the queue that have waited a full retry interval
/// at `now`.
pub open spec fn due(queue: Seq<OutstandingView>, now: u64) -> nat
    decreases queue.len(),
{
    if queue.len() == 0 {
        0
    } else {
        due(queue.drop_last(), now) + (if now - queue.last().sent >= RETRY_INTERVAL_MS {
            1nat
        } else {
            0nat
        })
    }
}

impl TrackerView {
    /// Whether the event may be handed to the tracker: time does not run
    /// backwards.
    pub open spec fn admits(self, event: TrackerEvent) -> bool {
        match event {
            TrackerEvent::Action { action, now } => action is Track ==> now >= self.latest(),
            TrackerEvent::Poll { now, .. } => now >= self.latest(),
        }
    }

    /// The tracker after the event.
    pub open spec fn step(self, event: TrackerEvent) -> TrackerView {
        match event {
            TrackerEvent::Action { action, now } => self.handle(action, now),
            TrackerEvent::Poll { now, next_id } => self.poll(now, next_id).0,
        }
    }

    /// What the tracker decides on the event: a step for an inspection,
    /// nothing for an action.
    pub open spec fn decides(self, event: TrackerEvent) -> Option<TrackerStepView> {
        match event {
            TrackerEvent::Action { .. } => None,
            TrackerEvent::Poll { now, next_id } => Some(self.poll(now, next_id).1),
        }
    }

    /// Whether the tracker, on the event, sends the propagation with the id
    /// `id` again.
    pub open spec fn sends_again(self, event: TrackerEvent, id: MessageId) -> bool {
        self.decides(event) matches Some(TrackerStepView::Resend { previous, .. }) && previous
            == id
    }

    /// The tracker after the events, in their order.
    pub open spec fn run(self, events: Seq<TrackerEvent>) -> TrackerView
        decreases events.len(),
    {
        if events.len() == 0 {
            self
        } else {
            self.run(events.drop_last()).step(events.last())
        }
    }

    /// Whether the events may be handed to the tracker one after the other.
    pub open spec fn admits_all(self, events: Seq<TrackerEvent>) -> bool {
        forall|k: int| 0 <= k < events.len() ==> self.run(events.take(k)).admits(#[trigger] events[k])
    }

    /// The id under which the entry at `i` was last sent.
    pub open spec fn id_at(self, i: int) -> MessageId {
        self.queue[i].msg.body.msg_id()
    }

    /// Whether at most one entry of the queue carries the id.
    pub open spec fn at_most_once(self, id: MessageId) -> bool {
        forall|i: int, j: int|
            0 <= i < self.queue.len() && 0 <= j < self.queue.len() && #[trigger] self.id_at(i) == id
                && #[trigger] self.id_at(j) == id ==> i == j
    }

    /// Whether an entry of the queue carries the id.
    pub open spec fn tracks(self, id: MessageId) -> bool {
        exists|i: int| 0 <= i < self.queue.len() && #[trigger] self.id_at(i) == id
    }
}

/// Whether the event brings the id `id` into the tracker: as the id of a
/// propagation to track, or as the id for a resend. An allocator that
/// never hands out an id twice rules both out for an id that is in use.
pub open spec fn reuses(event: TrackerEvent, id: MessageId) -> bool {
    match event {
        TrackerEvent::Action { action: TrackerActionView::Track(msg), .. } => msg.body.msg_id() == id,
        TrackerEvent::Action { .. } => false,
        TrackerEvent::Poll { next_id, .. } => next_id == id.0,
    }
}

/// Every event that a well-formed tracker admits leaves it well formed: only
/// propagations are tracked, oldest first.
pub proof fn lemma_step_wf(tracker: TrackerView, event: TrackerEvent)
    requires
        tracker.wf(),
        tracker.admits(event),
    ensures
        tracker.step(event).wf(),
{
    let after = tracker.step(event);
    assert forall|i: int| 0 <= i < after.queue.len() implies (#[trigger] after.queue[i]).msg.body is Broadcast by {
        if i < tracker.queue.len() {
            assert(tracker.queue[i].msg.body is Broadcast);
        }
        if i + 1 < tracker.queue.len() {
            assert(tracker.queue[i + 1].msg.body is Broadcast);
        }
        if tracker.queue.len() > 0 {
            assert(tracker.queue[0].msg.body is Broadcast);
        }
    }
    assert forall|i: int, j: int| 0 <= i <= j < after.queue.len() implies after.queue[i].sent
        <= after.queue[j].sent by {
        if tracker.queue.len() > 0 {
            let last = tracker.queue.len() - 1;
            assert(tracker.queue[0].sent <= tracker.queue[last].sent);
            if j < tracker.queue.len() {
                assert(tracker.queue[i].sent <= tracker.queue[j].sent);
                assert(tracker.queue[j].sent <= tracker.queue[last].sent);
            }
            if i < tracker.queue.len() {
                assert(tracker.queue[i].sent <= tracker.queue[last].sent);
            }
            if j + 1 < tracker.queue.len() {
                assert(tracker.queue[i + 1].sent <= tracker.queue[j + 1].sent);
            }
            if i + 1 < tracker.queue.len() {
                assert(tracker.queue[i + 1].sent <= tracker.queue[last].sent);
            }
        }
    }
}

/// A well-formed tracker is well formed after every beginning of a course
/// of events that it admits.
pub proof fn lemma_prefix_wf(tracker: TrackerView, events: Seq<TrackerEvent>, k: int)
    requires
        tracker.wf(),
        tracker.admits_all(events),
        0 <= k <= events.len(),
    ensures
        tracker.run(events.take(k)).wf(),
    decreases k,
{
    if k > 0 {
        lemma_prefix_wf(tracker, events, k - 1);
        assert(events.take(k).drop_last() =~= events.take(k - 1));
        assert(events.take(k).last() == events[k - 1]);
        lemma_step_wf(tracker.run(events.take(k - 1)), events[k - 1]);
    }
}

/// A well-formed tracker stays well formed over every course of events that
/// it admits.
pub proof fn lemma_run_wf(tracker: TrackerView, events: Seq<TrackerEvent>)
    requires
        tracker.wf(),
        tracker.admits_all(events),
    ensures
        tracker.run(events).wf(),
{
    lemma_prefix_wf(tracker, events, events.len() as int);
    assert(events.take(events.len() as int) =~= events);
}

/// Retry: when the oldest entry has waited a full retry interval and was not
/// cancelled, the inspection sends it again. What goes out is the same
/// envelope under the fresh id `next_id`, and it is this envelope that is
/// tracked from now on, at the back of the queue, as sent at `now`.
pub proof fn lemma_overdue_is_resent(tracker: TrackerView, now: u64, next_id: usize)
    requires
        tracker.wf(),
        tracker.queue.len() > 0,
        now >= tracker.latest(),
        tracker.overdue(0, now),
        !tracker.cancelled.contains(tracker.id_at(0).0),
    ensures
        ({
            let oldest = tracker.queue[0].msg;
            let (after, step) = tracker.poll(now, next_id);
            &&& step matches TrackerStepView::Resend { previous, msg }
            &&& previous == tracker.id_at(0)
            &&& msg.src == oldest.src
            &&& msg.dest == oldest.dest
            &&& oldest.body matches BroadcastBodyView::Broadcast { message, .. }
            &&& msg.body == (BroadcastBodyView::Broadcast { msg_id: MessageId(next_id), message })
            &&& after.queue.len() == tracker.queue.len()
            &&& after.queue.last() == (OutstandingView { msg, sent: now })
            &&& after.cancelled == tracker.cancelled
        }),
{
    assert(tracker.queue[0].msg.body is Broadcast);
}

/// Rest: the tracker asks to wait only when no entry has waited a full retry
/// interval, and then for exactly as long as the oldest entry still has.
pub proof fn lemma_wait_means_nothing_is_overdue(tracker: TrackerView, now: u64, next_id: usize)
    requires
        tracker.wf(),
        now >= tracker.latest(),
        tracker.poll(now, next_id).1 is Wait,
    ensures
        tracker.poll(now, next_id).0 == tracker,
        forall|i: int| 0 <= i < tracker.queue.len() ==> !tracker.overdue(i, now),
        tracker.queue.len() > 0,
        tracker.poll(now, next_id).1 matches TrackerStepView::Wait(ms) && 0 < ms
            <= RETRY_INTERVAL_MS && tracker.queue[0].sent + RETRY_INTERVAL_MS == now + ms,
{
    assert forall|i: int| 0 <= i < tracker.queue.len() implies !tracker.overdue(i, now) by {
        assert(tracker.queue[0].sent <= tracker.queue[i].sent);
    }
    let last = tracker.queue.len() - 1;
    assert(tracker.queue[0].sent <= tracker.queue[last].sent);
}

/// The count of overdue entries, taken from the front of the queue.
proof fn lemma_due_front(queue: Seq<OutstandingView>, now: u64)
    requires
        queue.len() > 0,
    ensures
        due(queue, now) == due(queue.drop_first(), now) + (if now - queue[0].sent
            >= RETRY_INTERVAL_MS {
            1nat
        } else {
            0nat
        }),
    decreases queue.len(),
{
    if queue.len() == 1 {
        assert(queue.drop_last() =~= Seq::empty());
        assert(queue.drop_first() =~= Seq::empty());
    } else {
        lemma_due_front(queue.drop_last(), now);
        assert(queue.drop_last().drop_first() =~= queue.drop_first().drop_last());
        assert(queue.drop_first().last() == queue.last());
        assert(queue.drop_last()[0] == queue[0]);
    }
}

/// No entry is overdue exactly when the count of overdue entries is 0.
proof fn lemma_due_zero(queue: Seq<OutstandingView>, now: u64)
    ensures
        due(queue, now) == 0 <==> forall|i: int|
            0 <= i < queue.len() ==> now - (#[trigger] queue[i]).sent < RETRY_INTERVAL_MS,
    decreases queue.len(),
{
    if queue.len() > 0 {
        let front = queue.drop_last();
        lemma_due_zero(front, now);
        if due(queue, now) == 0 {
            assert forall|i: int| 0 <= i < queue.len() implies now - (#[trigger] queue[i]).sent
                < RETRY_INTERVAL_MS by {
                if i < front.len() {
                    assert(front[i] == queue[i]);
                }
            }
        }
        if forall|i: int| 0 <= i < queue.len() ==> now - (#[trigger] queue[i]).sent < RETRY_INTERVAL_MS {
            assert forall|i: int| 0 <= i < front.len() implies now - (#[trigger] front[i]).sent
                < RETRY_INTERVAL_MS by {
                assert(front[i] == queue[i]);
            }
            assert(now - queue[queue.len() - 1].sent < RETRY_INTERVAL_MS);
        }
    }
}

/// Progress: as long as some entry is overdue, an inspection does not rest:
/// it removes or resends the oldest entry, and one entry fewer is overdue
/// afterwards. So after as many inspections as there were overdue entries,
/// none is overdue.
pub proof fn lemma_poll_makes_progress(tracker: TrackerView, now: u64, next_id: usize)
    requires
        tracker.wf(),
        now >= tracker.latest(),
        due(tracker.queue, now) > 0,
    ensures
        tracker.queue.len() > 0,
        tracker.overdue(0, now),
        ({
            let (after, step) = tracker.poll(now, next_id);
            &&& step is Cancelled || step is Resend
            &&& due(after.queue, now) == due(tracker.queue, now) - 1
            &&& now >= after.latest()
        }),
{
    lemma_due_zero(tracker.queue, now);
    let i = choose|i: int|
        0 <= i < tracker.queue.len() && !(now - (#[trigger] tracker.queue[i]).sent
            < RETRY_INTERVAL_MS);
    assert(tracker.queue[0].sent <= tracker.queue[i].sent);
    lemma_due_front(tracker.queue, now);
    let (after, step) = tracker.poll(now, next_id);
    let last = tracker.queue.len() - 1;
    assert(tracker.queue[0].sent <= tracker.queue[last].sent);
    if tracker.cancelled.contains(tracker.id_at(0).0) {
        if tracker.queue.len() > 1 {
            assert(tracker.queue.drop_first().last() == tracker.queue.last());
        }
    } else {
        let rest = tracker.queue.drop_first();
        assert(after.queue.drop_last() =~= rest);
    }
}

/// The tracker after one inspection at `now` for each of `ids`, where each
/// id is the one that the allocator would hand out at that inspection.
pub open spec fn polled(tracker: TrackerView, now: u64, ids: Seq<usize>) -> TrackerView
    decreases ids.len(),
{
    if ids.len() == 0 {
        tracker
    } else {
        polled(tracker, now, ids.drop_last()).poll(now, ids.last()).0
    }
}

/// Nothing stays overdue: every inspection at `now` leaves one entry fewer
/// overdue, so that after as many inspections as there were entries overdue
/// at `now`, no entry is overdue any more.
pub proof fn lemma_overdue_are_cleared(tracker: TrackerView, now: u64, ids: Seq<usize>)
    requires
        tracker.wf(),
        now >= tracker.latest(),
        ids.len() <= due(tracker.queue, now),
    ensures
        polled(tracker, now, ids).wf(),
        now >= polled(tracker, now, ids).latest(),
        due(polled(tracker, now, ids).queue, now) == due(tracker.queue, now) - ids.len(),
        ids.len() == due(tracker.queue, now) ==> forall|i: int|
            0 <= i < polled(tracker, now, ids).queue.len() ==> !polled(tracker, now, ids).overdue(
                i,
                now,
            ),
    decreases ids.len(),
{
    if ids.len() > 0 {
        let front = ids.drop_last();
        lemma_overdue_are_cleared(tracker, now, front);
        let before = polled(tracker, now, front);
        lemma_poll_makes_progress(before, now, ids.last());
        lemma_step_wf(before, TrackerEvent::Poll { now, next_id: ids.last() });
    }
    let after = polled(tracker, now, ids);
    if ids.len() == due(tracker.queue, now) {
        lemma_due_zero(after.queue, now);
    }
}

/// Whether the tracker, over the events, sends the propagation with the id
/// `id` again.
pub open spec fn resends(tracker: TrackerView, events: Seq<TrackerEvent>, id: MessageId) -> bool {
    exists|k: int|
        0 <= k < events.len() && #[trigger] tracker.run(events.take(k)).sends_again(events[k], id)
}

/// What keeps a cancelled propagation from being sent again: at most one
/// entry carries the id, and if one does, the cancellation is still
/// recorded.
#[verifier::opaque]
pub open spec fn held_back(tracker: TrackerView, id: MessageId) -> bool {
    &&& tracker.wf()
    &&& tracker.at_most_once(id)
    &&& tracker.tracks(id) ==> tracker.cancelled.contains(id.0)
}

/// An event that does not bring the id back keeps the propagation held
/// back, and does not send it again.
pub proof fn lemma_step_holds_back(tracker: TrackerView, id: MessageId, event: TrackerEvent)
    requires
        held_back(tracker, id),
        tracker.admits(event),
        !reuses(event, id),
    ensures
        held_back(tracker.step(event), id),
        !tracker.sends_again(event, id),
{
    reveal(held_back);
    lemma_step_wf(tracker, event);
    let after = tracker.step(event);
    match event {
        TrackerEvent::Action { action, now } => {
            match action {
                TrackerActionView::Track(msg) => {
                    assert forall|i: int, j: int|
                        0 <= i < after.queue.len() && 0 <= j < after.queue.len()
                            && #[trigger] after.id_at(i) == id && #[trigger] after.id_at(j)
                            == id implies i == j by {
                        assert(i < tracker.queue.len() && j < tracker.queue.len());
                        assert(tracker.id_at(i) == id && tracker.id_at(j) == id);
                    }
                    if after.tracks(id) {
                        let i = choose|i: int|
                            0 <= i < after.queue.len() && #[trigger] after.id_at(i) == id;
                        assert(tracker.id_at(i) == id);
                    }
                },
                TrackerActionView::Stop(stopped) => {
                    assert forall|i: int, j: int|
                        0 <= i < after.queue.len() && 0 <= j < after.queue.len()
                            && #[trigger] after.id_at(i) == id && #[trigger] after.id_at(j)
                            == id implies i == j by {
                        assert(tracker.id_at(i) == id && tracker.id_at(j) == id);
                    }
                    if after.tracks(id) {
                        let i = choose|i: int|
                            0 <= i < after.queue.len() && #[trigger] after.id_at(i) == id;
                        assert(tracker.id_at(i) == id);
                    }
                },
            }
        },
        TrackerEvent::Poll { now, next_id } => {
            if tracker.queue.len() > 0 {
                let front = tracker.id_at(0);
                assert(tracker.queue[0].msg.body is Broadcast);
                if tracker.cancelled.contains(front.0) {
                    assert forall|i: int, j: int|
                        0 <= i < after.queue.len() && 0 <= j < after.queue.len()
                            && #[trigger] after.id_at(i) == id && #[trigger] after.id_at(j)
                            == id implies i == j by {
                        assert(tracker.id_at(i + 1) == id && tracker.id_at(j + 1) == id);
                    }
                    if after.tracks(id) {
                        let i = choose|i: int|
                            0 <= i < after.queue.len() && #[trigger] after.id_at(i) == id;
                        assert(tracker.id_at(i + 1) == id);
                        if front == id {
                            assert(tracker.id_at(0) == id);
                        }
                    }
                } else if tracker.overdue(0, now) {
                    if front == id {
                        assert(tracker.id_at(0) == id);
                    }
                    assert(after.id_at(after.queue.len() - 1) == MessageId(next_id));
                    assert forall|i: int, j: int|
                        0 <= i < after.queue.len() && 0 <= j < after.queue.len()
                            && #[trigger] after.id_at(i) == id && #[trigger] after.id_at(j)
                            == id implies i == j by {
                        assert(i < after.queue.len() - 1 && j < after.queue.len() - 1);
                        assert(tracker.id_at(i + 1) == id && tracker.id_at(j + 1) == id);
                    }
                    if after.tracks(id) {
                        let i = choose|i: int|
                            0 <= i < after.queue.len() && #[trigger] after.id_at(i) == id;
                        assert(i < after.queue.len() - 1);
                        assert(tracker.id_at(i + 1) == id);
                    }
                }
            }
        },
    }
}

/// The report of an acknowledgment holds the propagation back.
pub proof fn lemma_stop_holds_back(tracker: TrackerView, id: MessageId)
    requires
        tracker.wf(),
        tracker.at_most_once(id),
    ensures
        held_back(tracker.stop(id), id),
{
    reveal(held_back);
    let stopped = tracker.stop(id);
    assert forall|i: int, j: int|
        0 <= i < stopped.queue.len() && 0 <= j < stopped.queue.len() && #[trigger] stopped.id_at(i)
            == id && #[trigger] stopped.id_at(j) == id implies i == j by {
        assert(tracker.id_at(i) == id && tracker.id_at(j) == id);
    }
}

/// A propagation that is held back is still held back after every beginning
/// of a course of events that does not bring its id back.
pub proof fn lemma_prefix_holds_back(
    tracker: TrackerView,
    id: MessageId,
    events: Seq<TrackerEvent>,
    k: int,
)
    requires
        held_back(tracker, id),
        tracker.admits_all(events),
        forall|j: int| 0 <= j < events.len() ==> !reuses(#[trigger] events[j], id),
        0 <= k <= events.len(),
    ensures
        held_back(tracker.run(events.take(k)), id),
    decreases k,
{
    if k > 0 {
        lemma_prefix_holds_back(tracker, id, events, k - 1);
        assert(events.take(k).drop_last() =~= events.take(k - 1));
        assert(events.take(k).last() == events[k - 1]);
        lemma_step_holds_back(tracker.run(events.take(k - 1)), id, events[k - 1]);
    }
}

/// A propagation that is held back stays so, and is not sent again, over
/// every course of events that does not bring its id back.
pub proof fn lemma_run_holds_back(tracker: TrackerView, id: MessageId, events: Seq<TrackerEvent>)
    requires
        held_back(tracker, id),
        tracker.admits_all(events),
        forall|k: int| 0 <= k < events.len() ==> !reuses(#[trigger] events[k], id),
    ensures
        held_back(tracker.run(events), id),
        !resends(tracker, events, id),
{
    lemma_prefix_holds_back(tracker, id, events, events.len() as int);
    assert(events.take(events.len() as int) =~= events);
    assert forall|k: int| 0 <= k < events.len() implies !#[trigger] tracker.run(
        events.take(k),
    ).sends_again(events[k], id) by {
        lemma_prefix_holds_back(tracker, id, events, k);
        lemma_step_holds_back(tracker.run(events.take(k)), id, events[k]);
    }
}

/// Cancellation: once the acknowledgment of a propagation was reported, the
/// propagation is never sent again, whatever events follow, as long as its
/// id is not handed out a second time.
pub proof fn lemma_acknowledged_is_not_resent(
    tracker: TrackerView,
    id: MessageId,
    events: Seq<TrackerEvent>,
)
    requires
        tracker.wf(),
        tracker.at_most_once(id),
        tracker.stop(id).admits_all(events),
        forall|k: int| 0 <= k < events.len() ==> !reuses(#[trigger] events[k], id),
    ensures
        !resends(tracker.stop(id), events, id),
{
    lemma_stop_holds_back(tracker, id);
    lemma_run_holds_back(tracker.stop(id), id, events);
}

} // verus!
