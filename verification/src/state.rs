//! The state of an enumeration as plain values, the events that change it,
//! and what holds of every sequence of events.

use crate::encoding::EncodingView;
use crate::sorting::{all_filters, lemma_all_filters, lemma_sorted_filters, sorted_filters};
use crate::worker::{lemma_worker_stays_wf, WorkerView};
use vstd::prelude::*;

verus! {

/// What is kept of one worker, as plain values.
pub struct RecordView {
    /// The worker's number.
    pub id: int,
    /// The first instruction of the worker's range.
    pub from: Seq<u8>,
    /// The last instruction of the worker's range, if it has one.
    pub to: Option<Seq<u8>>,
    /// The worker.
    pub inner: WorkerView,
    /// The number of artifacts that the worker produced.
    pub artifacts_produced: nat,
    /// Whether the worker has exhausted its range.
    pub done: bool,
}

impl RecordView {
    /// The worker is well formed and its counter runs over the recorded
    /// range.
    pub open spec fn wf(self) -> bool {
        &&& self.inner.wf()
        &&& self.from == self.inner.counter.from
        &&& self.to == self.inner.counter.to
    }

    /// The record after the worker was asked what to classify next. A worker
    /// that is done is not asked; one that finds its range exhausted is done.
    pub open spec fn probed(self) -> RecordView {
        if self.done {
            self
        } else {
            RecordView { inner: self.inner.probed(), done: self.inner.probe() is None, ..self }
        }
    }

    /// The record after an encoding was recorded for the instruction that
    /// was out for classification.
    pub open spec fn classified(self, encoding: EncodingView) -> RecordView {
        RecordView {
            inner: self.inner.classified(encoding.filters),
            artifacts_produced: self.artifacts_produced + 1,
            done: self.done || self.inner.finished_by(encoding.filters),
            ..self
        }
    }

    /// The record after the classification of the instruction that was out
    /// failed.
    pub open spec fn failed(self) -> RecordView {
        RecordView {
            inner: self.inner.failed_probe(),
            done: self.done || self.inner.finished_by(self.inner.failure_filters()),
            ..self
        }
    }

    /// The record with the worker set back to the start of its range.
    pub open spec fn reset(self) -> RecordView {
        RecordView { inner: self.inner.reset(), done: false, ..self }
    }

    /// The record with the worker no longer done.
    pub open spec fn resumed(self) -> RecordView {
        RecordView { done: false, ..self }
    }

    /// The record with the worker walking with leaps, or without.
    pub open spec fn tunnelling(self, on: bool) -> RecordView {
        RecordView { inner: WorkerView { fast_tunnel: on, ..self.inner }, ..self }
    }

    /// The record with nothing seen.
    pub open spec fn forgetful(self) -> RecordView {
        RecordView { inner: WorkerView { seen: Seq::empty(), ..self.inner }, ..self }
    }

    /// The record with the given filters in place of the worker's own.
    pub open spec fn reloaded(self, filters: Seq<Seq<crate::filter::ByteFilter>>) -> RecordView {
        RecordView { inner: self.inner.reloaded(filters), ..self }
    }
}

/// What changes the state of an enumeration.
pub enum Event {
    /// A worker is asked what to classify next.
    Probe { worker: int },
    /// The instruction that a worker had out was classified.
    Classified { worker: int, encoding: EncodingView },
    /// The classification of the instruction that a worker had out failed.
    Failed { worker: int },
    /// A worker is set back to the start of its range.
    Reset { worker: int },
    /// A worker that was done is set going again.
    Resume { worker: int },
    /// All workers forget what they have seen.
    ResetSeen,
    /// The filters of all workers are built anew from the artifacts.
    Rebuild,
    /// A worker is told to walk with leaps, or without.
    Tunnel { worker: int, on: bool },
    /// Time has passed.
    Tick { seconds: nat },
}

/// The state of an enumeration, as plain values.
pub struct WorkView {
    /// The workers.
    pub workers: Seq<RecordView>,
    /// The artifacts, in the order in which they were recorded.
    pub artifacts: Seq<EncodingView>,
    /// The seconds that the enumeration has run.
    pub seconds_running: nat,
}

impl WorkView {
    /// The workers are well formed and numbered by their place, none has
    /// produced more artifacts than there are, and the artifacts are well
    /// formed.
    pub open spec fn wf(self) -> bool {
        &&& forall|k: int|
            0 <= k < self.workers.len() ==> {
                &&& (#[trigger] self.workers[k]).wf()
                &&& self.workers[k].id == k
                &&& self.workers[k].artifacts_produced <= self.artifacts.len()
            }
        &&& forall|i: int| 0 <= i < self.artifacts.len() ==> (#[trigger] self.artifacts[i]).wf()
        &&& self.seconds_running <= u64::MAX
    }

    /// Whether there is a worker `k`.
    pub open spec fn has_worker(self, k: int) -> bool {
        0 <= k < self.workers.len()
    }

    /// The state with `record` in the place of worker `k`.
    pub open spec fn with_worker(self, k: int, record: RecordView) -> WorkView {
        WorkView { workers: self.workers.update(k, record), ..self }
    }

    /// The filters that a rebuild gives to every worker: those of all
    /// artifacts, by the first instruction that each matches.
    pub open spec fn rebuilt_filters(self) -> Seq<Seq<crate::filter::ByteFilter>> {
        sorted_filters(all_filters(self.artifacts))
    }

    /// The state after `event`. An event for a worker that does not exist, or
    /// an outcome for a worker that has no instruction out, changes nothing.
    pub open spec fn apply(self, event: Event) -> WorkView {
        match event {
            Event::Probe { worker } => if self.has_worker(worker) {
                self.with_worker(worker, self.workers[worker].probed())
            } else {
                self
            },
            Event::Classified { worker, encoding } => if self.has_worker(worker)
                && self.workers[worker].inner.next is Some {
                WorkView {
                    workers: self.workers.update(worker, self.workers[worker].classified(encoding)),
                    artifacts: self.artifacts.push(encoding),
                    ..self
                }
            } else {
                self
            },
            Event::Failed { worker } => if self.has_worker(worker)
                && self.workers[worker].inner.next is Some {
                self.with_worker(worker, self.workers[worker].failed())
            } else {
                self
            },
            Event::Reset { worker } => if self.has_worker(worker) {
                self.with_worker(worker, self.workers[worker].reset())
            } else {
                self
            },
            Event::Resume { worker } => if self.has_worker(worker) {
                self.with_worker(worker, self.workers[worker].resumed())
            } else {
                self
            },
            Event::ResetSeen => WorkView {
                workers: Seq::new(self.workers.len(), |k: int| self.workers[k].forgetful()),
                ..self
            },
            Event::Rebuild => WorkView {
                workers: Seq::new(
                    self.workers.len(),
                    |k: int| self.workers[k].reloaded(self.rebuilt_filters()),
                ),
                ..self
            },
            Event::Tunnel { worker, on } => if self.has_worker(worker) {
                self.with_worker(worker, self.workers[worker].tunnelling(on))
            } else {
                self
            },
            Event::Tick { seconds } => WorkView {
                seconds_running: if self.seconds_running + seconds > u64::MAX {
                    u64::MAX as nat
                } else {
                    self.seconds_running + seconds
                },
                ..self
            },
        }
    }

    /// The state after the events of `events`, one after the other.
    pub open spec fn run(self, events: Seq<Event>) -> WorkView
        decreases events.len(),
    {
        if events.len() == 0 {
            self
        } else {
            self.run(events.drop_last()).apply(events.last())
        }
    }
}

/// Whether the encoding of each event that records one is well formed.
pub open spec fn sound(events: Seq<Event>) -> bool {
    forall|i: int|
        0 <= i < events.len() ==> ((#[trigger] events[i]) matches Event::Classified {
            encoding,
            ..
        } ==> encoding.wf())
}

/// A well-formed state stays well formed under every event that records no
/// ill-formed encoding. In such a state each worker stands within its range
/// and has produced no more artifacts than there are.
pub proof fn lemma_apply_wf(state: WorkView, event: Event)
    requires
        state.wf(),
        event matches Event::Classified { encoding, .. } ==> encoding.wf(),
    ensures
        state.apply(event).wf(),
{
    let after = state.apply(event);
    let rebuilt = state.rebuilt_filters();
    lemma_all_filters(state.artifacts);
    lemma_sorted_filters(all_filters(state.artifacts));
    assert forall|k: int| 0 <= k < after.workers.len() implies {
        &&& (#[trigger] after.workers[k]).wf()
        &&& after.workers[k].id == k
        &&& after.workers[k].artifacts_produced <= after.artifacts.len()
    } by {
        let was = state.workers[k];
        assert(was.wf());
        match event {
            Event::Classified { encoding, .. } => {
                lemma_worker_stays_wf(was.inner, encoding.filters);
            },
            Event::Rebuild => {
                lemma_worker_stays_wf(was.inner, rebuilt);
            },
            _ => {
                lemma_worker_stays_wf(was.inner, Seq::empty());
            },
        }
    }
    assert forall|i: int| 0 <= i < after.artifacts.len() implies (#[trigger] after.artifacts[i]).wf() by {
        if i < state.artifacts.len() {
            assert(state.artifacts[i].wf());
        }
    }
}

/// A well-formed state stays well formed under every sequence of events
/// that records no ill-formed encoding.
pub proof fn lemma_run_wf(state: WorkView, events: Seq<Event>)
    requires
        state.wf(),
        sound(events),
    ensures
        state.run(events).wf(),
    decreases events.len(),
{
    if events.len() > 0 {
        let front = events.drop_last();
        assert forall|i: int| 0 <= i < front.len() implies ((#[trigger] front[i]) matches Event::Classified {
            encoding,
            ..
        } ==> encoding.wf()) by {
            assert(front[i] == events[i]);
        }
        lemma_run_wf(state, front);
        assert(events.last() == events[events.len() - 1]);
        lemma_apply_wf(state.run(front), events.last());
    }
}

/// The artifact log only grows: whatever the events, the artifacts that were
/// there stay at their indices, and new ones come behind them.
pub proof fn lemma_artifacts_append_only(state: WorkView, events: Seq<Event>)
    ensures
        state.artifacts.is_prefix_of(state.run(events).artifacts),
    decreases events.len(),
{
    if events.len() > 0 {
        lemma_artifacts_append_only(state, events.drop_last());
        let before = state.run(events.drop_last());
        let after = before.apply(events.last());
        assert(before.artifacts.is_prefix_of(after.artifacts));
    }
}

/// An enumeration that is stopped after the events `first` and taken up
/// again with the events `second` ends in the state in which it ends when
/// the same events come in one run.
pub proof fn lemma_run_resumes(state: WorkView, first: Seq<Event>, second: Seq<Event>)
    ensures
        state.run(first + second) == state.run(first).run(second),
    decreases second.len(),
{
    if second.len() == 0 {
        assert(first + second =~= first);
    } else {
        lemma_run_resumes(state, first, second.drop_last());
        assert((first + second).drop_last() =~= first + second.drop_last());
        assert((first + second).last() == second.last());
    }
}

/// Setting a worker back leaves the artifacts as they are and puts the
/// worker's counter at the start of its range, and whatever events follow,
/// the artifact log is no shorter than it was.
pub proof fn lemma_reset_keeps_artifacts(state: WorkView, worker: int, events: Seq<Event>)
    requires
        state.wf(),
        state.has_worker(worker),
    ensures
        state.apply(Event::Reset { worker }).artifacts == state.artifacts,
        state.apply(Event::Reset { worker }).workers[worker].inner.counter.current
            == state.workers[worker].from,
        state.artifacts.len() <= state.apply(Event::Reset { worker }).run(events).artifacts.len(),
{
    lemma_artifacts_append_only(state.apply(Event::Reset { worker }), events);
}

/// A worker that is done stays done until it is set back or set going
/// again.
pub proof fn lemma_done_is_kept(state: WorkView, event: Event, worker: int)
    requires
        state.has_worker(worker),
        state.workers[worker].done,
        !(event matches Event::Reset { worker: w } && w == worker),
        !(event matches Event::Resume { worker: w } && w == worker),
    ensures
        state.apply(event).has_worker(worker),
        state.apply(event).workers[worker].done,
{
}

/// A second rebuild with no new artifact in between changes nothing: every
/// worker keeps the filters that the first rebuild gave it.
pub proof fn lemma_rebuild_idempotent(state: WorkView)
    ensures
        state.apply(Event::Rebuild).apply(Event::Rebuild) == state.apply(Event::Rebuild),
{
    let once = state.apply(Event::Rebuild);
    let twice = once.apply(Event::Rebuild);
    assert(once.rebuilt_filters() == state.rebuilt_filters());
    assert(twice.workers =~= once.workers);
}

} // verus!
