//! The workers of an enumeration, their artifacts, and the operations that
//! a driver performs on them.

use crate::counter::{within, CounterView};
use crate::encoding::{encoding_views, Encoding, EncodingView};
use crate::error::Error;
use crate::filter::Filter;
use crate::instruction::{instruction_views, is_instruction, lex_le, Instruction};
use crate::partition::{
    check_seeds, chunk_start, lemma_partition, lemma_seed_owner, owns, range_from, range_of,
    range_to, refusal, splittable,
};
use crate::sorting::collect_sorted;
use crate::state::{Event, RecordView, WorkView};
use crate::worker::{EnumWorker, Probe, WorkerView};
use vstd::prelude::*;

verus! {

/// What came of the classification of an instruction.
#[derive(Debug)]
pub enum Outcome {
    /// The instruction belongs to the class that the encoding describes.
    Classified(Encoding),
    /// The instruction could not be classified.
    Failed,
}

/// The record of worker `k` of a new enumeration: a worker at the start of
/// its range that has produced nothing.
pub open spec fn initial_record(seeds: Seq<Seq<u8>>, workers: int, k: int) -> RecordView {
    let from = range_from(seeds, workers, k);
    let to = range_to(seeds, workers, k);
    RecordView {
        id: k,
        from,
        to,
        inner: WorkerView {
            counter: CounterView { from, to, current: from, filters: Seq::empty() },
            unique_sequences: 0,
            next: None,
            seen: Seq::empty(),
            failed: Seq::empty(),
            fast_tunnel: false,
        },
        artifacts_produced: 0,
        done: false,
    }
}

/// The state of a new enumeration over `seeds` with `workers` workers.
pub open spec fn created(seeds: Seq<Seq<u8>>, workers: int) -> WorkView {
    WorkView {
        workers: Seq::new(workers as nat, |k: int| initial_record(seeds, workers, k)),
        artifacts: Seq::empty(),
        seconds_running: 0,
    }
}

/// Whether `z` lies in the range of the worker of `record`.
pub open spec fn in_range(record: RecordView, z: Seq<u8>) -> bool {
    lex_le(record.from, z) && within(record.to, z)
}

/// The ranges of the workers of a new enumeration cover instruction space
/// from the first seed on without gaps or overlaps, and each worker stands at
/// the start of its range: every instruction at or after the first seed lies
/// in the range of exactly one worker, and a seed lies in the range of the
/// worker in whose chunk its position lies.
pub proof fn lemma_created_partition(seeds: Seq<Seq<u8>>, workers: int, z: Seq<u8>) -> (k: int)
    requires
        splittable(seeds, workers),
        is_instruction(z),
        lex_le(seeds[0], z),
    ensures
        created(seeds, workers).workers.len() == workers,
        0 <= k < workers,
        in_range(created(seeds, workers).workers[k], z),
        forall|j: int|
            0 <= j < workers && in_range(#[trigger] created(seeds, workers).workers[j], z) ==> j
                == k,
        forall|j: int|
            0 <= j < workers ==> (#[trigger] created(seeds, workers).workers[j]).inner.counter.current
                == created(seeds, workers).workers[j].from,
        forall|j: int, i: int|
            0 <= j < workers && 0 <= i < seeds.len() ==> (in_range(
                #[trigger] created(seeds, workers).workers[j],
                #[trigger] seeds[i],
            ) <==> chunk_start(j, seeds.len() as int, workers) <= i < chunk_start(
                j + 1,
                seeds.len() as int,
                workers,
            )),
{
    let state = created(seeds, workers);
    let k = lemma_partition(seeds, workers, z);
    assert forall|j: int| 0 <= j < workers && in_range(#[trigger] state.workers[j], z) implies j
        == k by {
        assert(owns(seeds, workers, j, z));
    }
    assert forall|j: int, i: int| 0 <= j < workers && 0 <= i < seeds.len() implies (in_range(
        #[trigger] state.workers[j],
        #[trigger] seeds[i],
    ) <==> chunk_start(j, seeds.len() as int, workers) <= i < chunk_start(
        j + 1,
        seeds.len() as int,
        workers,
    )) by {
        lemma_seed_owner(seeds, workers, j, i);
    }
    k
}

/// The sum of the encodings that the first `n` workers recorded.
pub open spec fn total_unique(workers: Seq<RecordView>, n: int) -> nat
    decreases n,
{
    if n <= 0 {
        0
    } else {
        total_unique(workers, n - 1) + workers[n - 1].inner.unique_sequences
    }
}

/// One worker with what is kept of it.
#[derive(Debug)]
pub struct WorkerRecord {
    id: usize,
    inner: EnumWorker,
    artifacts_produced: usize,
    done: bool,
}

impl View for WorkerRecord {
    type V = RecordView;

    closed spec fn view(&self) -> RecordView {
        RecordView {
            id: self.id as int,
            from: self.inner@.counter.from,
            to: self.inner@.counter.to,
            inner: self.inner@,
            artifacts_produced: self.artifacts_produced as nat,
            done: self.done,
        }
    }
}

/// The records of `v` as plain values.
pub open spec fn record_views(v: Seq<WorkerRecord>) -> Seq<RecordView> {
    Seq::new(v.len(), |k: int| v[k]@)
}

impl Clone for WorkerRecord {
    fn clone(&self) -> (copy: Self)
        ensures
            copy@ == self@,
    {
        WorkerRecord {
            id: self.id,
            inner: self.inner.clone(),
            artifacts_produced: self.artifacts_produced,
            done: self.done,
        }
    }
}

impl WorkerRecord {
    /// The record is well formed.
    pub open spec fn wf(&self) -> bool {
        self@.wf() && self@.artifacts_produced <= usize::MAX
    }

    /// The record with the given parts.
    pub fn restore(id: usize, inner: EnumWorker, artifacts_produced: usize, done: bool) -> (made:
        WorkerRecord)
        requires
            inner.wf(),
        ensures
            made.wf(),
            made@ == (RecordView {
                id: id as int,
                from: inner@.counter.from,
                to: inner@.counter.to,
                inner: inner@,
                artifacts_produced: artifacts_produced as nat,
                done,
            }),
    {
        WorkerRecord { id, inner, artifacts_produced, done }
    }

    /// The record put together anew from copies of its parts.
    pub fn reassembled(&self) -> (copy: WorkerRecord)
        requires
            self.wf(),
        ensures
            copy.wf(),
            copy@ == self@,
    {
        WorkerRecord::restore(self.id, self.inner.reassembled(), self.artifacts_produced, self.done)
    }

    /// The worker's number.
    pub fn id(&self) -> (id: usize)
        ensures
            id == self@.id,
    {
        self.id
    }

    /// The first instruction of the worker's range.
    pub fn from(&self) -> (instr: &Instruction)
        ensures
            instr@ == self@.from,
            self.wf() ==> instr.wf(),
    {
        self.inner.counter().from()
    }

    /// The last instruction of the worker's range, if it has one.
    pub fn to(&self) -> (bound: &Option<Instruction>)
        ensures
            match bound {
                Some(t) => self@.to == Some(t@) && (self.wf() ==> t.wf()),
                None => self@.to is None,
            },
    {
        self.inner.counter().to()
    }

    /// The worker.
    pub fn inner(&self) -> (inner: &EnumWorker)
        ensures
            inner@ == self@.inner,
            self.wf() ==> inner.wf(),
    {
        &self.inner
    }

    /// The number of artifacts that the worker produced.
    pub fn artifacts_produced(&self) -> (n: usize)
        ensures
            n == self@.artifacts_produced,
    {
        self.artifacts_produced
    }

    /// Whether the worker has exhausted its range.
    pub fn done(&self) -> (done: bool)
        ensures
            done == self@.done,
    {
        self.done
    }

    /// Whether `instr` lies in the worker's range.
    pub fn owns(&self, instr: &Instruction) -> (r: bool)
        ensures
            r == in_range(self@, instr@),
    {
        self.from().le(instr) && match self.to() {
            Some(t) => instr.le(t),
            None => true,
        }
    }

    fn probe(&mut self) -> (probe: Probe)
        requires
            old(self).wf(),
        ensures
            final(self).wf(),
            final(self)@ == old(self)@.probed(),
            match probe {
                Probe::Classify(instr) => {
                    &&& instr.wf()
                    &&& !old(self)@.done
                    &&& old(self)@.inner.probe() == Some(instr@)
                },
                Probe::Done => old(self)@.done || old(self)@.inner.probe() is None,
            },
    {
        if self.done {
            return Probe::Done;
        }
        let probe = self.inner.next_probe();
        match &probe {
            Probe::Classify(_) => {},
            Probe::Done => {
                self.done = true;
            },
        }
        probe
    }

    fn record_encoding(&mut self, encoding: &Encoding) -> (r: Result<(), Error>)
        requires
            old(self).wf(),
            old(self)@.artifacts_produced < usize::MAX,
            encoding.wf(),
        ensures
            final(self).wf(),
            match r {
                Ok(_) => old(self)@.inner.next is Some && final(self)@ == old(self)@.classified(
                    encoding@,
                ),
                Err(e) => {
                    &&& e == Error::NothingPending
                    &&& old(self)@.inner.next is None
                    &&& final(self)@ == old(self)@
                },
            },
    {
        match self.inner.record_encoding(encoding) {
            Ok(finished) => {
                self.artifacts_produced = self.artifacts_produced + 1;
                if finished {
                    self.done = true;
                }
                Ok(())
            },
            Err(e) => Err(e),
        }
    }

    fn record_failure(&mut self) -> (r: Result<(), Error>)
        requires
            old(self).wf(),
        ensures
            final(self).wf(),
            match r {
                Ok(_) => old(self)@.inner.next is Some && final(self)@ == old(self)@.failed(),
                Err(e) => {
                    &&& e == Error::NothingPending
                    &&& old(self)@.inner.next is None
                    &&& final(self)@ == old(self)@
                },
            },
    {
        match self.inner.record_failure() {
            Ok(finished) => {
                if finished {
                    self.done = true;
                }
                Ok(())
            },
            Err(e) => Err(e),
        }
    }

    fn reset(&mut self)
        requires
            old(self).wf(),
        ensures
            final(self).wf(),
            final(self)@ == old(self)@.reset(),
    {
        self.inner.reset();
        self.done = false;
    }

    fn resume(&mut self)
        requires
            old(self).wf(),
        ensures
            final(self).wf(),
            final(self)@ == old(self)@.resumed(),
    {
        self.done = false;
    }

    fn tunnel(&mut self, on: bool)
        requires
            old(self).wf(),
        ensures
            final(self).wf(),
            final(self)@ == old(self)@.tunnelling(on),
    {
        self.inner.set_fast_tunnel(on);
    }

    fn forget(&mut self)
        requires
            old(self).wf(),
        ensures
            final(self).wf(),
            final(self)@ == old(self)@.forgetful(),
    {
        self.inner.clear_seen();
    }

    fn reload(&mut self, filters: &Vec<Filter>)
        requires
            old(self).wf(),
            forall|i: int| 0 <= i < filters@.len() ==> (#[trigger] filters@[i]).wf(),
        ensures
            final(self).wf(),
            final(self)@ == old(self)@.reloaded(crate::filter::filter_views(filters@)),
    {
        self.inner.reload_filters(filters);
    }
}

/// An enumeration: its workers, the artifacts that they have recorded, and
/// the time that it has run.
#[derive(Debug)]
pub struct Work {
    workers: Vec<WorkerRecord>,
    artifacts: Vec<Encoding>,
    seconds_running: u64,
}

impl View for Work {
    type V = WorkView;

    closed spec fn view(&self) -> WorkView {
        WorkView {
            workers: record_views(self.workers@),
            artifacts: encoding_views(self.artifacts@),
            seconds_running: self.seconds_running as nat,
        }
    }
}

impl Clone for Work {
    fn clone(&self) -> (copy: Self)
        ensures
            copy@ == self@,
    {
        let workers = self.workers.clone();
        let artifacts = self.artifacts.clone();
        let copy = Work { workers, artifacts, seconds_running: self.seconds_running };
        assert(copy@.workers =~= self@.workers);
        assert(copy@.artifacts =~= self@.artifacts);
        copy
    }
}

impl Work {
    /// The enumeration is well formed.
    pub open spec fn wf(&self) -> bool {
        self@.wf()
    }

    /// A new enumeration over `seeds` with `worker_count` workers. The seeds
    /// are split into as many chunks of the same size, or of sizes that
    /// differ by one; each worker gets the range from the first seed of its
    /// chunk to the instruction just before the next chunk, the last worker
    /// the range to the end of instruction space; and each stands at the
    /// start of its range. It is refused with `NoWorkers` for no worker, with
    /// `NotEnoughSeeds` for fewer seeds than workers, and with
    /// `UnorderedSeeds` for seeds that are not in strictly rising order.
    pub fn create(seeds: &Vec<Instruction>, worker_count: usize) -> (made: Result<Work, Error>)
        requires
            forall|i: int| 0 <= i < seeds@.len() ==> (#[trigger] seeds@[i]).wf(),
        ensures
            match made {
                Ok(work) => {
                    &&& work.wf()
                    &&& splittable(instruction_views(seeds@), worker_count as int)
                    &&& work@ == created(instruction_views(seeds@), worker_count as int)
                },
                Err(e) => refusal(instruction_views(seeds@), worker_count as int) == Some(e),
            },
    {
        let ghost views = instruction_views(seeds@);
        let ghost count = worker_count as int;
        match check_seeds(seeds, worker_count) {
            Ok(_) => {},
            Err(e) => {
                return Err(e);
            },
        }
        let mut workers: Vec<WorkerRecord> = Vec::new();
        let mut k: usize = 0;
        while k < worker_count
            invariant
                k <= worker_count,
                count == worker_count,
                views == instruction_views(seeds@),
                splittable(views, count),
                forall|i: int| 0 <= i < seeds@.len() ==> (#[trigger] seeds@[i]).wf(),
                workers@.len() == k,
                forall|j: int|
                    0 <= j < k ==> (#[trigger] workers@[j]).wf() && workers@[j]@ == initial_record(
                        views,
                        count,
                        j,
                    ),
            decreases worker_count - k,
        {
            let (from, to) = range_of(seeds, worker_count, k);
            let inner = EnumWorker::new(from, to);
            proof {
                if to is Some {
                    crate::instruction::lemma_order_is_rank(from@, to.unwrap()@);
                    crate::instruction::lemma_order_is_rank(to.unwrap()@, from@);
                }
            }
            workers.push(WorkerRecord::restore(k, inner.unwrap(), 0, false));
            k += 1;
        }
        let work = Work { workers, artifacts: Vec::new(), seconds_running: 0 };
        proof {
            assert(work@.workers =~= created(views, count).workers);
            assert(work@.artifacts =~= Seq::<EncodingView>::empty());
        }
        Ok(work)
    }

    /// The enumeration with the given parts, if they fit together: each
    /// worker is numbered by its place and has produced no more artifacts
    /// than there are. Else the answer is `InvalidState`.
    pub fn restore(workers: Vec<WorkerRecord>, artifacts: Vec<Encoding>, seconds_running: u64) -> (made:
        Result<Work, Error>)
        requires
            forall|k: int| 0 <= k < workers@.len() ==> (#[trigger] workers@[k]).wf(),
            forall|i: int| 0 <= i < artifacts@.len() ==> (#[trigger] artifacts@[i]).wf(),
        ensures
            match made {
                Ok(work) => {
                    &&& work.wf()
                    &&& work@ == (WorkView {
                        workers: record_views(workers@),
                        artifacts: encoding_views(artifacts@),
                        seconds_running: seconds_running as nat,
                    })
                },
                Err(e) => {
                    &&& e == Error::InvalidState
                    &&& exists|k: int|
                        0 <= k < workers@.len() && ((#[trigger] workers@[k])@.id != k
                            || workers@[k]@.artifacts_produced > artifacts@.len())
                },
            },
    {
        let n: usize = workers.len();
        let total: usize = artifacts.len();
        let mut k: usize = 0;
        while k < n
            invariant
                n == workers.len(),
                total == artifacts.len(),
                k <= n,
                forall|j: int|
                    0 <= j < k ==> (#[trigger] workers@[j])@.id == j && workers@[j]@.artifacts_produced
                        <= total,
            decreases n - k,
        {
            if workers[k].id() != k || workers[k].artifacts_produced() > total {
                return Err(Error::InvalidState);
            }
            k += 1;
        }
        let work = Work { workers, artifacts, seconds_running };
        proof {
            assert forall|j: int| 0 <= j < work@.workers.len() implies {
                &&& (#[trigger] work@.workers[j]).wf()
                &&& work@.workers[j].id == j
                &&& work@.workers[j].artifacts_produced <= work@.artifacts.len()
            } by {
                assert(workers@[j].wf());
            }
            assert forall|i: int| 0 <= i < work@.artifacts.len() implies (
            #[trigger] work@.artifacts[i]).wf() by {
                assert(artifacts@[i].wf());
            }
        }
        Ok(work)
    }

    /// The enumeration put together anew from copies of its parts, as a
    /// load does with what a save wrote. No part of a well-formed
    /// enumeration is refused, and the copy is in the state of the
    /// enumeration: a run that is taken up from a save goes on as the run
    /// that was saved would have.
    pub fn snapshot(&self) -> (copy: Work)
        requires
            self.wf(),
        ensures
            copy.wf(),
            copy@ == self@,
    {
        let n: usize = self.workers.len();
        let mut workers: Vec<WorkerRecord> = Vec::new();
        let mut k: usize = 0;
        while k < n
            invariant
                n == self.workers@.len(),
                k <= n,
                self.wf(),
                workers@.len() == k,
                forall|j: int|
                    0 <= j < k ==> (#[trigger] workers@[j]).wf() && workers@[j]@
                        == self@.workers[j],
            decreases n - k,
        {
            assert(self@.workers[k as int].wf());
            workers.push(self.workers[k].reassembled());
            k += 1;
        }
        let artifacts = self.artifacts.clone();
        proof {
            assert(record_views(workers@) =~= self@.workers);
            assert(encoding_views(artifacts@) =~= self@.artifacts);
            assert forall|i: int| 0 <= i < artifacts@.len() implies (#[trigger] artifacts@[i]).wf() by {
                assert(self@.artifacts[i].wf());
            }
            assert forall|j: int| 0 <= j < workers@.len() implies (#[trigger] workers@[j])@.id == j
                && workers@[j]@.artifacts_produced <= artifacts@.len() by {
                assert(self@.workers[j].id == j);
            }
        }
        let copy = Work::restore(workers, artifacts, self.seconds_running);
        copy.unwrap()
    }

    /// The workers.
    pub fn workers(&self) -> (workers: &Vec<WorkerRecord>)
        ensures
            record_views(workers@) == self@.workers,
            self.wf() ==> forall|k: int| 0 <= k < workers@.len() ==> (#[trigger] workers@[k]).wf(),
    {
        proof {
            if self.wf() {
                assert forall|k: int| 0 <= k < self.workers@.len() implies (
                #[trigger] self.workers@[k]).wf() by {
                    assert(self@.workers[k].wf());
                }
            }
        }
        &self.workers
    }

    /// The artifacts, in the order in which they were recorded.
    pub fn artifacts(&self) -> (artifacts: &Vec<Encoding>)
        ensures
            encoding_views(artifacts@) == self@.artifacts,
            self.wf() ==> forall|i: int| 0 <= i < artifacts@.len() ==> (#[trigger] artifacts@[i]).wf(),
    {
        proof {
            if self.wf() {
                assert forall|i: int| 0 <= i < self.artifacts@.len() implies (
                #[trigger] self.artifacts@[i]).wf() by {
                    assert(self@.artifacts[i].wf());
                }
            }
        }
        &self.artifacts
    }

    /// The seconds that the enumeration has run.
    pub fn seconds_running(&self) -> (seconds: u64)
        ensures
            seconds == self@.seconds_running,
    {
        self.seconds_running
    }

    /// The encodings that all workers recorded, or the largest number that
    /// the result can hold where there are more.
    pub fn unique_sequences(&self) -> (total: u128)
        ensures
            total == if total_unique(self@.workers, self@.workers.len() as int) > u128::MAX {
                u128::MAX as nat
            } else {
                total_unique(self@.workers, self@.workers.len() as int)
            },
    {
        let n: usize = self.workers.len();
        let mut total: u128 = 0;
        let mut k: usize = 0;
        while k < n
            invariant
                n == self.workers.len(),
                k <= n,
                total == if total_unique(self@.workers, k as int) > u128::MAX {
                    u128::MAX as nat
                } else {
                    total_unique(self@.workers, k as int)
                },
            decreases n - k,
        {
            total = total.saturating_add(self.workers[k].inner().unique_sequences());
            k += 1;
        }
        total
    }

    /// Whether every worker has exhausted its range.
    pub fn all_done(&self) -> (done: bool)
        ensures
            done == (forall|k: int| 0 <= k < self@.workers.len() ==> (#[trigger] self@.workers[k]).done),
    {
        let n: usize = self.workers.len();
        let mut k: usize = 0;
        while k < n
            invariant
                n == self.workers.len(),
                k <= n,
                forall|j: int| 0 <= j < k ==> (#[trigger] self@.workers[j]).done,
            decreases n - k,
        {
            if !self.workers[k].done() {
                assert(!self@.workers[k as int].done);
                return false;
            }
            k += 1;
        }
        true
    }

    /// Asks worker `worker` what to classify next. A worker that finds its
    /// range exhausted is marked done, and one that is done answers `Done`.
    /// The answer is `IndexOutOfRange` where there is no such worker.
    pub fn next_probe(&mut self, worker: usize) -> (probe: Result<Probe, Error>)
        requires
            old(self).wf(),
        ensures
            final(self).wf(),
            final(self)@ == old(self)@.apply(Event::Probe { worker: worker as int }),
            match probe {
                Ok(Probe::Classify(instr)) => {
                    &&& old(self)@.has_worker(worker as int)
                    &&& instr.wf()
                    &&& !old(self)@.workers[worker as int].done
                    &&& old(self)@.workers[worker as int].inner.probe() == Some(instr@)
                },
                Ok(Probe::Done) => {
                    &&& old(self)@.has_worker(worker as int)
                    &&& (old(self)@.workers[worker as int].done
                        || old(self)@.workers[worker as int].inner.probe() is None)
                },
                Err(e) => e == Error::IndexOutOfRange && !old(self)@.has_worker(worker as int),
            },
    {
        if worker >= self.workers.len() {
            return Err(Error::IndexOutOfRange);
        }
        assert(self@.workers[worker as int].wf());
        let probe = self.workers[worker].probe();
        proof {
            let after = self.workers@[worker as int]@;
            assert(self@.workers =~= old(self)@.workers.update(worker as int, after));
            assert(self@.artifacts == old(self)@.artifacts);
        }
        Ok(probe)
    }

    /// Records the outcome of the classification of the instruction that
    /// worker `worker` had out. An encoding becomes the next artifact, and
    /// its index is returned. Nothing changes and the answer is
    /// `IndexOutOfRange` where there is no such worker, `NothingPending`
    /// where the worker had no instruction out.
    pub fn complete(&mut self, worker: usize, outcome: Outcome) -> (index: Result<
        Option<usize>,
        Error,
    >)
        requires
            old(self).wf(),
            outcome matches Outcome::Classified(encoding) ==> encoding.wf(),
        ensures
            final(self).wf(),
            match index {
                Ok(index) => {
                    &&& old(self)@.has_worker(worker as int)
                    &&& old(self)@.workers[worker as int].inner.next is Some
                    &&& match outcome {
                        Outcome::Classified(encoding) => {
                            &&& index == Some(old(self)@.artifacts.len() as usize)
                            &&& final(self)@ == old(self)@.apply(
                                Event::Classified { worker: worker as int, encoding: encoding@ },
                            )
                        },
                        Outcome::Failed => {
                            &&& index is None
                            &&& final(self)@ == old(self)@.apply(
                                Event::Failed { worker: worker as int },
                            )
                        },
                    }
                },
                Err(e) => {
                    &&& final(self)@ == old(self)@
                    &&& if old(self)@.has_worker(worker as int) {
                        e == Error::NothingPending && old(self)@.workers[worker as int].inner.next
                            is None
                    } else {
                        e == Error::IndexOutOfRange
                    }
                },
            },
    {
        if worker >= self.workers.len() {
            return Err(Error::IndexOutOfRange);
        }
        assert(self@.workers[worker as int].wf());
        if self.workers[worker].inner().next().is_none() {
            return Err(Error::NothingPending);
        }
        match outcome {
            Outcome::Classified(encoding) => {
                let position: usize = self.artifacts.len();
                self.artifacts.push(encoding);
                // The log has grown by one, so the worker's count of
                // artifacts, which is no larger than the log was, can grow
                // by one too.
                let total: usize = self.artifacts.len();
                assert(position < total);
                // The worker has an instruction out: the record is taken.
                let recorded = self.workers[worker].record_encoding(&self.artifacts[position]);
                assert(recorded is Ok);
                proof {
                    let after = self.workers@[worker as int]@;
                    assert(self@.workers =~= old(self)@.workers.update(worker as int, after));
                    assert(self@.artifacts =~= old(self)@.artifacts.push(encoding@));
                    lemma_classified_wf(old(self)@, worker as int, encoding@);
                }
                Ok(Some(position))
            },
            Outcome::Failed => {
                // The worker has an instruction out: the record is taken.
                let recorded = self.workers[worker].record_failure();
                assert(recorded is Ok);
                proof {
                    let after = self.workers@[worker as int]@;
                    assert(self@.workers =~= old(self)@.workers.update(worker as int, after));
                    assert(self@.artifacts == old(self)@.artifacts);
                }
                Ok(None)
            },
        }
    }

    /// Sets worker `worker` back to the start of its range: a fresh counter
    /// over the range, nothing seen, not done. The artifacts stay. The answer
    /// is `IndexOutOfRange` where there is no such worker.
    pub fn reset_worker(&mut self, worker: usize) -> (r: Result<(), Error>)
        requires
            old(self).wf(),
        ensures
            final(self).wf(),
            final(self)@ == old(self)@.apply(Event::Reset { worker: worker as int }),
            match r {
                Ok(_) => old(self)@.has_worker(worker as int),
                Err(e) => e == Error::IndexOutOfRange && !old(self)@.has_worker(worker as int),
            },
    {
        if worker >= self.workers.len() {
            return Err(Error::IndexOutOfRange);
        }
        assert(self@.workers[worker as int].wf());
        self.workers[worker].reset();
        proof {
            let after = self.workers@[worker as int]@;
            assert(self@.workers =~= old(self)@.workers.update(worker as int, after));
        }
        Ok(())
    }

    /// Sets worker `worker` going again where it stands. The answer is
    /// `IndexOutOfRange` where there is no such worker.
    pub fn resume_worker(&mut self, worker: usize) -> (r: Result<(), Error>)
        requires
            old(self).wf(),
        ensures
            final(self).wf(),
            final(self)@ == old(self)@.apply(Event::Resume { worker: worker as int }),
            match r {
                Ok(_) => old(self)@.has_worker(worker as int),
                Err(e) => e == Error::IndexOutOfRange && !old(self)@.has_worker(worker as int),
            },
    {
        if worker >= self.workers.len() {
            return Err(Error::IndexOutOfRange);
        }
        assert(self@.workers[worker as int].wf());
        self.workers[worker].resume();
        proof {
            let after = self.workers@[worker as int]@;
            assert(self@.workers =~= old(self)@.workers.update(worker as int, after));
        }
        Ok(())
    }

    /// Tells worker `worker` to walk with leaps, or without. The answer is
    /// `IndexOutOfRange` where there is no such worker.
    pub fn set_fast_tunnel(&mut self, worker: usize, on: bool) -> (r: Result<(), Error>)
        requires
            old(self).wf(),
        ensures
            final(self).wf(),
            final(self)@ == old(self)@.apply(Event::Tunnel { worker: worker as int, on }),
            match r {
                Ok(_) => old(self)@.has_worker(worker as int),
                Err(e) => e == Error::IndexOutOfRange && !old(self)@.has_worker(worker as int),
            },
    {
        if worker >= self.workers.len() {
            return Err(Error::IndexOutOfRange);
        }
        assert(self@.workers[worker as int].wf());
        self.workers[worker].tunnel(on);
        proof {
            let after = self.workers@[worker as int]@;
            assert(self@.workers =~= old(self)@.workers.update(worker as int, after));
        }
        Ok(())
    }

    /// Makes all workers forget the instructions that they have seen.
    pub fn reset_instrs_seen(&mut self)
        requires
            old(self).wf(),
        ensures
            final(self).wf(),
            final(self)@ == old(self)@.apply(Event::ResetSeen),
    {
        let ghost before = self@;
        let n: usize = self.workers.len();
        let mut k: usize = 0;
        proof {
            assert forall|j: int| 0 <= j < n implies (#[trigger] self.workers@[j]).wf() by {
                assert(self@.workers[j].wf());
            }
        }
        while k < n
            invariant
                n == self.workers.len(),
                k <= n,
                before == old(self)@,
                before.wf(),
                before.workers.len() == n,
                self@.artifacts == before.artifacts,
                self@.seconds_running == before.seconds_running,
                forall|j: int| 0 <= j < k ==> (#[trigger] self.workers@[j])@ == before.workers[j].forgetful(),
                forall|j: int| k <= j < n ==> (#[trigger] self.workers@[j])@ == before.workers[j],
                forall|j: int| 0 <= j < n ==> (#[trigger] self.workers@[j]).wf(),
            decreases n - k,
        {
            self.workers[k].forget();
            k += 1;
        }
        assert(self@.workers =~= before.apply(Event::ResetSeen).workers);
    }

    /// Builds the filters of all workers anew: the filters of all artifacts,
    /// by the first instruction that each matches, take the place of every
    /// worker's filters and are compacted there.
    pub fn rebuild_filters(&mut self)
        requires
            old(self).wf(),
        ensures
            final(self).wf(),
            final(self)@ == old(self)@.apply(Event::Rebuild),
    {
        let ghost before = self@;
        proof {
            assert forall|i: int| 0 <= i < self.artifacts@.len() implies (
            #[trigger] self.artifacts@[i]).wf() by {
                assert(self@.artifacts[i].wf());
            }
        }
        let filters = collect_sorted(&self.artifacts);
        let n: usize = self.workers.len();
        let mut k: usize = 0;
        proof {
            assert forall|j: int| 0 <= j < n implies (#[trigger] self.workers@[j]).wf() by {
                assert(self@.workers[j].wf());
            }
        }
        while k < n
            invariant
                n == self.workers.len(),
                k <= n,
                before == old(self)@,
                before.wf(),
                before.workers.len() == n,
                self@.artifacts == before.artifacts,
                self@.seconds_running == before.seconds_running,
                crate::filter::filter_views(filters@) == before.rebuilt_filters(),
                forall|i: int| 0 <= i < filters@.len() ==> (#[trigger] filters@[i]).wf(),
                forall|j: int|
                    0 <= j < k ==> (#[trigger] self.workers@[j])@ == before.workers[j].reloaded(
                        before.rebuilt_filters(),
                    ),
                forall|j: int| k <= j < n ==> (#[trigger] self.workers@[j])@ == before.workers[j],
                forall|j: int| 0 <= j < n ==> (#[trigger] self.workers@[j]).wf(),
            decreases n - k,
        {
            self.workers[k].reload(&filters);
            k += 1;
        }
        assert(self@.workers =~= before.apply(Event::Rebuild).workers);
    }

    /// Adds `seconds` to the time that the enumeration has run; the time
    /// stays at the largest number that it can hold.
    pub fn add_running_time(&mut self, seconds: u64)
        requires
            old(self).wf(),
        ensures
            final(self).wf(),
            final(self)@ == old(self)@.apply(Event::Tick { seconds: seconds as nat }),
    {
        self.seconds_running = self.seconds_running.saturating_add(seconds);
        assert(self@.workers == old(self)@.workers);
        assert(self@.artifacts == old(self)@.artifacts);
    }
}

// The state stays well formed when a worker records an encoding.
proof fn lemma_classified_wf(state: WorkView, worker: int, encoding: EncodingView)
    requires
        state.wf(),
        state.has_worker(worker),
        encoding.wf(),
        state.workers[worker].classified(encoding).wf(),
    ensures
        (WorkView {
            workers: state.workers.update(worker, state.workers[worker].classified(encoding)),
            artifacts: state.artifacts.push(encoding),
            ..state
        }).wf(),
{
    let after = WorkView {
        workers: state.workers.update(worker, state.workers[worker].classified(encoding)),
        artifacts: state.artifacts.push(encoding),
        ..state
    };
    assert forall|k: int| 0 <= k < after.workers.len() implies {
        &&& (#[trigger] after.workers[k]).wf()
        &&& after.workers[k].id == k
        &&& after.workers[k].artifacts_produced <= after.artifacts.len()
    } by {
        assert(state.workers[k].wf());
    }
    assert forall|i: int| 0 <= i < after.artifacts.len() implies (#[trigger] after.artifacts[i]).wf() by {
        if i < state.artifacts.len() {
            assert(state.artifacts[i].wf());
        }
    }
}

} // verus!
