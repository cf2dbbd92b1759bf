//! The enumeration of one range: which instruction to classify next, and
//! what an outcome changes.
//!
//! A worker goes round in steps. Asked for a probe, it gives out the first
//! instruction from its position on that no filter matches and that it has
//! not seen, or says that its range is exhausted. The driver has the
//! instruction classified, which the worker cannot do itself, and hands back
//! an encoding or a failure. The worker adds the filters that came of it and
//! moves its counter on.

use crate::counter::{
    compact, covered, lemma_compact, lemma_next_stop, within, CounterView, InstructionCounter,
};
use crate::encoding::{Encoding, EncodingView};
use crate::error::Error;
use crate::filter::{
    exact_pattern, filter_matches, filter_views, is_filter, lemma_exact_pattern, ByteFilter,
    Filter,
};
use crate::instruction::{
    instruction_views, is_instruction, lemma_lt_rank, lemma_lt_transitive, lemma_order_is_rank,
    lemma_rank_bound, lemma_trichotomy, lex_le, lex_lt, rank, rank_limit, Instruction,
    MAX_INSTRUCTION_LEN,
};
use vstd::prelude::*;

verus! {

/// The largest number of instructions that a worker remembers as seen.
pub const SEEN_CAPACITY: usize = 4096;

/// The largest number of failed instructions that a worker keeps.
pub const FAILED_CAPACITY: usize = 1024;

/// What a worker asks of its driver.
#[derive(Debug)]
pub enum Probe {
    /// Classify this instruction and hand back the outcome.
    Classify(Instruction),
    /// The range is exhausted.
    Done,
}

/// What a worker holds, as plain values.
pub struct WorkerView {
    /// The counter.
    pub counter: CounterView,
    /// The number of encodings that the worker recorded.
    pub unique_sequences: nat,
    /// The instruction that is out for classification, if one is.
    pub next: Option<Seq<u8>>,
    /// The instructions that were classified before and need no second try.
    pub seen: Seq<Seq<u8>>,
    /// The instructions whose classification failed.
    pub failed: Seq<Seq<u8>>,
    /// Whether the counter walks with leaps.
    pub fast_tunnel: bool,
}

impl WorkerView {
    /// The counter is well formed, an instruction that is out for
    /// classification is the counter's position, and the two lists hold
    /// instructions and keep within their capacities.
    pub open spec fn wf(self) -> bool {
        &&& self.counter.wf()
        &&& self.unique_sequences <= u128::MAX
        &&& (self.next matches Some(i) ==> i == self.counter.current)
        &&& self.seen.len() <= SEEN_CAPACITY
        &&& (forall|i: int| 0 <= i < self.seen.len() ==> is_instruction(#[trigger] self.seen[i]))
        &&& self.failed.len() <= FAILED_CAPACITY
        &&& (forall|i: int| 0 <= i < self.failed.len() ==> is_instruction(#[trigger] self.failed[i]))
    }

    /// Whether `y` still needs a visit: an instruction of the range, at or
    /// after the position, that no filter matches and that was not seen.
    pub open spec fn is_open(self, y: Seq<u8>) -> bool {
        &&& is_instruction(y)
        &&& lex_le(self.counter.current, y)
        &&& within(self.counter.to, y)
        &&& !covered(self.counter.filters, y)
        &&& !self.seen.contains(y)
    }

    /// Whether `y` is the first instruction that still needs a visit.
    pub open spec fn is_first_open(self, y: Seq<u8>) -> bool {
        &&& self.is_open(y)
        &&& forall|z: Seq<u8>| #[trigger] self.is_open(z) ==> lex_le(y, z)
    }

    /// The first instruction that still needs a visit, if there is one.
    pub open spec fn first_open(self) -> Option<Seq<u8>> {
        if exists|y: Seq<u8>| self.is_first_open(y) {
            Some(choose|y: Seq<u8>| self.is_first_open(y))
        } else {
            None
        }
    }

    /// The instruction to classify next: the one that is out already, else
    /// the first that still needs a visit. `None` where the range is
    /// exhausted.
    pub open spec fn probe(self) -> Option<Seq<u8>> {
        match self.next {
            Some(i) => Some(i),
            None => self.first_open(),
        }
    }

    /// The worker after it was asked for the instruction to classify next:
    /// the counter stands at that instruction, which is out for
    /// classification. An exhausted worker stays as it is.
    pub open spec fn probed(self) -> WorkerView {
        match self.probe() {
            Some(y) => WorkerView { counter: self.counter.at(y), next: Some(y), ..self },
            None => self,
        }
    }

    /// The seen instructions after `i` was classified: `i` is added unless it
    /// is there already or the list is full.
    pub open spec fn remember(self, i: Seq<u8>) -> Seq<Seq<u8>> {
        if self.seen.contains(i) || self.seen.len() >= SEEN_CAPACITY {
            self.seen
        } else {
            self.seen.push(i)
        }
    }

    /// The counter with `filters` added behind its own.
    pub open spec fn loaded(self, filters: Seq<Seq<ByteFilter>>) -> CounterView {
        CounterView { filters: self.counter.filters + filters, ..self.counter }
    }

    /// Whether nothing is left of the range once `filters` are added.
    pub open spec fn finished_by(self, filters: Seq<Seq<ByteFilter>>) -> bool {
        self.loaded(filters).next_stop() is None
    }

    /// The worker after the instruction at its position was classified and
    /// `filters` came of it: the filters are added, the instruction is
    /// remembered, nothing is out, and the counter stands at its next stop,
    /// or stays where there is none.
    pub open spec fn settled(self, filters: Seq<Seq<ByteFilter>>) -> WorkerView {
        let loaded = self.loaded(filters);
        WorkerView {
            counter: match loaded.next_stop() {
                Some(y) => loaded.at(y),
                None => loaded,
            },
            next: None,
            seen: self.remember(self.counter.current),
            ..self
        }
    }

    /// The worker after an encoding with `filters` was recorded for the
    /// instruction at its position.
    pub open spec fn classified(self, filters: Seq<Seq<ByteFilter>>) -> WorkerView {
        WorkerView {
            unique_sequences: if self.unique_sequences < u128::MAX {
                self.unique_sequences + 1
            } else {
                self.unique_sequences
            },
            ..self.settled(filters)
        }
    }

    /// The filter that is added for an instruction that failed: the one that
    /// fixes every bit of it.
    pub open spec fn failure_filters(self) -> Seq<Seq<ByteFilter>> {
        seq![exact_pattern(self.counter.current)]
    }

    /// The worker after the classification of the instruction at its
    /// position failed: the instruction is kept among the failed ones while
    /// there is room, and the filter that fixes its bits is added.
    pub open spec fn failed_probe(self) -> WorkerView {
        WorkerView {
            failed: if self.failed.len() < FAILED_CAPACITY {
                self.failed.push(self.counter.current)
            } else {
                self.failed
            },
            ..self.settled(self.failure_filters())
        }
    }

    /// The worker set back to the start of its range: a fresh counter over
    /// the same range, nothing out, nothing seen.
    pub open spec fn reset(self) -> WorkerView {
        WorkerView {
            counter: CounterView {
                current: self.counter.from,
                filters: Seq::empty(),
                ..self.counter
            },
            next: None,
            seen: Seq::empty(),
            ..self
        }
    }

    /// The worker with the filters `filters` in place of its own, compacted.
    pub open spec fn reloaded(self, filters: Seq<Seq<ByteFilter>>) -> WorkerView {
        WorkerView { counter: CounterView { filters: compact(filters), ..self.counter }, ..self }
    }

    // No instruction before `c` still needs a visit, and `c` lies in the
    // range at or after the position.
    spec fn searched(self, c: Seq<u8>) -> bool {
        &&& is_instruction(c)
        &&& lex_le(self.counter.current, c)
        &&& within(self.counter.to, c)
        &&& forall|z: Seq<u8>| #[trigger] self.is_open(z) ==> lex_le(c, z)
    }
}

/// There is one first instruction that still needs a visit at most, and
/// there is one wherever an instruction still needs a visit.
pub proof fn lemma_first_open(v: WorkerView, y: Seq<u8>)
    requires
        v.wf(),
        v.is_first_open(y),
    ensures
        v.first_open() == Some(y),
{
    let c = choose|c: Seq<u8>| v.is_first_open(c);
    assert(v.is_open(y));
    assert(v.is_open(c));
    lemma_order_is_rank(y, c);
    lemma_order_is_rank(c, y);
}

/// Every filter that a worker adds matches the instruction that it came
/// from: the filters of an encoding match the instruction that stands for
/// the encoding, and the filter for a failed instruction matches that
/// instruction.
pub proof fn lemma_added_filters_match(v: WorkerView, encoding: EncodingView)
    requires
        v.wf(),
        encoding.wf(),
    ensures
        v.classified(encoding.filters).counter.filters == v.counter.filters + encoding.filters,
        forall|i: int|
            0 <= i < encoding.filters.len() ==> filter_matches(
                #[trigger] encoding.filters[i],
                encoding.instr,
            ),
        v.failed_probe().counter.filters == v.counter.filters.push(
            exact_pattern(v.counter.current),
        ),
        filter_matches(exact_pattern(v.counter.current), v.counter.current),
{
    lemma_exact_pattern(v.counter.current, v.counter.current);
    assert(v.counter.filters + v.failure_filters() =~= v.counter.filters.push(
        exact_pattern(v.counter.current),
    ));
}

/// A well-formed worker stays well formed when it is asked what to
/// classify next, when an outcome is recorded, when it is set back and when
/// its filters are replaced: its position never leaves its range.
pub proof fn lemma_worker_stays_wf(v: WorkerView, filters: Seq<Seq<ByteFilter>>)
    requires
        v.wf(),
        forall|i: int| 0 <= i < filters.len() ==> is_filter(#[trigger] filters[i]),
    ensures
        v.probed().wf(),
        v.settled(filters).wf(),
        v.classified(filters).wf(),
        v.failed_probe().wf(),
        v.reset().wf(),
        v.reloaded(filters).wf(),
{
    let current = v.counter.current;
    match v.probe() {
        Some(y) => {
            if v.next is None {
                assert(v.is_open(y));
                lemma_lt_transitive(v.counter.from, current, y);
            }
        },
        None => {},
    }
    lemma_settled_wf(v, filters);
    lemma_exact_pattern(current, current);
    lemma_settled_wf(v, v.failure_filters());
    // The start of the range lies at or before its end.
    lemma_lt_transitive(v.counter.from, current, current);
    if v.counter.to is Some {
        lemma_lt_transitive(v.counter.from, current, v.counter.to.unwrap());
    }
    lemma_compact(filters);
    assert forall|i: int| 0 <= i < compact(filters).len() implies is_filter(
        #[trigger] compact(filters)[i],
    ) by {
        assert(filters.contains(compact(filters)[i]));
    }
}

proof fn lemma_settled_wf(v: WorkerView, filters: Seq<Seq<ByteFilter>>)
    requires
        v.wf(),
        forall|i: int| 0 <= i < filters.len() ==> is_filter(#[trigger] filters[i]),
    ensures
        v.settled(filters).wf(),
{
    let loaded = v.loaded(filters);
    assert forall|i: int| 0 <= i < loaded.filters.len() implies is_filter(
        #[trigger] loaded.filters[i],
    ) by {
        if i < v.counter.filters.len() {
            assert(is_filter(v.counter.filters[i]));
        } else {
            assert(loaded.filters[i] == filters[i - v.counter.filters.len()]);
        }
    }
    lemma_next_stop(loaded);
    match loaded.next_stop() {
        Some(y) => {
            lemma_lt_transitive(v.counter.from, v.counter.current, y);
        },
        None => {},
    }
}

proof fn lemma_search_step(v: WorkerView, c: Seq<u8>)
    requires
        v.wf(),
        v.searched(c),
        !v.is_open(c),
    ensures
        match v.counter.at(c).next_stop() {
            Some(d) => v.searched(d) && rank(c) < rank(d),
            None => v.first_open() is None,
        },
{
    let at = v.counter.at(c);
    lemma_next_stop(at);
    match at.next_stop() {
        Some(d) => {
            lemma_lt_rank(c, d);
            lemma_lt_transitive(v.counter.current, c, d);
            assert forall|z: Seq<u8>| #[trigger] v.is_open(z) implies lex_le(d, z) by {
                assert(lex_le(c, z));
                lemma_trichotomy(z, d);
                if lex_lt(z, d) {
                    assert(covered(v.counter.filters, z));
                }
            }
        },
        None => {
            assert forall|z: Seq<u8>| !v.is_open(z) by {
                if v.is_open(z) {
                    assert(lex_le(c, z));
                    assert(lex_lt(at.current, z));
                }
            }
        },
    }
}

/// The enumeration of one range of instruction space.
#[derive(Debug)]
pub struct EnumWorker {
    counter: InstructionCounter,
    unique_sequences: u128,
    next: Option<Instruction>,
    instrs_seen: Vec<Instruction>,
    instrs_failed: Vec<Instruction>,
    fast_tunnel: bool,
}

impl View for EnumWorker {
    type V = WorkerView;

    closed spec fn view(&self) -> WorkerView {
        WorkerView {
            counter: self.counter@,
            unique_sequences: self.unique_sequences as nat,
            next: match self.next {
                Some(i) => Some(i@),
                None => None,
            },
            seen: instruction_views(self.instrs_seen@),
            failed: instruction_views(self.instrs_failed@),
            fast_tunnel: self.fast_tunnel,
        }
    }
}

impl Clone for EnumWorker {
    fn clone(&self) -> (copy: Self)
        ensures
            copy@ == self@,
    {
        let instrs_seen = self.instrs_seen.clone();
        let instrs_failed = self.instrs_failed.clone();
        let copy = EnumWorker {
            counter: self.counter.clone(),
            unique_sequences: self.unique_sequences,
            next: match &self.next {
                Some(i) => Some(i.clone()),
                None => None,
            },
            instrs_seen,
            instrs_failed,
            fast_tunnel: self.fast_tunnel,
        };
        assert(copy@.seen =~= self@.seen);
        assert(copy@.failed =~= self@.failed);
        copy
    }
}

impl EnumWorker {
    /// The worker is well formed.
    pub open spec fn wf(&self) -> bool {
        self@.wf()
    }

    /// A worker at the start of the range from `from` to `to`, with no
    /// filter, nothing seen and nothing failed. There is none where `to`
    /// comes before `from`.
    pub fn new(from: Instruction, to: Option<Instruction>) -> (made: Option<EnumWorker>)
        requires
            from.wf(),
            to matches Some(t) ==> t.wf(),
        ensures
            match made {
                Some(worker) => {
                    &&& worker.wf()
                    &&& worker@ == (WorkerView {
                        counter: CounterView {
                            from: from@,
                            to: match to {
                                Some(t) => Some(t@),
                                None => None,
                            },
                            current: from@,
                            filters: Seq::empty(),
                        },
                        unique_sequences: 0,
                        next: None,
                        seen: Seq::empty(),
                        failed: Seq::empty(),
                        fast_tunnel: false,
                    })
                },
                None => to matches Some(t) && lex_lt(t@, from@),
            },
    {
        match InstructionCounter::range(from, to) {
            Some(counter) => {
                let worker = EnumWorker {
                    counter,
                    unique_sequences: 0,
                    next: None,
                    instrs_seen: Vec::new(),
                    instrs_failed: Vec::new(),
                    fast_tunnel: false,
                };
                assert(worker@.seen =~= Seq::<Seq<u8>>::empty());
                assert(worker@.failed =~= Seq::<Seq<u8>>::empty());
                Some(worker)
            },
            None => None,
        }
    }

    /// The worker with the given parts, if they fit together: an instruction
    /// that is out for classification is the counter's position, and the two
    /// lists keep within their capacities.
    pub fn restore(
        counter: InstructionCounter,
        unique_sequences: u128,
        next: Option<Instruction>,
        instrs_seen: Vec<Instruction>,
        instrs_failed: Vec<Instruction>,
        fast_tunnel: bool,
    ) -> (made: Option<EnumWorker>)
        requires
            counter.wf(),
            next matches Some(i) ==> i.wf(),
            forall|i: int| 0 <= i < instrs_seen@.len() ==> (#[trigger] instrs_seen@[i]).wf(),
            forall|i: int| 0 <= i < instrs_failed@.len() ==> (#[trigger] instrs_failed@[i]).wf(),
        ensures
            match made {
                Some(worker) => {
                    &&& worker.wf()
                    &&& worker@ == (WorkerView {
                        counter: counter@,
                        unique_sequences: unique_sequences as nat,
                        next: match next {
                            Some(i) => Some(i@),
                            None => None,
                        },
                        seen: instruction_views(instrs_seen@),
                        failed: instruction_views(instrs_failed@),
                        fast_tunnel,
                    })
                },
                None => {
                    ||| next matches Some(i) && i@ != counter@.current
                    ||| instrs_seen@.len() > SEEN_CAPACITY
                    ||| instrs_failed@.len() > FAILED_CAPACITY
                },
            },
    {
        let fits = match &next {
            Some(i) => i.same(counter.current()),
            None => true,
        };
        if !fits || instrs_seen.len() > SEEN_CAPACITY || instrs_failed.len() > FAILED_CAPACITY {
            return None;
        }
        Some(EnumWorker { counter, unique_sequences, next, instrs_seen, instrs_failed, fast_tunnel })
    }

    /// The worker put together anew from copies of its parts, as a load does
    /// with what a save wrote. No part of a well-formed worker is refused,
    /// and the copy holds what the worker holds.
    pub fn reassembled(&self) -> (copy: EnumWorker)
        requires
            self.wf(),
        ensures
            copy.wf(),
            copy@ == self@,
    {
        let counter = self.counter.reassembled();
        let next = match &self.next {
            Some(i) => Some(i.clone()),
            None => None,
        };
        let instrs_seen = self.instrs_seen.clone();
        let instrs_failed = self.instrs_failed.clone();
        proof {
            assert(instruction_views(instrs_seen@) =~= self@.seen);
            assert(instruction_views(instrs_failed@) =~= self@.failed);
            assert forall|i: int| 0 <= i < instrs_seen@.len() implies (
            #[trigger] instrs_seen@[i]).wf() by {
                assert(is_instruction(self@.seen[i]));
            }
            assert forall|i: int| 0 <= i < instrs_failed@.len() implies (
            #[trigger] instrs_failed@[i]).wf() by {
                assert(is_instruction(self@.failed[i]));
            }
        }
        let copy = EnumWorker::restore(
            counter,
            self.unique_sequences,
            next,
            instrs_seen,
            instrs_failed,
            self.fast_tunnel,
        );
        copy.unwrap()
    }

    /// The counter.
    pub fn counter(&self) -> (counter: &InstructionCounter)
        ensures
            counter@ == self@.counter,
            self.wf() ==> counter.wf(),
    {
        &self.counter
    }

    /// The number of encodings that the worker recorded.
    pub fn unique_sequences(&self) -> (n: u128)
        ensures
            n == self@.unique_sequences,
    {
        self.unique_sequences
    }

    /// The instruction that is out for classification, if one is.
    pub fn next(&self) -> (next: &Option<Instruction>)
        ensures
            match next {
                Some(i) => self@.next == Some(i@) && (self.wf() ==> i.wf()),
                None => self@.next is None,
            },
    {
        &self.next
    }

    /// The instructions that were classified before.
    pub fn instrs_seen(&self) -> (seen: &Vec<Instruction>)
        ensures
            instruction_views(seen@) == self@.seen,
    {
        &self.instrs_seen
    }

    /// The instructions whose classification failed.
    pub fn instrs_failed(&self) -> (failed: &Vec<Instruction>)
        ensures
            instruction_views(failed@) == self@.failed,
    {
        &self.instrs_failed
    }

    /// Whether the counter walks with leaps.
    pub fn fast_tunnel(&self) -> (on: bool)
        ensures
            on == self@.fast_tunnel,
    {
        self.fast_tunnel
    }

    /// Makes the counter walk with leaps, or without.
    pub fn set_fast_tunnel(&mut self, on: bool)
        ensures
            final(self)@ == (WorkerView { fast_tunnel: on, ..old(self)@ }),
    {
        self.fast_tunnel = on;
    }

    /// Whether `instr` was classified before.
    pub fn has_seen(&self, instr: &Instruction) -> (r: bool)
        ensures
            r == self@.seen.contains(instr@),
    {
        let n: usize = self.instrs_seen.len();
        let mut i: usize = 0;
        while i < n
            invariant
                n == self.instrs_seen.len(),
                i <= n,
                forall|j: int| 0 <= j < i ==> (#[trigger] self@.seen[j]) != instr@,
            decreases n - i,
        {
            if self.instrs_seen[i].same(instr) {
                assert(self@.seen[i as int] == instr@);
                return true;
            }
            i += 1;
        }
        false
    }

    /// The instruction to classify next. Where one is out already, it is
    /// given again. Else the worker looks from its position on for the first
    /// instruction of its range that no filter matches and that was not seen,
    /// moves its counter there and gives it out. Where there is none, the
    /// worker stays as it is and the answer is `Done`.
    pub fn next_probe(&mut self) -> (probe: Probe)
        requires
            old(self).wf(),
        ensures
            final(self).wf(),
            final(self)@ == old(self)@.probed(),
            match probe {
                Probe::Classify(instr) => instr.wf() && old(self)@.probe() == Some(instr@),
                Probe::Done => old(self)@.probe() is None,
            },
    {
        match &self.next {
            Some(pending) => {
                let instr = pending.clone();
                assert(self@.counter.at(instr@) == self@.counter);
                return Probe::Classify(instr);
            },
            None => {},
        }
        let ghost v = self@;
        let mut cursor = self.counter.current().clone();
        proof {
            assert forall|z: Seq<u8>| #[trigger] v.is_open(z) implies lex_le(cursor@, z) by {}
        }
        loop
            invariant
                self@ == v,
                v == old(self)@,
                v.wf(),
                v.next is None,
                cursor.wf(),
                v.searched(cursor@),
            decreases rank_limit(MAX_INSTRUCTION_LEN as nat) - rank(cursor@),
        {
            if !self.counter.is_covered(&cursor) && !self.has_seen(&cursor) {
                proof {
                    assert(v.is_first_open(cursor@));
                    lemma_first_open(v, cursor@);
                }
                let moved = self.counter.seek(cursor.clone());
                assert(moved);
                self.next = Some(cursor.clone());
                return Probe::Classify(cursor);
            }
            proof {
                lemma_search_step(v, cursor@);
            }
            match self.counter.next_after(&cursor, self.fast_tunnel) {
                Some(d) => {
                    proof {
                        lemma_rank_bound(d@);
                    }
                    cursor = d;
                },
                None => {
                    return Probe::Done;
                },
            }
        }
    }

    // Adds `instr` to the seen instructions unless it is there or the list
    // is full.
    fn remember(&mut self, instr: &Instruction)
        requires
            old(self).wf(),
            instr.wf(),
        ensures
            final(self).wf(),
            final(self)@ == (WorkerView { seen: old(self)@.remember(instr@), ..old(self)@ }),
    {
        if !self.has_seen(instr) && self.instrs_seen.len() < SEEN_CAPACITY {
            self.instrs_seen.push(instr.clone());
            assert(self@.seen =~= old(self)@.seen.push(instr@));
        }
    }

    // Adds the filters, remembers the instruction at the position, and
    // moves the counter on.
    fn settle(&mut self, filters: &Vec<Filter>) -> (finished: bool)
        requires
            old(self).wf(),
            forall|i: int| 0 <= i < filters@.len() ==> (#[trigger] filters@[i]).wf(),
        ensures
            final(self).wf(),
            final(self)@ == old(self)@.settled(filter_views(filters@)),
            finished == old(self)@.finished_by(filter_views(filters@)),
    {
        let ghost v = self@;
        let ghost added = filter_views(filters@);
        let probed = self.counter.current().clone();
        let n: usize = filters.len();
        let mut i: usize = 0;
        while i < n
            invariant
                n == filters.len(),
                i <= n,
                v == old(self)@,
                v.wf(),
                added == filter_views(filters@),
                forall|k: int| 0 <= k < filters@.len() ==> (#[trigger] filters@[k]).wf(),
                self.counter.wf(),
                self@ == (WorkerView { counter: v.loaded(added.subrange(0, i as int)), ..v }),
            decreases n - i,
        {
            self.counter.filter(filters[i].clone());
            proof {
                assert(added[i as int] == filters@[i as int]@);
                assert((v.counter.filters + added.subrange(0, i as int)).push(added[i as int])
                    =~= v.counter.filters + added.subrange(0, i + 1));
            }
            i += 1;
        }
        assert(added.subrange(0, n as int) =~= added);
        self.next = None;
        self.remember(&probed);
        let next = self.counter.advance(self.fast_tunnel);
        next.is_none()
    }

    /// Records that the instruction that was out for classification has the
    /// given encoding: the encoding's filters are added, the instruction is
    /// remembered, the count of recorded encodings rises by one (it stays at
    /// the largest number that it can hold), and the counter moves to its
    /// next stop. The result says whether the range is exhausted. Where no
    /// instruction was out, nothing changes and the answer is
    /// `NothingPending`.
    pub fn record_encoding(&mut self, encoding: &Encoding) -> (finished: Result<bool, Error>)
        requires
            old(self).wf(),
            encoding.wf(),
        ensures
            final(self).wf(),
            match finished {
                Ok(done) => {
                    &&& old(self)@.next is Some
                    &&& final(self)@ == old(self)@.classified(encoding@.filters)
                    &&& done == old(self)@.finished_by(encoding@.filters)
                },
                Err(e) => {
                    &&& e == Error::NothingPending
                    &&& old(self)@.next is None
                    &&& final(self)@ == old(self)@
                },
            },
    {
        if self.next.is_none() {
            return Err(Error::NothingPending);
        }
        let done = self.settle(encoding.filters());
        if self.unique_sequences < u128::MAX {
            self.unique_sequences = self.unique_sequences + 1;
        }
        Ok(done)
    }

    /// Records that the classification of the instruction that was out
    /// failed: the instruction is kept among the failed ones while there is
    /// room, the filter that fixes its bits is added, the instruction is
    /// remembered, and the counter moves to its next stop. The result says
    /// whether the range is exhausted. Where no instruction was out, nothing
    /// changes and the answer is `NothingPending`.
    pub fn record_failure(&mut self) -> (finished: Result<bool, Error>)
        requires
            old(self).wf(),
        ensures
            final(self).wf(),
            match finished {
                Ok(done) => {
                    &&& old(self)@.next is Some
                    &&& final(self)@ == old(self)@.failed_probe()
                    &&& done == old(self)@.finished_by(old(self)@.failure_filters())
                },
                Err(e) => {
                    &&& e == Error::NothingPending
                    &&& old(self)@.next is None
                    &&& final(self)@ == old(self)@
                },
            },
    {
        if self.next.is_none() {
            return Err(Error::NothingPending);
        }
        let probed = self.counter.current().clone();
        let mut filters: Vec<Filter> = Vec::new();
        filters.push(Filter::exact(&probed));
        assert(filter_views(filters@) =~= self@.failure_filters());
        let done = self.settle(&filters);
        if self.instrs_failed.len() < FAILED_CAPACITY {
            self.instrs_failed.push(probed);
            assert(self@.failed =~= old(self)@.failed.push(probed@));
        }
        Ok(done)
    }

    /// Sets the worker back to the start of its range: a fresh counter over
    /// the same range, nothing out, nothing seen. The count of recorded
    /// encodings and the failed instructions stay.
    pub fn reset(&mut self)
        requires
            old(self).wf(),
        ensures
            final(self).wf(),
            final(self)@ == old(self)@.reset(),
    {
        let start = self.counter.from().clone();
        let filters: Vec<Filter> = Vec::new();
        let to = match self.counter.to() {
            Some(t) => Some(t.clone()),
            None => None,
        };
        proof {
            lemma_lt_transitive(self@.counter.from, self@.counter.current, self@.counter.current);
            if self@.counter.to is Some {
                lemma_lt_transitive(
                    self@.counter.from,
                    self@.counter.current,
                    self@.counter.to.unwrap(),
                );
            }
        }
        let fresh = InstructionCounter::restore(self.counter.from().clone(), to, start, filters);
        self.counter = fresh.unwrap();
        self.next = None;
        self.instrs_seen.clear();
        assert(self@.seen =~= Seq::<Seq<u8>>::empty());
        assert(self@.counter.filters =~= Seq::<Seq<ByteFilter>>::empty());
    }

    /// Forgets the instructions that were seen.
    pub fn clear_seen(&mut self)
        requires
            old(self).wf(),
        ensures
            final(self).wf(),
            final(self)@ == (WorkerView { seen: Seq::empty(), ..old(self)@ }),
    {
        self.instrs_seen.clear();
        assert(self@.seen =~= Seq::<Seq<u8>>::empty());
    }

    /// Puts `filters` in place of the counter's filters and compacts them.
    pub fn reload_filters(&mut self, filters: &Vec<Filter>)
        requires
            old(self).wf(),
            forall|i: int| 0 <= i < filters@.len() ==> (#[trigger] filters@[i]).wf(),
        ensures
            final(self).wf(),
            final(self)@ == old(self)@.reloaded(filter_views(filters@)),
    {
        let ghost v = self@;
        let ghost added = filter_views(filters@);
        self.counter.clear_filters();
        assert(added.subrange(0, 0) =~= Seq::<Seq<ByteFilter>>::empty());
        let n: usize = filters.len();
        let mut i: usize = 0;
        while i < n
            invariant
                n == filters.len(),
                i <= n,
                v == old(self)@,
                v.wf(),
                added == filter_views(filters@),
                forall|k: int| 0 <= k < filters@.len() ==> (#[trigger] filters@[k]).wf(),
                self.counter.wf(),
                self@ == (WorkerView {
                    counter: CounterView { filters: added.subrange(0, i as int), ..v.counter },
                    ..v
                }),
            decreases n - i,
        {
            self.counter.filter(filters[i].clone());
            proof {
                assert(added[i as int] == filters@[i as int]@);
                assert(added.subrange(0, i as int).push(added[i as int]) =~= added.subrange(
                    0,
                    i + 1,
                ));
            }
            i += 1;
        }
        assert(added.subrange(0, n as int) =~= added);
        self.counter.rebuild_inplace();
    }
}

} // verus!
