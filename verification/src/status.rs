//! The audit of an enumeration against a list of instructions that are
//! known to exist, and the figures of a status report.

use crate::encoding::{encoding_views, Encoding, EncodingView};
use crate::error::Error;
use crate::filter::ByteFilter;
use crate::filter_map::{lookup, FilterMap};
use crate::instruction::{lex_lt, Instruction};
use crate::state::RecordView;
use crate::work::{in_range, record_views, Work, WorkerRecord};
use vstd::prelude::*;

verus! {

/// `n`, or the largest `usize` where `n` is larger.
pub open spec fn capped(n: int) -> usize {
    if n > usize::MAX {
        usize::MAX
    } else {
        n as usize
    }
}

/// What the audit counted for one worker.
#[derive(Clone, Copy, Debug, PartialEq, Eq, Structural)]
pub struct Stats {
    /// The instructions that a filter matches.
    pub found: usize,
    /// The instructions that no filter matches though the worker has gone
    /// past them.
    pub missed: usize,
    /// All instructions of the worker's range that were audited.
    pub total: usize,
}

impl Stats {
    /// The sums of the counts, each capped at the largest `usize`.
    pub open spec fn plus(self, other: Stats) -> Stats {
        Stats {
            found: capped(self.found + other.found),
            missed: capped(self.missed + other.missed),
            total: capped(self.total + other.total),
        }
    }

    /// Counts of zero.
    pub fn zero() -> (stats: Stats)
        ensures
            stats == (Stats { found: 0, missed: 0, total: 0 }),
    {
        Stats { found: 0, missed: 0, total: 0 }
    }

    /// The sums of the counts of `self` and `other`.
    pub fn combined(&self, other: &Stats) -> (sum: Stats)
        ensures
            sum == self.plus(*other),
    {
        Stats {
            found: self.found.saturating_add(other.found),
            missed: self.missed.saturating_add(other.missed),
            total: self.total.saturating_add(other.total),
        }
    }

    /// The instructions that the worker is known to have dealt with: found
    /// and missed together.
    pub fn examined(&self) -> (n: usize)
        ensures
            n == capped(self.found + self.missed),
    {
        self.found.saturating_add(self.missed)
    }
}

/// What the audit says of one instruction.
#[derive(Clone, Copy, Debug, PartialEq, Eq, Structural)]
pub enum Verdict {
    /// A filter of the artifact with this index matches the instruction.
    Found(usize),
    /// No filter matches the instruction, and its worker has gone past it.
    Missed,
    /// No filter matches the instruction, and its worker has yet to reach it.
    Ahead,
}

/// The verdict on `z` for a worker that stands at `current`, given the
/// filters of `entries`.
pub open spec fn verdict_of(entries: Seq<(Seq<ByteFilter>, usize)>, current: Seq<u8>, z: Seq<u8>) -> Verdict {
    match lookup(entries, z) {
        Some(index) => Verdict::Found(index),
        None => if lex_lt(z, current) {
            Verdict::Missed
        } else {
            Verdict::Ahead
        },
    }
}

/// Whether `k` is the first worker whose range holds `z`.
pub open spec fn is_owner(workers: Seq<RecordView>, z: Seq<u8>, k: int) -> bool {
    &&& 0 <= k < workers.len()
    &&& in_range(workers[k], z)
    &&& forall|j: int| 0 <= j < k ==> !in_range(#[trigger] workers[j], z)
}

/// The entries of the filter map of `artifacts`: the filters of each
/// artifact with the artifact's index, artifact by artifact.
pub open spec fn entries_of(artifacts: Seq<EncodingView>) -> Seq<(Seq<ByteFilter>, usize)>
    decreases artifacts.len(),
{
    if artifacts.len() == 0 {
        Seq::empty()
    } else {
        let last = artifacts.last();
        entries_of(artifacts.drop_last()) + Seq::new(
            last.filters.len(),
            |j: int| (last.filters[j], (artifacts.len() - 1) as usize),
        )
    }
}

/// The counts of `counts` up to `n`, summed.
pub open spec fn tally(counts: Seq<Stats>, n: int) -> (nat, nat, nat)
    decreases n,
{
    if n <= 0 {
        (0, 0, 0)
    } else {
        let before = tally(counts, n - 1);
        (
            before.0 + counts[n - 1].found as nat,
            before.1 + counts[n - 1].missed as nat,
            before.2 + counts[n - 1].total as nat,
        )
    }
}

/// The number of flags among the first `n` that are set.
pub open spec fn set_flags(flags: Seq<bool>, n: int) -> nat
    decreases n,
{
    if n <= 0 {
        0
    } else {
        set_flags(flags, n - 1) + if flags[n - 1] {
            1nat
        } else {
            0nat
        }
    }
}

/// What an audit has counted, as plain values.
pub struct ReportView {
    /// The counts, worker by worker.
    pub counts: Seq<Stats>,
    /// For each artifact, whether one of its filters matched an audited
    /// instruction.
    pub seen: Seq<bool>,
}

impl ReportView {
    /// The report after `verdict` was noted for an instruction of worker
    /// `worker`.
    pub open spec fn noted(self, worker: int, verdict: Verdict) -> ReportView {
        let was = self.counts[worker];
        let total = capped(was.total + 1);
        ReportView {
            counts: self.counts.update(
                worker,
                match verdict {
                    Verdict::Found(_) => Stats { found: capped(was.found + 1), total, ..was },
                    Verdict::Missed => Stats { missed: capped(was.missed + 1), total, ..was },
                    Verdict::Ahead => Stats { total, ..was },
                },
            ),
            seen: match verdict {
                Verdict::Found(index) => self.seen.update(index as int, true),
                _ => self.seen,
            },
        }
    }

    /// The report with the counts and flags of `other` added, place by
    /// place, as far as `other` reaches.
    pub open spec fn merged(self, other: ReportView) -> ReportView {
        ReportView {
            counts: Seq::new(
                self.counts.len(),
                |i: int|
                    if i < other.counts.len() {
                        self.counts[i].plus(other.counts[i])
                    } else {
                        self.counts[i]
                    },
            ),
            seen: Seq::new(
                self.seen.len(),
                |i: int| self.seen[i] || (i < other.seen.len() && other.seen[i]),
            ),
        }
    }
}

/// The filter map of the artifacts: each filter of each artifact, with the
/// artifact's index.
pub fn index_artifacts(artifacts: &Vec<Encoding>) -> (map: FilterMap)
    requires
        forall|i: int| 0 <= i < artifacts@.len() ==> (#[trigger] artifacts@[i]).wf(),
    ensures
        map.wf(),
        map@ == entries_of(encoding_views(artifacts@)),
{
    let ghost av = encoding_views(artifacts@);
    let mut map = FilterMap::new();
    let n: usize = artifacts.len();
    let mut i: usize = 0;
    assert(av.subrange(0, 0) =~= Seq::<EncodingView>::empty());
    while i < n
        invariant
            n == artifacts.len(),
            i <= n,
            av == encoding_views(artifacts@),
            forall|k: int| 0 <= k < artifacts@.len() ==> (#[trigger] artifacts@[k]).wf(),
            map.wf(),
            map@ == entries_of(av.subrange(0, i as int)),
        decreases n - i,
    {
        let filters = artifacts[i].filters();
        let ghost fv = av[i as int].filters;
        let ghost before = map@;
        let m: usize = filters.len();
        let mut j: usize = 0;
        while j < m
            invariant
                m == filters.len(),
                j <= m,
                fv == crate::filter::filter_views(filters@),
                forall|k: int| 0 <= k < filters@.len() ==> (#[trigger] filters@[k]).wf(),
                map.wf(),
                map@ == before + Seq::new(j as nat, |k: int| (fv[k], i)),
            decreases m - j,
        {
            map.add(filters[j].clone(), i);
            assert(map@ =~= before + Seq::new((j + 1) as nat, |k: int| (fv[k], i)));
            j += 1;
        }
        proof {
            let upto = av.subrange(0, i + 1);
            assert(upto.drop_last() =~= av.subrange(0, i as int));
            assert(upto.last() == av[i as int]);
            assert(Seq::new(m as nat, |k: int| (fv[k], i)) =~= Seq::new(
                upto.last().filters.len(),
                |k: int| (upto.last().filters[k], (upto.len() - 1) as usize),
            ));
        }
        i += 1;
    }
    assert(av.subrange(0, n as int) =~= av);
    map
}

/// The first worker whose range holds `instr`, if there is one.
pub fn find_owner(workers: &Vec<WorkerRecord>, instr: &Instruction) -> (owner: Option<usize>)
    ensures
        match owner {
            Some(k) => is_owner(record_views(workers@), instr@, k as int),
            None => forall|j: int|
                0 <= j < workers@.len() ==> !in_range(#[trigger] record_views(workers@)[j], instr@),
        },
{
    let n: usize = workers.len();
    let mut k: usize = 0;
    while k < n
        invariant
            n == workers.len(),
            k <= n,
            forall|j: int| 0 <= j < k ==> !in_range(#[trigger] record_views(workers@)[j], instr@),
        decreases n - k,
    {
        if workers[k].owns(instr) {
            return Some(k);
        }
        k += 1;
    }
    None
}

/// What an audit has counted: for each worker the instructions found,
/// missed and audited, and for each artifact whether it was met.
#[derive(Debug)]
pub struct ScanReport {
    counts: Vec<Stats>,
    encodings_seen: Vec<bool>,
}

impl View for ScanReport {
    type V = ReportView;

    closed spec fn view(&self) -> ReportView {
        ReportView { counts: self.counts@, seen: self.encodings_seen@ }
    }
}

impl ScanReport {
    /// A report for `workers` workers and `encodings` artifacts in which
    /// nothing is counted yet.
    pub fn new(workers: usize, encodings: usize) -> (report: ScanReport)
        ensures
            report@.counts == Seq::new(workers as nat, |i: int| Stats { found: 0, missed: 0, total: 0 }),
            report@.seen == Seq::new(encodings as nat, |i: int| false),
    {
        let mut counts: Vec<Stats> = Vec::new();
        let mut i: usize = 0;
        while i < workers
            invariant
                i <= workers,
                counts@.len() == i,
                forall|j: int| 0 <= j < i ==> counts@[j] == (Stats { found: 0, missed: 0, total: 0 }),
            decreases workers - i,
        {
            counts.push(Stats::zero());
            i += 1;
        }
        let mut encodings_seen: Vec<bool> = Vec::new();
        let mut k: usize = 0;
        while k < encodings
            invariant
                k <= encodings,
                encodings_seen@.len() == k,
                forall|j: int| 0 <= j < k ==> !encodings_seen@[j],
            decreases encodings - k,
        {
            encodings_seen.push(false);
            k += 1;
        }
        let report = ScanReport { counts, encodings_seen };
        assert(report@.counts =~= Seq::new(
            workers as nat,
            |i: int| Stats { found: 0, missed: 0, total: 0 },
        ));
        assert(report@.seen =~= Seq::new(encodings as nat, |i: int| false));
        report
    }

    /// The counts, worker by worker.
    pub fn counts(&self) -> (counts: &Vec<Stats>)
        ensures
            counts@ == self@.counts,
    {
        &self.counts
    }

    /// For each artifact, whether one of its filters matched an audited
    /// instruction.
    pub fn encodings_seen(&self) -> (seen: &Vec<bool>)
        ensures
            seen@ == self@.seen,
    {
        &self.encodings_seen
    }

    /// Audits `instr`: finds the first worker whose range holds it and notes
    /// the verdict for that worker. The instruction is found where a filter
    /// of `map` matches it, missed where none does and the worker's counter
    /// stands behind it, and ahead of the worker otherwise.
    ///
    /// Nothing is noted and the answer is `NoOwner` where no worker's range
    /// holds the instruction, `InvalidState` where the report has no place
    /// for the worker or for the artifact that was found.
    pub fn observe(&mut self, work: &Work, map: &FilterMap, instr: &Instruction) -> (r: Result<
        (usize, Verdict),
        Error,
    >)
        requires
            work.wf(),
            map.wf(),
            instr.wf(),
        ensures
            match r {
                Ok((k, verdict)) => {
                    &&& is_owner(work@.workers, instr@, k as int)
                    &&& verdict == verdict_of(
                        map@,
                        work@.workers[k as int].inner.counter.current,
                        instr@,
                    )
                    &&& k < old(self)@.counts.len()
                    &&& (verdict matches Verdict::Found(index) ==> index < old(self)@.seen.len())
                    &&& final(self)@ == old(self)@.noted(k as int, verdict)
                },
                Err(e) => {
                    &&& final(self)@ == old(self)@
                    &&& match e {
                        Error::NoOwner => forall|j: int|
                            0 <= j < work@.workers.len() ==> !in_range(
                                #[trigger] work@.workers[j],
                                instr@,
                            ),
                        Error::InvalidState => exists|k: int|
                            {
                                &&& is_owner(work@.workers, instr@, k)
                                &&& (k >= old(self)@.counts.len() || (verdict_of(
                                    map@,
                                    work@.workers[k].inner.counter.current,
                                    instr@,
                                ) matches Verdict::Found(index) && index >= old(self)@.seen.len()))
                            },
                        _ => false,
                    }
                },
            },
    {
        let workers = work.workers();
        let k = match find_owner(workers, instr) {
            Some(k) => k,
            None => {
                return Err(Error::NoOwner);
            },
        };
        let record = &workers[k];
        let verdict = match map.filters(instr) {
            Some(index) => Verdict::Found(index),
            None => if instr.lt(record.inner().counter().current()) {
                Verdict::Missed
            } else {
                Verdict::Ahead
            },
        };
        assert(record@ == work@.workers[k as int]);
        if k >= self.counts.len() {
            assert(is_owner(work@.workers, instr@, k as int));
            return Err(Error::InvalidState);
        }
        let was = self.counts[k];
        let total = was.total.saturating_add(1);
        match verdict {
            Verdict::Found(index) => {
                if index >= self.encodings_seen.len() {
                    assert(is_owner(work@.workers, instr@, k as int));
                    return Err(Error::InvalidState);
                }
                self.encodings_seen.set(index, true);
                self.counts.set(k, Stats { found: was.found.saturating_add(1), total, ..was });
            },
            Verdict::Missed => {
                self.counts.set(k, Stats { missed: was.missed.saturating_add(1), total, ..was });
            },
            Verdict::Ahead => {
                self.counts.set(k, Stats { total, ..was });
            },
        }
        Ok((k, verdict))
    }

    /// Adds the counts and flags of `other`, place by place, as far as
    /// `other` reaches.
    pub fn merge(&mut self, other: &ScanReport)
        ensures
            final(self)@ == old(self)@.merged(other@),
    {
        let ghost before = self@;
        let n: usize = self.counts.len();
        let mut i: usize = 0;
        while i < n && i < other.counts.len()
            invariant
                n == self.counts@.len(),
                n == before.counts.len(),
                i <= n,
                i <= other.counts@.len(),
                self.encodings_seen@ == before.seen,
                forall|j: int| 0 <= j < i ==> self.counts@[j] == before.counts[j].plus(other.counts@[j]),
                forall|j: int| i <= j < n ==> self.counts@[j] == before.counts[j],
            decreases n - i,
        {
            let sum = self.counts[i].combined(&other.counts[i]);
            self.counts.set(i, sum);
            i += 1;
        }
        assert(self.counts@ =~= before.merged(other@).counts);
        let m: usize = self.encodings_seen.len();
        let mut k: usize = 0;
        while k < m && k < other.encodings_seen.len()
            invariant
                m == self.encodings_seen@.len(),
                m == before.seen.len(),
                k <= m,
                k <= other.encodings_seen@.len(),
                self.counts@ == before.merged(other@).counts,
                forall|j: int|
                    0 <= j < k ==> #[trigger] self.encodings_seen@[j] == (before.seen[j]
                        || other.encodings_seen@[j]),
                forall|j: int| k <= j < m ==> #[trigger] self.encodings_seen@[j] == before.seen[j],
            decreases m - k,
        {
            let mine: bool = self.encodings_seen[k];
            let theirs: bool = other.encodings_seen[k];
            assert(mine == before.seen[k as int]);
            self.encodings_seen.set(k, mine || theirs);
            k += 1;
        }
        assert(self@.seen =~= before.merged(other@).seen);
    }

    /// The counts of all workers together, each capped at the largest
    /// `usize`.
    pub fn totals(&self) -> (sum: Stats)
        ensures
            sum.found == capped(tally(self@.counts, self@.counts.len() as int).0 as int),
            sum.missed == capped(tally(self@.counts, self@.counts.len() as int).1 as int),
            sum.total == capped(tally(self@.counts, self@.counts.len() as int).2 as int),
    {
        let n: usize = self.counts.len();
        let mut sum = Stats::zero();
        let mut i: usize = 0;
        while i < n
            invariant
                n == self.counts@.len(),
                i <= n,
                sum.found == capped(tally(self@.counts, i as int).0 as int),
                sum.missed == capped(tally(self@.counts, i as int).1 as int),
                sum.total == capped(tally(self@.counts, i as int).2 as int),
            decreases n - i,
        {
            sum = sum.combined(&self.counts[i]);
            i += 1;
        }
        sum
    }

    /// The number of artifacts that were met.
    pub fn encodings_met(&self) -> (n: usize)
        ensures
            n == set_flags(self@.seen, self@.seen.len() as int),
    {
        let m: usize = self.encodings_seen.len();
        let mut n: usize = 0;
        let mut i: usize = 0;
        while i < m
            invariant
                m == self.encodings_seen@.len(),
                i <= m,
                n <= i,
                n == set_flags(self@.seen, i as int),
            decreases m - i,
        {
            if self.encodings_seen[i] {
                n += 1;
            }
            i += 1;
        }
        n
    }
}

/// `seconds` as hours, minutes below sixty and seconds below sixty.
pub fn split_seconds(seconds: u64) -> (parts: (u64, u64, u64))
    ensures
        parts.0 * 3600 + parts.1 * 60 + parts.2 == seconds,
        parts.1 < 60,
        parts.2 < 60,
{
    (seconds / 3600, (seconds / 60) % 60, seconds % 60)
}

/// `part` in thousandths of `whole`, rounded down; `None` where `whole` is
/// zero and there is no such figure.
pub fn per_mille(part: usize, whole: usize) -> (share: Option<u128>)
    ensures
        match share {
            Some(s) => whole > 0 && s == (part * 1000) / (whole as int),
            None => whole == 0,
        },
{
    if whole == 0 {
        return None;
    }
    assert(part * 1000 <= u128::MAX) by (nonlinear_arith)
        requires
            0 <= part <= 0xFFFF_FFFF_FFFF_FFFF,
    ;
    let scaled: u128 = (part as u128) * 1000;
    Some(scaled / (whole as u128))
}

/// The columns of a status report that hold instructions.
#[derive(Clone, Copy, Debug, PartialEq, Eq, Structural)]
pub enum Column {
    /// The first instruction of each range.
    From,
    /// The last instruction of each range.
    To,
    /// The position of each worker.
    Current,
}

/// The number of bytes that the worker of `record` shows in `column`; none
/// for the end of a range that has no end.
pub open spec fn cell_length(record: RecordView, column: Column) -> nat {
    match column {
        Column::From => record.from.len(),
        Column::To => match record.to {
            Some(t) => t.len(),
            None => 0,
        },
        Column::Current => record.inner.counter.current.len(),
    }
}

/// The largest number of bytes that one of the first `n` workers shows in
/// `column`.
pub open spec fn longest(workers: Seq<RecordView>, n: int, column: Column) -> nat
    decreases n,
{
    if n <= 0 {
        0
    } else {
        let before = longest(workers, n - 1, column);
        if cell_length(workers[n - 1], column) > before {
            cell_length(workers[n - 1], column)
        } else {
            before
        }
    }
}

/// The widths of the columns of a status report.
#[derive(Clone, Copy, Debug, PartialEq, Eq, Structural)]
pub struct Widths {
    /// The width of the column of the first instructions.
    pub from: usize,
    /// The width of the column of the last instructions.
    pub to: usize,
    /// The width of the column of the positions.
    pub current: usize,
}

/// The widths of the columns of a status report: four characters for each
/// byte of the longest instruction of the column.
pub fn column_widths(workers: &Vec<WorkerRecord>) -> (widths: Widths)
    requires
        forall|k: int| 0 <= k < workers@.len() ==> (#[trigger] workers@[k]).wf(),
    ensures
        widths.from == 4 * longest(record_views(workers@), workers@.len() as int, Column::From),
        widths.to == 4 * longest(record_views(workers@), workers@.len() as int, Column::To),
        widths.current == 4 * longest(
            record_views(workers@),
            workers@.len() as int,
            Column::Current,
        ),
{
    let ghost views = record_views(workers@);
    let n: usize = workers.len();
    let mut from: usize = 0;
    let mut to: usize = 0;
    let mut current: usize = 0;
    let mut k: usize = 0;
    while k < n
        invariant
            n == workers@.len(),
            k <= n,
            views == record_views(workers@),
            forall|j: int| 0 <= j < workers@.len() ==> (#[trigger] workers@[j]).wf(),
            from == longest(views, k as int, Column::From),
            to == longest(views, k as int, Column::To),
            current == longest(views, k as int, Column::Current),
            from <= 15,
            to <= 15,
            current <= 15,
        decreases n - k,
    {
        let record = &workers[k];
        assert(record.wf());
        assert(views[k as int] == record@);
        let f: usize = record.from().len();
        if f > from {
            from = f;
        }
        let t: usize = match record.to() {
            Some(t) => t.len(),
            None => 0,
        };
        if t > to {
            to = t;
        }
        let c: usize = record.inner().counter().current().len();
        if c > current {
            current = c;
        }
        k += 1;
    }
    Widths { from: from * 4, to: to * 4, current: current * 4 }
}

} // verus!
