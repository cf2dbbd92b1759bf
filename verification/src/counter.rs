//! The cursor that walks a range of instruction space and stops only at
//! instructions that no filter matches.

use crate::filter::{
    filter_covers, filter_matches, filter_views, is_filter, lemma_filter_covers,
    lemma_match_subtree,
    ByteFilter, Filter,
};
use crate::instruction::{
    after_subtree, is_instruction, lemma_after_subtree_greater, lemma_after_subtree_least,
    lemma_lt_rank, lemma_lt_transitive, lemma_order_is_rank, lemma_prefix_le, lemma_rank_bound,
    lemma_successor_greater, lemma_successor_least, lemma_trichotomy, lex_le, lex_lt, rank,
    rank_limit, starts_with, successor, Instruction, MAX_INSTRUCTION_LEN,
};
use vstd::prelude::*;

verus! {

/// Whether one of the filters matches `x`.
pub open spec fn covered(filters: Seq<Seq<ByteFilter>>, x: Seq<u8>) -> bool {
    exists|i: int| 0 <= i < filters.len() && filter_matches(#[trigger] filters[i], x)
}

/// Whether `x` lies at or below the upper bound `to`; no bound admits all.
pub open spec fn within(to: Option<Seq<u8>>, x: Seq<u8>) -> bool {
    match to {
        Some(t) => lex_le(x, t),
        None => true,
    }
}

/// Whether one of the filters of `kept` covers `f`.
pub open spec fn covered_by(kept: Seq<Seq<ByteFilter>>, f: Seq<ByteFilter>) -> bool {
    exists|i: int| 0 <= i < kept.len() && filter_covers(#[trigger] kept[i], f)
}

/// The filters of `fs` in their order, without each one that an earlier
/// filter that stays covers.
pub open spec fn compact(fs: Seq<Seq<ByteFilter>>) -> Seq<Seq<ByteFilter>>
    decreases fs.len(),
{
    if fs.len() == 0 {
        fs
    } else {
        let kept = compact(fs.drop_last());
        if covered_by(kept, fs.last()) {
            kept
        } else {
            kept.push(fs.last())
        }
    }
}

/// Whether no filter of `fs` is covered by one that comes before it.
pub open spec fn irredundant(fs: Seq<Seq<ByteFilter>>) -> bool {
    forall|i: int, j: int| 0 <= i < j < fs.len() ==> !filter_covers(#[trigger] fs[i], #[trigger] fs[j])
}

/// What `compact` keeps: filters of `fs`, none covered by an earlier one,
/// and each filter of `fs` itself or one that covers it.
pub proof fn lemma_compact(fs: Seq<Seq<ByteFilter>>)
    ensures
        compact(fs).len() <= fs.len(),
        forall|i: int| 0 <= i < compact(fs).len() ==> fs.contains(#[trigger] compact(fs)[i]),
        forall|i: int|
            0 <= i < fs.len() ==> compact(fs).contains(#[trigger] fs[i]) || covered_by(
                compact(fs),
                fs[i],
            ),
        irredundant(compact(fs)),
    decreases fs.len(),
{
    if fs.len() > 0 {
        let front = fs.drop_last();
        let kept = compact(front);
        let out = compact(fs);
        lemma_compact(front);
        assert forall|i: int| 0 <= i < out.len() implies fs.contains(#[trigger] out[i]) by {
            if i < kept.len() {
                assert(front.contains(kept[i]));
                let w = choose|w: int| 0 <= w < front.len() && front[w] == kept[i];
                assert(fs[w] == kept[i]);
            } else {
                assert(fs[fs.len() - 1] == out[i]);
            }
        }
        assert forall|i: int| 0 <= i < fs.len() implies out.contains(#[trigger] fs[i])
            || covered_by(out, fs[i]) by {
            if i < front.len() {
                assert(fs[i] == front[i]);
                if kept.contains(front[i]) {
                    let w = choose|w: int| 0 <= w < kept.len() && kept[w] == front[i];
                    assert(out[w] == fs[i]);
                } else {
                    let w = choose|w: int|
                        0 <= w < kept.len() && filter_covers(#[trigger] kept[w], front[i]);
                    assert(filter_covers(out[w], fs[i]));
                }
            } else if covered_by(kept, fs.last()) {
            } else {
                assert(out[out.len() - 1] == fs[i]);
            }
        }
        assert forall|i: int, j: int| 0 <= i < j < out.len() implies !filter_covers(
            #[trigger] out[i],
            #[trigger] out[j],
        ) by {
            if j < kept.len() {
                assert(!filter_covers(kept[i], kept[j]));
            } else {
                assert(kept[i] == out[i]);
            }
        }
    }
}

/// Compacting leaves the covered instructions as they were.
pub proof fn lemma_compact_covered(fs: Seq<Seq<ByteFilter>>, x: Seq<u8>)
    ensures
        covered(compact(fs), x) <==> covered(fs, x),
{
    lemma_compact(fs);
    let out = compact(fs);
    if covered(out, x) {
        let i = choose|i: int| 0 <= i < out.len() && filter_matches(#[trigger] out[i], x);
        assert(fs.contains(out[i]));
        let w = choose|w: int| 0 <= w < fs.len() && fs[w] == out[i];
        assert(filter_matches(fs[w], x));
    }
    if covered(fs, x) {
        let i = choose|i: int| 0 <= i < fs.len() && filter_matches(#[trigger] fs[i], x);
        if out.contains(fs[i]) {
            let w = choose|w: int| 0 <= w < out.len() && out[w] == fs[i];
            assert(filter_matches(out[w], x));
        } else {
            let w = choose|w: int| 0 <= w < out.len() && filter_covers(#[trigger] out[w], fs[i]);
            lemma_filter_covers(out[w], fs[i], x);
        }
    }
}

/// Compacting keeps filters in which none is covered by an earlier one as
/// they are.
pub proof fn lemma_compact_fixed(fs: Seq<Seq<ByteFilter>>)
    requires
        irredundant(fs),
    ensures
        compact(fs) == fs,
    decreases fs.len(),
{
    if fs.len() > 0 {
        let front = fs.drop_last();
        assert forall|i: int, j: int| 0 <= i < j < front.len() implies !filter_covers(
            #[trigger] front[i],
            #[trigger] front[j],
        ) by {
            assert(!filter_covers(fs[i], fs[j]));
        }
        lemma_compact_fixed(front);
        if covered_by(front, fs.last()) {
            let w = choose|w: int| 0 <= w < front.len() && filter_covers(#[trigger] front[w], fs.last());
            assert(!filter_covers(fs[w], fs[fs.len() - 1]));
        }
        assert(front.push(fs.last()) =~= fs);
    }
}

/// Compacting twice gives what compacting once gives.
pub proof fn lemma_compact_idempotent(fs: Seq<Seq<ByteFilter>>)
    ensures
        compact(compact(fs)) == compact(fs),
{
    lemma_compact(fs);
    lemma_compact_fixed(compact(fs));
}

/// What a counter holds, as plain values.
pub struct CounterView {
    /// The first instruction of the range.
    pub from: Seq<u8>,
    /// The last instruction of the range; `None` where the range goes on to
    /// the end of instruction space.
    pub to: Option<Seq<u8>>,
    /// The position: every instruction of the range before it is done with.
    pub current: Seq<u8>,
    /// The filters, in the order in which they came.
    pub filters: Seq<Seq<ByteFilter>>,
}

impl CounterView {
    /// The bounds and the position are instructions, the position lies in
    /// the range, and the filters have the shape of filters.
    pub open spec fn wf(self) -> bool {
        &&& is_instruction(self.from)
        &&& is_instruction(self.current)
        &&& (self.to matches Some(t) ==> is_instruction(t))
        &&& lex_le(self.from, self.current)
        &&& within(self.to, self.current)
        &&& forall|i: int| 0 <= i < self.filters.len() ==> is_filter(#[trigger] self.filters[i])
    }

    /// Whether `y` is where the counter stops next: the first instruction
    /// after the position, within the range, that no filter matches.
    pub open spec fn is_next(self, y: Seq<u8>) -> bool {
        &&& is_instruction(y)
        &&& lex_lt(self.current, y)
        &&& within(self.to, y)
        &&& !covered(self.filters, y)
        &&& forall|z: Seq<u8>|
            is_instruction(z) && lex_lt(self.current, z) && #[trigger] lex_lt(z, y) ==> covered(
                self.filters,
                z,
            )
    }

    /// Whether the filters match every instruction of the range after the
    /// position.
    pub open spec fn exhausted(self) -> bool {
        forall|z: Seq<u8>|
            is_instruction(z) && #[trigger] lex_lt(self.current, z) && within(self.to, z)
                ==> covered(self.filters, z)
    }

    /// The view of the counter moved to `position`.
    pub open spec fn at(self, position: Seq<u8>) -> CounterView {
        CounterView { current: position, ..self }
    }

    /// The instruction at which the counter stops next, if there is one.
    pub open spec fn next_stop(self) -> Option<Seq<u8>> {
        if exists|y: Seq<u8>| self.is_next(y) {
            Some(choose|y: Seq<u8>| self.is_next(y))
        } else {
            None
        }
    }

    /// The position and the upper bound are instructions.
    pub open spec fn shaped(self) -> bool {
        &&& is_instruction(self.current)
        &&& (self.to matches Some(t) ==> is_instruction(t))
    }

    // Every instruction after the position and before `c` is covered.
    spec fn scanned(self, c: Seq<u8>) -> bool {
        &&& is_instruction(c)
        &&& lex_lt(self.current, c)
        &&& forall|z: Seq<u8>|
            is_instruction(z) && lex_lt(self.current, z) && #[trigger] lex_lt(z, c) ==> covered(
                self.filters,
                z,
            )
    }
}

/// The counter stops next at one instruction at most, and at none where its
/// range is exhausted.
pub proof fn lemma_next_unique(v: CounterView, y1: Seq<u8>, y2: Seq<u8>)
    requires
        v.is_next(y1),
    ensures
        !v.exhausted(),
        v.is_next(y2) ==> y1 == y2,
{
    if v.is_next(y2) {
        lemma_trichotomy(y1, y2);
    }
}

/// `next_stop` is the instruction at which the counter stops next, and
/// there is none exactly where the range is exhausted.
pub proof fn lemma_next_stop(v: CounterView)
    requires
        v.shaped(),
    ensures
        match v.next_stop() {
            Some(y) => v.is_next(y) && !v.exhausted(),
            None => v.exhausted(),
        },
        forall|y: Seq<u8>| v.is_next(y) ==> v.next_stop() == Some(y),
{
    match v.next_stop() {
        Some(y) => {
            lemma_next_unique(v, y, y);
            assert forall|z: Seq<u8>| v.is_next(z) implies v.next_stop() == Some(z) by {
                lemma_next_unique(v, y, z);
            }
        },
        None => {
            assert forall|z: Seq<u8>|
                is_instruction(z) && #[trigger] lex_lt(v.current, z) && within(v.to, z) implies covered(
                v.filters,
                z,
            ) by {
                if !covered(v.filters, z) {
                    let y = least_uncovered(v, z);
                    assert(v.is_next(y));
                }
            }
        },
    }
}

// The first uncovered instruction after the position, given that `z` is one
// within the range.
proof fn least_uncovered(v: CounterView, z: Seq<u8>) -> (y: Seq<u8>)
    requires
        v.shaped(),
        is_instruction(z),
        lex_lt(v.current, z),
        within(v.to, z),
        !covered(v.filters, z),
    ensures
        v.is_next(y),
    decreases rank(z),
{
    if exists|x: Seq<u8>|
        is_instruction(x) && lex_lt(v.current, x) && #[trigger] lex_lt(x, z) && !covered(
            v.filters,
            x,
        ) {
        let x = choose|x: Seq<u8>|
            is_instruction(x) && lex_lt(v.current, x) && #[trigger] lex_lt(x, z) && !covered(
                v.filters,
                x,
            );
        lemma_lt_rank(x, z);
        if v.to is Some {
            lemma_lt_transitive(x, z, v.to.unwrap());
        }
        least_uncovered(v, x)
    } else {
        z
    }
}

proof fn lemma_scan_start(v: CounterView)
    requires
        v.shaped(),
    ensures
        match successor(v.current) {
            Some(c) => v.scanned(c),
            None => v.exhausted(),
        },
{
    let cur = v.current;
    match successor(cur) {
        Some(c) => {
            lemma_successor_greater(cur);
            assert forall|z: Seq<u8>|
                is_instruction(z) && lex_lt(cur, z) && #[trigger] lex_lt(z, c) implies covered(
                v.filters,
                z,
            ) by {
                lemma_successor_least(cur, z);
                lemma_order_is_rank(z, c);
                lemma_order_is_rank(c, z);
            }
        },
        None => {
            assert forall|z: Seq<u8>|
                is_instruction(z) && #[trigger] lex_lt(cur, z) && within(v.to, z) implies covered(
                v.filters,
                z,
            ) by {
                lemma_successor_least(cur, z);
            }
        },
    }
}

proof fn lemma_scan_found(v: CounterView, c: Seq<u8>)
    requires
        v.scanned(c),
        within(v.to, c),
        !covered(v.filters, c),
    ensures
        v.is_next(c),
{
}

proof fn lemma_scan_out(v: CounterView, c: Seq<u8>)
    requires
        v.shaped(),
        v.scanned(c),
        !within(v.to, c),
    ensures
        v.exhausted(),
{
    let t = v.to.unwrap();
    assert forall|z: Seq<u8>|
        is_instruction(z) && #[trigger] lex_lt(v.current, z) && within(v.to, z) implies covered(
        v.filters,
        z,
    ) by {
        lemma_order_is_rank(z, t);
        lemma_order_is_rank(c, t);
        lemma_order_is_rank(z, c);
        assert(lex_lt(z, c));
    }
}

// One step of the plain walk: from a covered `c` to its successor.
proof fn lemma_scan_step(v: CounterView, c: Seq<u8>)
    requires
        v.shaped(),
        v.scanned(c),
        covered(v.filters, c),
    ensures
        match successor(c) {
            Some(d) => v.scanned(d) && rank(c) < rank(d),
            None => v.exhausted(),
        },
{
    let cur = v.current;
    match successor(c) {
        Some(d) => {
            lemma_successor_greater(c);
            lemma_lt_rank(c, d);
            lemma_lt_transitive(cur, c, d);
            assert forall|z: Seq<u8>|
                is_instruction(z) && lex_lt(cur, z) && #[trigger] lex_lt(z, d) implies covered(
                v.filters,
                z,
            ) by {
                lemma_trichotomy(z, c);
                if lex_lt(c, z) {
                    lemma_successor_least(c, z);
                    lemma_order_is_rank(z, d);
                    lemma_order_is_rank(d, z);
                }
            }
        },
        None => {
            assert forall|z: Seq<u8>|
                is_instruction(z) && #[trigger] lex_lt(cur, z) && within(v.to, z) implies covered(
                v.filters,
                z,
            ) by {
                lemma_trichotomy(z, c);
                if lex_lt(c, z) {
                    lemma_successor_least(c, z);
                }
            }
        },
    }
}

// One step of the tunnel: from a `c` that filter `j` matches to the first
// instruction after all those that start with the bytes of `c` that the
// filter reads.
proof fn lemma_scan_jump(v: CounterView, c: Seq<u8>, j: int)
    requires
        v.shaped(),
        v.scanned(c),
        0 <= j < v.filters.len(),
        filter_matches(v.filters[j], c),
        v.filters[j].len() >= 1,
    ensures
        match after_subtree(c.subrange(0, v.filters[j].len() as int)) {
            Some(d) => v.scanned(d) && rank(c) < rank(d),
            None => v.exhausted(),
        },
{
    let cur = v.current;
    let f = v.filters[j];
    let p = c.subrange(0, f.len() as int);
    assert(starts_with(c, p));
    lemma_prefix_le(p, c);
    assert forall|z: Seq<u8>| is_instruction(z) && lex_lt(c, z) && !covered(v.filters, z) implies {
        &&& after_subtree(p) is Some
        &&& lex_le(after_subtree(p).unwrap(), z)
    } by {
        if starts_with(z, p) {
            lemma_match_subtree(f, c, z);
        }
        lemma_lt_transitive(p, c, z);
        lemma_after_subtree_least(p, z);
    }
    match after_subtree(p) {
        Some(d) => {
            lemma_after_subtree_greater(p, c);
            lemma_lt_rank(c, d);
            lemma_lt_transitive(cur, c, d);
            assert forall|z: Seq<u8>|
                is_instruction(z) && lex_lt(cur, z) && #[trigger] lex_lt(z, d) implies covered(
                v.filters,
                z,
            ) by {
                lemma_trichotomy(z, c);
                if lex_lt(c, z) && !covered(v.filters, z) {
                    lemma_order_is_rank(z, d);
                    lemma_order_is_rank(d, z);
                }
            }
        },
        None => {
            assert forall|z: Seq<u8>|
                is_instruction(z) && #[trigger] lex_lt(cur, z) && within(v.to, z) implies covered(
                v.filters,
                z,
            ) by {
                lemma_trichotomy(z, c);
            }
        },
    }
}

/// A cursor over the instructions from `from` to `to`, with the filters that
/// say which of them need no visit.
#[derive(Debug)]
pub struct InstructionCounter {
    from: Instruction,
    to: Option<Instruction>,
    current: Instruction,
    filters: Vec<Filter>,
}

impl View for InstructionCounter {
    type V = CounterView;

    closed spec fn view(&self) -> CounterView {
        CounterView {
            from: self.from@,
            to: match self.to {
                Some(t) => Some(t@),
                None => None,
            },
            current: self.current@,
            filters: filter_views(self.filters@),
        }
    }
}

impl Clone for InstructionCounter {
    fn clone(&self) -> (copy: Self)
        ensures
            copy@ == self@,
    {
        let mut filters: Vec<Filter> = Vec::new();
        let n: usize = self.filters.len();
        let mut i: usize = 0;
        while i < n
            invariant
                n == self.filters.len(),
                i <= n,
                filters.len() == i,
                forall|j: int| 0 <= j < i ==> filters[j]@ == self.filters[j]@,
            decreases n - i,
        {
            filters.push(self.filters[i].clone());
            i += 1;
        }
        let copy = InstructionCounter {
            from: self.from.clone(),
            to: match &self.to {
                Some(t) => Some(t.clone()),
                None => None,
            },
            current: self.current.clone(),
            filters,
        };
        assert(copy@.filters =~= self@.filters);
        copy
    }
}

impl InstructionCounter {
    /// The counter is well formed.
    pub open spec fn wf(&self) -> bool {
        self@.wf()
    }

    /// A counter over the instructions from `from` to `to`, both included,
    /// or from `from` to the end of instruction space where `to` is `None`.
    /// It stands at `from` and holds no filter. There is none where `to`
    /// comes before `from`.
    pub fn range(from: Instruction, to: Option<Instruction>) -> (made: Option<InstructionCounter>)
        requires
            from.wf(),
            to matches Some(t) ==> t.wf(),
        ensures
            match made {
                Some(counter) => {
                    &&& counter.wf()
                    &&& counter@.from == from@
                    &&& counter@.current == from@
                    &&& counter@.filters == Seq::<Seq<ByteFilter>>::empty()
                    &&& match to {
                        Some(t) => counter@.to == Some(t@),
                        None => counter@.to is None,
                    }
                },
                None => to matches Some(t) && lex_lt(t@, from@),
            },
    {
        let ordered = match &to {
            Some(t) => from.le(t),
            None => true,
        };
        if !ordered {
            proof {
                lemma_trichotomy(from@, to.unwrap()@);
            }
            return None;
        }
        let current = from.clone();
        let counter = InstructionCounter { from, to, current, filters: Vec::new() };
        assert(counter@.filters =~= Seq::<Seq<ByteFilter>>::empty());
        Some(counter)
    }

    /// The position.
    pub fn current(&self) -> (instr: &Instruction)
        ensures
            instr@ == self@.current,
            self.wf() ==> instr.wf(),
    {
        &self.current
    }

    /// The first instruction of the range.
    pub fn from(&self) -> (instr: &Instruction)
        ensures
            instr@ == self@.from,
            self.wf() ==> instr.wf(),
    {
        &self.from
    }

    /// The last instruction of the range, if it has one.
    pub fn to(&self) -> (bound: &Option<Instruction>)
        ensures
            match bound {
                Some(t) => self@.to == Some(t@) && (self.wf() ==> t.wf()),
                None => self@.to is None,
            },
    {
        &self.to
    }

    /// The number of filters.
    pub fn num_filters(&self) -> (n: usize)
        ensures
            n == self@.filters.len(),
    {
        self.filters.len()
    }

    /// Adds `filter` behind the filters that the counter holds.
    pub fn filter(&mut self, filter: Filter)
        requires
            old(self).wf(),
            filter.wf(),
        ensures
            final(self).wf(),
            final(self)@ == (CounterView {
                filters: old(self)@.filters.push(filter@),
                ..old(self)@
            }),
    {
        self.filters.push(filter);
        assert(self@.filters =~= old(self)@.filters.push(filter@));
    }

    /// Removes all filters.
    pub fn clear_filters(&mut self)
        requires
            old(self).wf(),
        ensures
            final(self).wf(),
            final(self)@ == (CounterView {
                filters: Seq::<Seq<ByteFilter>>::empty(),
                ..old(self)@
            }),
    {
        self.filters.clear();
        assert(self@.filters =~= Seq::<Seq<ByteFilter>>::empty());
    }

    /// The index of the first filter that matches `instr`, if one does.
    pub fn matching_filter(&self, instr: &Instruction) -> (found: Option<usize>)
        ensures
            match found {
                Some(i) => {
                    &&& i < self@.filters.len()
                    &&& filter_matches(self@.filters[i as int], instr@)
                    &&& forall|j: int| 0 <= j < i ==> !filter_matches(#[trigger] self@.filters[j], instr@)
                },
                None => !covered(self@.filters, instr@),
            },
    {
        let n: usize = self.filters.len();
        let mut i: usize = 0;
        while i < n
            invariant
                n == self.filters.len(),
                i <= n,
                forall|j: int| 0 <= j < i ==> !filter_matches(#[trigger] self@.filters[j], instr@),
            decreases n - i,
        {
            if self.filters[i].matches(instr) {
                return Some(i);
            }
            i += 1;
        }
        None
    }

    /// Whether one of the filters matches `instr`.
    pub fn is_covered(&self, instr: &Instruction) -> (r: bool)
        ensures
            r == covered(self@.filters, instr@),
    {
        self.matching_filter(instr).is_some()
    }

    /// Drops each filter that an earlier filter that stays covers. The
    /// covered instructions stay as they were (`lemma_compact_covered`).
    pub fn rebuild_inplace(&mut self)
        requires
            old(self).wf(),
        ensures
            final(self).wf(),
            final(self)@ == (CounterView { filters: compact(old(self)@.filters), ..old(self)@ }),
    {
        let ghost all = self@.filters;
        let n: usize = self.filters.len();
        let mut kept: Vec<Filter> = Vec::new();
        let mut i: usize = 0;
        while i < n
            invariant
                n == self.filters.len(),
                i <= n,
                self@.filters == all,
                filter_views(kept@) == compact(all.subrange(0, i as int)),
            decreases n - i,
        {
            let ghost before = filter_views(kept@);
            let f = &self.filters[i];
            let m: usize = kept.len();
            let mut j: usize = 0;
            let mut redundant = false;
            while j < m && !redundant
                invariant
                    m == kept.len(),
                    j <= m,
                    before == filter_views(kept@),
                    redundant ==> covered_by(before, f@),
                    !redundant ==> forall|k: int| 0 <= k < j ==> !filter_covers(#[trigger] before[k], f@),
                decreases m - j + if redundant { 0int } else { 1int },
            {
                if kept[j].covers(f) {
                    assert(filter_covers(before[j as int], f@));
                    redundant = true;
                } else {
                    j += 1;
                }
            }
            proof {
                let upto = all.subrange(0, i + 1);
                assert(upto.drop_last() =~= all.subrange(0, i as int));
                assert(upto.last() == f@);
            }
            if !redundant {
                kept.push(f.clone());
                assert(filter_views(kept@) =~= before.push(f@));
            }
            i += 1;
        }
        proof {
            assert(all.subrange(0, n as int) =~= all);
            lemma_compact(all);
            assert forall|k: int| 0 <= k < compact(all).len() implies is_filter(
                #[trigger] compact(all)[k],
            ) by {
                assert(all.contains(compact(all)[k]));
            }
        }
        self.filters = kept;
    }

    /// The first instruction after `position`, within the range, that no
    /// filter matches, if there is one.
    ///
    /// With `tunnel` the walk leaps over all that starts with the bytes that a
    /// matching filter reads; without it the walk goes from each instruction
    /// to its successor. Both find the same instruction.
    pub fn next_after(&self, position: &Instruction, tunnel: bool) -> (next: Option<Instruction>)
        requires
            self.wf(),
            position.wf(),
        ensures
            match next {
                Some(instr) => instr.wf() && self@.at(position@).next_stop() == Some(instr@),
                None => self@.at(position@).next_stop() is None,
            },
    {
        let ghost v = self@.at(position@);
        proof {
            lemma_scan_start(v);
            lemma_next_stop(v);
        }
        let mut candidate = match position.successor() {
            Some(c) => c,
            None => {
                return None;
            },
        };
        loop
            invariant
                self.wf(),
                v == self@.at(position@),
                v.shaped(),
                candidate.wf(),
                v.scanned(candidate@),
                forall|y: Seq<u8>| v.is_next(y) ==> v.next_stop() == Some(y),
                v.next_stop() is None <==> v.exhausted(),
            decreases rank_limit(MAX_INSTRUCTION_LEN as nat) - rank(candidate@),
        {
            let inside = match &self.to {
                Some(t) => candidate.le(t),
                None => true,
            };
            if !inside {
                proof {
                    lemma_scan_out(v, candidate@);
                }
                return None;
            }
            let leap = match self.matching_filter(&candidate) {
                None => {
                    proof {
                        lemma_scan_found(v, candidate@);
                    }
                    return Some(candidate);
                },
                Some(j) => {
                    proof {
                        lemma_scan_step(v, candidate@);
                        lemma_scan_jump(v, candidate@, j as int);
                    }
                    if tunnel {
                        candidate.after_subtree(self.filters[j].len())
                    } else {
                        candidate.successor()
                    }
                },
            };
            match leap {
                Some(c) => {
                    proof {
                        lemma_rank_bound(c@);
                    }
                    candidate = c;
                },
                None => {
                    return None;
                },
            }
        }
    }

    /// Moves the counter to the first instruction after its position, within
    /// its range, that no filter matches, and returns it. Where the filters
    /// match all that is left of the range, the counter stays and the result
    /// is `None`.
    pub fn advance(&mut self, tunnel: bool) -> (next: Option<Instruction>)
        requires
            old(self).wf(),
        ensures
            final(self).wf(),
            match next {
                Some(instr) => {
                    &&& instr.wf()
                    &&& old(self)@.is_next(instr@)
                    &&& old(self)@.next_stop() == Some(instr@)
                    &&& final(self)@ == old(self)@.at(instr@)
                },
                None => {
                    &&& old(self)@.exhausted()
                    &&& old(self)@.next_stop() is None
                    &&& final(self)@ == old(self)@
                },
            },
    {
        proof {
            lemma_next_stop(self@);
        }
        let next = self.next_after(&self.current, tunnel);
        match &next {
            Some(instr) => {
                proof {
                    lemma_lt_transitive(self@.from, self@.current, instr@);
                }
                self.current = instr.clone();
                assert(self@.filters =~= old(self)@.filters);
            },
            None => {},
        }
        next
    }

    /// Moves the counter forward to `position`, if it lies at or after the
    /// counter's position and within the range. Returns whether it does.
    pub fn seek(&mut self, position: Instruction) -> (moved: bool)
        requires
            old(self).wf(),
            position.wf(),
        ensures
            final(self).wf(),
            moved == (lex_le(old(self)@.current, position@) && within(old(self)@.to, position@)),
            final(self)@ == if moved {
                old(self)@.at(position@)
            } else {
                old(self)@
            },
    {
        let inside = match &self.to {
            Some(t) => position.le(t),
            None => true,
        };
        if inside && self.current.le(&position) {
            proof {
                lemma_lt_transitive(self@.from, self@.current, position@);
            }
            self.current = position;
            assert(self@.filters =~= old(self)@.filters);
            true
        } else {
            false
        }
    }

    /// The counter with the given range, position and filters, if the
    /// position lies within the range.
    pub fn restore(
        from: Instruction,
        to: Option<Instruction>,
        current: Instruction,
        filters: Vec<Filter>,
    ) -> (made: Option<InstructionCounter>)
        requires
            from.wf(),
            to matches Some(t) ==> t.wf(),
            current.wf(),
            forall|i: int| 0 <= i < filters@.len() ==> (#[trigger] filters@[i]).wf(),
        ensures
            match made {
                Some(counter) => {
                    &&& counter.wf()
                    &&& counter@.from == from@
                    &&& counter@.current == current@
                    &&& counter@.filters == filter_views(filters@)
                    &&& match to {
                        Some(t) => counter@.to == Some(t@),
                        None => counter@.to is None,
                    }
                },
                None => !lex_le(from@, current@) || (to matches Some(t) && !lex_le(current@, t@)),
            },
    {
        let inside = match &to {
            Some(t) => current.le(t),
            None => true,
        };
        if inside && from.le(&current) {
            Some(InstructionCounter { from, to, current, filters })
        } else {
            None
        }
    }

    /// The counter put together anew from copies of its parts, as a load
    /// does with what a save wrote. No part of a well-formed counter is
    /// refused, and the copy holds what the counter holds.
    pub fn reassembled(&self) -> (copy: InstructionCounter)
        requires
            self.wf(),
        ensures
            copy.wf(),
            copy@ == self@,
    {
        let filters = self.filters.clone();
        proof {
            assert(filter_views(filters@) =~= self@.filters);
            assert forall|i: int| 0 <= i < filters@.len() implies (#[trigger] filters@[i]).wf() by {
                assert(is_filter(self@.filters[i]));
            }
        }
        let to = match &self.to {
            Some(t) => Some(t.clone()),
            None => None,
        };
        let copy = InstructionCounter::restore(
            self.from.clone(),
            to,
            self.current.clone(),
            filters,
        );
        copy.unwrap()
    }

    /// The filters, in the order in which they came.
    pub fn filters(&self) -> (filters: &Vec<Filter>)
        ensures
            filters@.len() == self@.filters.len(),
            forall|i: int| 0 <= i < filters@.len() ==> (#[trigger] filters@[i])@ == self@.filters[i],
            self.wf() ==> forall|i: int| 0 <= i < filters@.len() ==> (#[trigger] filters@[i]).wf(),
    {
        proof {
            if self.wf() {
                assert forall|i: int| 0 <= i < self.filters@.len() implies (
                #[trigger] self.filters@[i]).wf() by {
                    assert(is_filter(self@.filters[i]));
                }
            }
        }
        &self.filters
    }
}

} // verus!
