//! An index from filters to the artifacts that they came from.

use crate::filter::{filter_matches, is_filter, ByteFilter, Filter};
use crate::instruction::Instruction;
use vstd::prelude::*;

verus! {

/// The number of buckets: one for each value of the high four bits of an
/// instruction's first byte.
pub const BUCKETS: usize = 16;

/// Whether the byte pattern `f` can admit a byte whose high four bits are
/// `high`.
pub open spec fn admits_high(f: ByteFilter, high: u8) -> bool {
    ((high << 4) & f.mask & 0xF0) == (f.value & 0xF0)
}

/// A pattern that admits a byte can admit its high four bits.
pub proof fn lemma_admits_high(f: ByteFilter, b: u8)
    requires
        f.admits(b),
    ensures
        admits_high(f, b >> 4),
        (b >> 4) < 16,
{
    let m = f.mask;
    let v = f.value;
    assert((((b >> 4) << 4) & m & 0xF0) == (v & 0xF0) && (b >> 4) < 16) by (bit_vector)
        requires
            b & m == v,
    ;
}

/// Whether position `p` holds the first entry whose filter matches `x`.
pub open spec fn first_match(entries: Seq<(Seq<ByteFilter>, usize)>, x: Seq<u8>, p: int) -> bool {
    &&& 0 <= p < entries.len()
    &&& filter_matches(entries[p].0, x)
    &&& forall|q: int| 0 <= q < p ==> !filter_matches((#[trigger] entries[q]).0, x)
}

/// The artifact index of the first entry whose filter matches `x`, if there
/// is one.
pub open spec fn lookup(entries: Seq<(Seq<ByteFilter>, usize)>, x: Seq<u8>) -> Option<usize> {
    if exists|p: int| first_match(entries, x, p) {
        Some(entries[choose|p: int| first_match(entries, x, p)].1)
    } else {
        None
    }
}

/// An entry whose filter matches `x`, with none before it, is the one that
/// `lookup` gives.
pub proof fn lemma_lookup_first(entries: Seq<(Seq<ByteFilter>, usize)>, x: Seq<u8>, p: int)
    requires
        first_match(entries, x, p),
    ensures
        lookup(entries, x) == Some(entries[p].1),
{
    let c = choose|c: int| first_match(entries, x, c);
    if c < p {
        assert(!filter_matches(entries[c].0, x));
    }
    if p < c {
        assert(!filter_matches(entries[p].0, x));
    }
}

/// `lookup` finds an entry exactly where some filter matches.
pub proof fn lemma_lookup_some(entries: Seq<(Seq<ByteFilter>, usize)>, x: Seq<u8>)
    ensures
        lookup(entries, x) is Some <==> exists|q: int|
            0 <= q < entries.len() && filter_matches((#[trigger] entries[q]).0, x),
{
    if exists|q: int| 0 <= q < entries.len() && filter_matches((#[trigger] entries[q]).0, x) {
        let q = choose|q: int| 0 <= q < entries.len() && filter_matches((#[trigger] entries[q]).0, x);
        let p = earliest_match(entries, x, q);
        assert(first_match(entries, x, p));
    }
    if lookup(entries, x) is Some {
        let p = choose|p: int| first_match(entries, x, p);
        assert(filter_matches(entries[p].0, x));
    }
}

// The first position at or before `q` whose filter matches `x`.
proof fn earliest_match(entries: Seq<(Seq<ByteFilter>, usize)>, x: Seq<u8>, q: int) -> (p: int)
    requires
        0 <= q < entries.len(),
        filter_matches(entries[q].0, x),
    ensures
        first_match(entries, x, p),
    decreases q,
{
    if exists|r: int| 0 <= r < q && filter_matches((#[trigger] entries[r]).0, x) {
        let r = choose|r: int| 0 <= r < q && filter_matches((#[trigger] entries[r]).0, x);
        earliest_match(entries, x, r)
    } else {
        q
    }
}

// `bucket` lists in rising order positions of `entries`, among them each
// position below `upto` whose filter can match the high bits `h`.
spec fn bucket_lists(
    bucket: Seq<usize>,
    entries: Seq<(Seq<ByteFilter>, usize)>,
    h: int,
    upto: int,
) -> bool {
    &&& forall|i: int| 0 <= i < bucket.len() ==> (#[trigger] bucket[i]) < entries.len()
    &&& forall|i: int, j: int| 0 <= i < j < bucket.len() ==> bucket[i] < bucket[j]
    &&& forall|p: int|
        0 <= p < upto && admits_high((#[trigger] entries[p]).0[0], h as u8) ==> bucket.contains(
            p as usize,
        )
}

/// Filters with the index of the artifact that each came from, in the order
/// in which they were added. Each bucket lists, in that order, the positions
/// of the filters that can match an instruction whose first byte has the
/// bucket's high four bits.
#[derive(Debug)]
pub struct FilterMap {
    entries: Vec<(Filter, usize)>,
    buckets: Vec<Vec<usize>>,
}

impl View for FilterMap {
    type V = Seq<(Seq<ByteFilter>, usize)>;

    closed spec fn view(&self) -> Seq<(Seq<ByteFilter>, usize)> {
        Seq::new(self.entries@.len(), |i: int| (self.entries@[i].0@, self.entries@[i].1))
    }
}

impl FilterMap {
    // The bucket for the high bits `h` lists in rising order positions of
    // the entries, among them each position below `upto` whose filter can
    // match those high bits.
    spec fn bucket_ok(&self, h: int, upto: int) -> bool {
        bucket_lists(self.buckets@[h]@, self@, h, upto)
    }

    /// The filters have the shape of filters, and the buckets list them.
    pub closed spec fn wf(&self) -> bool {
        &&& self.buckets@.len() == BUCKETS
        &&& forall|p: int| 0 <= p < self@.len() ==> is_filter((#[trigger] self@[p]).0)
        &&& forall|h: int| 0 <= h < BUCKETS ==> self.bucket_ok(h, self.entries@.len() as int)
    }

    /// The map without entries.
    pub fn new() -> (made: FilterMap)
        ensures
            made.wf(),
            made@ == Seq::<(Seq<ByteFilter>, usize)>::empty(),
    {
        let mut buckets: Vec<Vec<usize>> = Vec::new();
        let mut h: usize = 0;
        while h < BUCKETS
            invariant
                h <= BUCKETS,
                buckets.len() == h,
                forall|k: int| 0 <= k < h ==> (#[trigger] buckets[k])@.len() == 0,
            decreases BUCKETS - h,
        {
            buckets.push(Vec::new());
            h += 1;
        }
        let made = FilterMap { entries: Vec::new(), buckets };
        assert(made@ =~= Seq::<(Seq<ByteFilter>, usize)>::empty());
        made
    }

    /// The number of entries.
    pub fn len(&self) -> (n: usize)
        ensures
            n == self@.len(),
    {
        self.entries.len()
    }

    /// Adds `filter` for the artifact `index`, behind the entries that the
    /// map holds.
    pub fn add(&mut self, filter: Filter, index: usize)
        requires
            old(self).wf(),
            filter.wf(),
        ensures
            final(self).wf(),
            final(self)@ == old(self)@.push((filter@, index)),
    {
        let position: usize = self.entries.len();
        let first: ByteFilter = filter.bytes()[0];
        let ghost pattern = filter@;
        let ghost after: int = position + 1;
        let ghost upto: int = position as int;
        self.entries.push((filter, index));
        proof {
            assert(self@ =~= old(self)@.push((pattern, index)));
            assert forall|k: int| 0 <= k < BUCKETS implies #[trigger] self.bucket_ok(k, upto) by {
                assert(old(self).bucket_ok(k, upto));
                let bucket = self.buckets@[k]@;
                assert forall|p: int|
                    0 <= p < upto && admits_high((#[trigger] self@[p]).0[0], k as u8) implies bucket.contains(
                    p as usize,
                ) by {
                    assert(self@[p] == old(self)@[p]);
                }
            }
            assert forall|k: int, i: int|
                0 <= k < BUCKETS && 0 <= i < self.buckets@[k]@.len() implies (
            #[trigger] self.buckets@[k]@[i]) < position by {
                assert(old(self).bucket_ok(k, upto));
            }
            assert forall|p: int| 0 <= p < self@.len() implies is_filter((#[trigger] self@[p]).0) by {
                if p < position {
                    assert(self@[p] == old(self)@[p]);
                }
            }
        }
        let mut h: usize = 0;
        while h < BUCKETS
            invariant
                h <= BUCKETS,
                after == position + 1,
                upto == position,
                is_filter(pattern),
                old(self)@.len() == position,
                self.buckets@.len() == BUCKETS,
                self.entries@.len() == position + 1,
                self@ == old(self)@.push((pattern, index)),
                first == pattern[0],
                forall|k: int| 0 <= k < h ==> #[trigger] self.bucket_ok(k, after),
                forall|k: int| h <= k < BUCKETS ==> #[trigger] self.bucket_ok(k, upto),
                forall|k: int, i: int|
                    h <= k < BUCKETS && 0 <= i < self.buckets@[k]@.len() ==> (
                    #[trigger] self.buckets@[k]@[i]) < position,
            decreases BUCKETS - h,
        {
            let high: u8 = h as u8;
            let ghost before = self.buckets@[h as int]@;
            let ghost buckets_before = self.buckets@;
            let ghost entries = self@;
            assert(self.bucket_ok(h as int, upto));
            assert forall|k: int| 0 <= k < h implies bucket_lists(
                (#[trigger] buckets_before[k])@,
                entries,
                k,
                after,
            ) by {
                assert(self.bucket_ok(k, after));
            }
            assert forall|k: int| h <= k < BUCKETS implies bucket_lists(
                (#[trigger] buckets_before[k])@,
                entries,
                k,
                upto,
            ) by {
                assert(self.bucket_ok(k, upto));
            }
            if ((high << 4) & first.mask & 0xF0) == (first.value & 0xF0) {
                self.buckets[h].push(position);
                proof {
                    let bucket = self.buckets@[h as int]@;
                    assert(bucket == before.push(position));
                    assert forall|k: int| 0 <= k < BUCKETS && k != h implies self.buckets@[k]
                        == buckets_before[k] by {}
                    assert forall|p: int|
                        0 <= p < after && admits_high((#[trigger] self@[p]).0[0], h as u8) implies bucket.contains(
                        p as usize,
                    ) by {
                        if p < position {
                            assert(before.contains(p as usize));
                            let w = choose|w: int| 0 <= w < before.len() && before[w] == p as usize;
                            assert(bucket[w] == p as usize);
                        } else {
                            assert(bucket[bucket.len() - 1] == p as usize);
                        }
                    }
                    assert(self.bucket_ok(h as int, after));
                    assert forall|k: int| 0 <= k < h implies #[trigger] self.bucket_ok(k, after) by {
                        assert(self.buckets@[k] == buckets_before[k]);
                        assert(bucket_lists(buckets_before[k]@, entries, k, after));
                    }
                    assert forall|k: int| h < k < BUCKETS implies #[trigger] self.bucket_ok(k, upto) by {
                        assert(self.buckets@[k] == buckets_before[k]);
                        assert(bucket_lists(buckets_before[k]@, entries, k, upto));
                    }
                }
            } else {
                proof {
                    assert(self@[upto].0 == pattern);
                    assert(!admits_high(self@[upto].0[0], h as u8));
                    assert(self.bucket_ok(h as int, after));
                }
            }
            h += 1;
        }
    }

    /// The artifact index of the first filter added that matches `instr`, if
    /// one does.
    pub fn filters(&self, instr: &Instruction) -> (found: Option<usize>)
        requires
            self.wf(),
            instr.wf(),
        ensures
            found == lookup(self@, instr@),
    {
        let x = instr.bytes();
        let lead: u8 = x[0];
        let high: u8 = lead >> 4;
        assert(high < 16) by (bit_vector)
            requires
                high == lead >> 4,
        ;
        let h: usize = high as usize;
        assert(self.bucket_ok(h as int, self.entries@.len() as int));
        let bucket = &self.buckets[h];
        let n: usize = bucket.len();
        let mut i: usize = 0;
        while i < n
            invariant
                self.wf(),
                x@ == instr@,
                instr.wf(),
                h < BUCKETS,
                lead == instr@[0],
                high == lead >> 4,
                h == high,
                bucket@ == self.buckets@[h as int]@,
                n == bucket.len(),
                i <= n,
                self.bucket_ok(h as int, self.entries@.len() as int),
                forall|k: int| 0 <= k < i ==> !filter_matches(self@[(#[trigger] bucket[k]) as int].0, instr@),
            decreases n - i,
        {
            let p: usize = bucket[i];
            if self.entries[p].0.matches(instr) {
                proof {
                    assert forall|q: int| 0 <= q < p implies !filter_matches(
                        (#[trigger] self@[q]).0,
                        instr@,
                    ) by {
                        if filter_matches(self@[q].0, instr@) {
                            assert(is_filter(self@[q].0));
                            assert(self@[q].0[0].admits(instr@[0]));
                            lemma_admits_high(self@[q].0[0], instr@[0]);
                            assert(bucket@.contains(q as usize));
                            let w = choose|w: int| 0 <= w < bucket@.len() && bucket@[w] == q as usize;
                            if w >= i {
                                assert(w == i || bucket@[i as int] < bucket@[w]);
                            }
                        }
                    }
                    assert(first_match(self@, instr@, p as int));
                    lemma_lookup_first(self@, instr@, p as int);
                }
                return Some(self.entries[p].1);
            }
            i += 1;
        }
        let total: usize = self.entries.len();
        proof {
            if exists|p: int| first_match(self@, instr@, p) {
                let q = choose|p: int| first_match(self@, instr@, p);
                assert(0 <= q < total);
                assert(is_filter(self@[q].0));
                assert(self@[q].0[0].admits(instr@[0]));
                lemma_admits_high(self@[q].0[0], instr@[0]);
                assert(bucket@.contains(q as usize));
                let w = choose|w: int| 0 <= w < bucket@.len() && bucket@[w] == q as usize;
                assert(!filter_matches(self@[bucket@[w] as int].0, instr@));
            }
        }
        None
    }
}

} // verus!
