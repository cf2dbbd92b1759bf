//! The figures of a dump of the artifacts.

use crate::encoding::{encoding_views, memory_accesses, most_inputs, Encoding, EncodingView};
use itertools::Itertools;
use vstd::prelude::*;

verus! {

/// The instructions that stand for the artifacts, artifact by artifact.
pub open spec fn representatives(artifacts: Seq<EncodingView>) -> Seq<Seq<u8>> {
    Seq::new(artifacts.len(), |i: int| artifacts[i].instr)
}

/// For each artifact, the number of its outputs that are memory accesses.
pub open spec fn memory_access_keys(artifacts: Seq<EncodingView>) -> Seq<usize> {
    Seq::new(
        artifacts.len(),
        |i: int| memory_accesses(artifacts[i].outputs, artifacts[i].outputs.len() as int) as usize,
    )
}

/// For each artifact, the largest number of inputs of one of its outputs.
pub open spec fn input_keys(artifacts: Seq<EncodingView>) -> Seq<usize> {
    Seq::new(
        artifacts.len(),
        |i: int| most_inputs(artifacts[i].outputs, artifacts[i].outputs.len() as int),
    )
}

/// How often `key` occurs in `keys`.
pub open spec fn occurrences(keys: Seq<usize>, key: usize) -> nat {
    keys.to_multiset().count(key)
}

/// Whether `histogram` lists each key of `keys` once, with the number of its
/// occurrences, in rising order of the keys.
pub open spec fn is_histogram(keys: Seq<usize>, histogram: Seq<(usize, usize)>) -> bool {
    &&& forall|i: int, j: int|
        0 <= i < j < histogram.len() ==> (#[trigger] histogram[i]).0 < (#[trigger] histogram[j]).0
    &&& forall|i: int|
        0 <= i < histogram.len() ==> (#[trigger] histogram[i]).1 > 0 && histogram[i].1
            == occurrences(keys, histogram[i].0)
    &&& forall|key: usize| #[trigger]
        occurrences(keys, key) > 0 ==> exists|i: int|
            0 <= i < histogram.len() && (#[trigger] histogram[i]).0 == key
}

// Whether `tally` lists each key of `keys` once, with the number of its
// occurrences.
spec fn is_tally(keys: Seq<usize>, tally: Seq<(usize, usize)>) -> bool {
    &&& forall|p: int, q: int|
        0 <= p < q < tally.len() ==> (#[trigger] tally[p]).0 != (#[trigger] tally[q]).0
    &&& forall|p: int|
        0 <= p < tally.len() ==> (#[trigger] tally[p]).1 > 0 && tally[p].1 == occurrences(
            keys,
            tally[p].0,
        )
    &&& forall|key: usize| #[trigger]
        occurrences(keys, key) > 0 ==> exists|p: int|
            0 <= p < tally.len() && (#[trigger] tally[p]).0 == key
}

/// `itertools::Itertools::sorted_by_key` on the entries, with the first
/// number of each entry as its key. It hands the entries to the stable sort
/// of the standard library: what comes back holds the same entries, each as
/// often as before, with their keys in rising order.
#[verifier::external_body]
fn sorted_by_first(entries: Vec<(usize, usize)>) -> (sorted: Vec<(usize, usize)>)
    ensures
        sorted@.to_multiset() == entries@.to_multiset(),
        forall|i: int, j: int| 0 <= i < j < sorted@.len() ==> sorted@[i].0 <= sorted@[j].0,
{
    entries.into_iter().sorted_by_key(|entry| entry.0).collect()
}

// A key put behind `keys` occurs once more, every other key as often as
// before.
proof fn lemma_occurrences_push(keys: Seq<usize>, key: usize, other: usize)
    ensures
        occurrences(keys.push(key), other) == occurrences(keys, other) + if other == key {
            1nat
        } else {
            0nat
        },
{
    broadcast use vstd::seq_lib::group_to_multiset_ensures;
    broadcast use vstd::multiset::group_multiset_axioms;

    assert(keys.push(key).to_multiset() =~= keys.to_multiset().insert(key));
}

// Sequences that hold the same entries, each as often, hold the same
// entries.
proof fn lemma_same_members(a: Seq<(usize, usize)>, b: Seq<(usize, usize)>, x: (usize, usize))
    requires
        a.to_multiset() == b.to_multiset(),
        a.contains(x),
    ensures
        b.contains(x),
{
    broadcast use vstd::seq_lib::group_to_multiset_ensures;

    assert(a.to_multiset().count(x) > 0);
    assert(b.to_multiset().count(x) > 0);
}

// Entries that are a tally, put in rising order of their keys, are a
// histogram.
proof fn lemma_sorted_tally(
    keys: Seq<usize>,
    tally: Seq<(usize, usize)>,
    sorted: Seq<(usize, usize)>,
)
    requires
        is_tally(keys, tally),
        sorted.to_multiset() == tally.to_multiset(),
        forall|i: int, j: int| 0 <= i < j < sorted.len() ==> sorted[i].0 <= sorted[j].0,
    ensures
        is_histogram(keys, sorted),
{
    broadcast use vstd::seq_lib::group_to_multiset_ensures;

    assert(tally.no_duplicates());
    tally.lemma_multiset_has_no_duplicates();
    sorted.lemma_multiset_has_no_duplicates_conv();
    assert forall|i: int| 0 <= i < sorted.len() implies (#[trigger] sorted[i]).1 > 0 && sorted[i].1
        == occurrences(keys, sorted[i].0) by {
        assert(sorted.contains(sorted[i]));
        lemma_same_members(sorted, tally, sorted[i]);
        let p = choose|p: int| 0 <= p < tally.len() && tally[p] == sorted[i];
        assert(tally[p].1 > 0);
    }
    assert forall|i: int, j: int| 0 <= i < j < sorted.len() implies (#[trigger] sorted[i]).0 < (
    #[trigger] sorted[j]).0 by {
        assert(sorted.contains(sorted[i]));
        assert(sorted.contains(sorted[j]));
        lemma_same_members(sorted, tally, sorted[i]);
        lemma_same_members(sorted, tally, sorted[j]);
        let p = choose|p: int| 0 <= p < tally.len() && tally[p] == sorted[i];
        let q = choose|q: int| 0 <= q < tally.len() && tally[q] == sorted[j];
        assert(sorted[i] != sorted[j]);
        if p < q {
            assert(tally[p].0 != tally[q].0);
        }
        if q < p {
            assert(tally[q].0 != tally[p].0);
        }
    }
    assert forall|key: usize| #[trigger] occurrences(keys, key) > 0 implies exists|i: int|
        0 <= i < sorted.len() && (#[trigger] sorted[i]).0 == key by {
        let p = choose|p: int| 0 <= p < tally.len() && (#[trigger] tally[p]).0 == key;
        assert(tally.contains(tally[p]));
        lemma_same_members(tally, sorted, tally[p]);
        let i = choose|i: int| 0 <= i < sorted.len() && sorted[i] == tally[p];
        assert(sorted[i].0 == key);
    }
}

/// The histogram of `keys`: each key once, with the number of its
/// occurrences, in rising order of the keys.
pub fn histogram(keys: &Vec<usize>) -> (histogram: Vec<(usize, usize)>)
    ensures
        is_histogram(keys@, histogram@),
{
    broadcast use vstd::seq_lib::group_to_multiset_ensures;
    broadcast use vstd::multiset::group_multiset_axioms;

    let mut tally: Vec<(usize, usize)> = Vec::new();
    let n: usize = keys.len();
    let mut i: usize = 0;
    assert(keys@.subrange(0, 0) =~= Seq::<usize>::empty());
    while i < n
        invariant
            n == keys@.len(),
            i <= n,
            is_tally(keys@.subrange(0, i as int), tally@),
            forall|p: int| 0 <= p < tally@.len() ==> (#[trigger] tally@[p]).1 <= i,
        decreases n - i,
    {
        let key: usize = keys[i];
        let ghost before = keys@.subrange(0, i as int);
        let ghost after = keys@.subrange(0, i + 1);
        let ghost was = tally@;
        proof {
            assert(after =~= before.push(key));
            assert forall|other: usize|
                #[trigger] occurrences(after, other) == occurrences(before, other) + if other
                    == key {
                    1nat
                } else {
                    0nat
                } by {
                lemma_occurrences_push(before, key, other);
            }
        }
        let m: usize = tally.len();
        let mut p: usize = 0;
        while p < m && tally[p].0 != key
            invariant
                m == tally@.len(),
                p <= m,
                forall|q: int| 0 <= q < p ==> (#[trigger] tally@[q]).0 != key,
            decreases m - p,
        {
            p += 1;
        }
        if p < m {
            let count: usize = tally[p].1;
            tally.set(p, (key, count + 1));
            proof {
                assert forall|key2: usize| #[trigger] occurrences(after, key2) > 0 implies exists|
                    q: int,
                | 0 <= q < tally@.len() && (#[trigger] tally@[q]).0 == key2 by {
                    if key2 != key {
                        assert(occurrences(before, key2) > 0);
                        let q = choose|q: int| 0 <= q < was.len() && (#[trigger] was[q]).0 == key2;
                        assert(tally@[q].0 == key2);
                    } else {
                        assert(tally@[p as int].0 == key);
                    }
                }
                assert forall|q: int| 0 <= q < tally@.len() implies (#[trigger] tally@[q]).1 > 0
                    && tally@[q].1 == occurrences(after, tally@[q].0) by {
                    if q != p {
                        assert(tally@[q] == was[q]);
                        assert(was[q].0 != was[p as int].0);
                    }
                }
                assert forall|a: int, b: int| 0 <= a < b < tally@.len() implies (
                #[trigger] tally@[a]).0 != (#[trigger] tally@[b]).0 by {
                    assert(was[a].0 != was[b].0);
                }
            }
        } else {
            tally.push((key, 1));
            proof {
                // The key is new: the tally would list it if it had occurred.
                if occurrences(before, key) > 0 {
                    let q = choose|q: int| 0 <= q < was.len() && (#[trigger] was[q]).0 == key;
                    assert(was[q].0 != key);
                }
                assert forall|key2: usize| #[trigger] occurrences(after, key2) > 0 implies exists|
                    q: int,
                | 0 <= q < tally@.len() && (#[trigger] tally@[q]).0 == key2 by {
                    if key2 != key {
                        assert(occurrences(before, key2) > 0);
                        let q = choose|q: int| 0 <= q < was.len() && (#[trigger] was[q]).0 == key2;
                        assert(tally@[q].0 == key2);
                    } else {
                        assert(tally@[m as int].0 == key);
                    }
                }
                assert forall|q: int| 0 <= q < tally@.len() implies (#[trigger] tally@[q]).1 > 0
                    && tally@[q].1 == occurrences(after, tally@[q].0) by {
                    if q < m {
                        assert(tally@[q] == was[q]);
                    }
                }
                assert forall|a: int, b: int| 0 <= a < b < tally@.len() implies (
                #[trigger] tally@[a]).0 != (#[trigger] tally@[b]).0 by {
                    if b < m {
                        assert(was[a].0 != was[b].0);
                    } else {
                        assert(tally@[a] == was[a]);
                    }
                }
            }
        }
        i += 1;
    }
    assert(keys@.subrange(0, n as int) =~= keys@);
    let ghost unsorted = tally@;
    let sorted = sorted_by_first(tally);
    proof {
        lemma_sorted_tally(keys@, unsorted, sorted@);
    }
    sorted
}

/// How many artifacts have how many memory accesses among their outputs.
pub fn memory_access_histogram(artifacts: &Vec<Encoding>) -> (histogram: Vec<(usize, usize)>)
    ensures
        is_histogram(memory_access_keys(encoding_views(artifacts@)), histogram@),
{
    let mut keys: Vec<usize> = Vec::new();
    let n: usize = artifacts.len();
    let mut i: usize = 0;
    while i < n
        invariant
            n == artifacts@.len(),
            i <= n,
            keys@.len() == i,
            forall|j: int| 0 <= j < i ==> keys@[j] == memory_access_keys(encoding_views(artifacts@))[j],
        decreases n - i,
    {
        keys.push(artifacts[i].num_memory_accesses());
        i += 1;
    }
    assert(keys@ =~= memory_access_keys(encoding_views(artifacts@)));
    self::histogram(&keys)
}

/// How many artifacts have which largest number of inputs to an output.
pub fn input_histogram(artifacts: &Vec<Encoding>) -> (histogram: Vec<(usize, usize)>)
    ensures
        is_histogram(input_keys(encoding_views(artifacts@)), histogram@),
{
    let mut keys: Vec<usize> = Vec::new();
    let n: usize = artifacts.len();
    let mut i: usize = 0;
    while i < n
        invariant
            n == artifacts@.len(),
            i <= n,
            keys@.len() == i,
            forall|j: int| 0 <= j < i ==> keys@[j] == input_keys(encoding_views(artifacts@))[j],
        decreases n - i,
    {
        keys.push(artifacts[i].max_inputs());
        i += 1;
    }
    assert(keys@ =~= input_keys(encoding_views(artifacts@)));
    self::histogram(&keys)
}

/// The number of different instructions that stand for artifacts.
pub fn unique_encodings(artifacts: &Vec<Encoding>) -> (unique: usize)
    ensures
        unique == representatives(encoding_views(artifacts@)).to_set().len(),
        unique <= artifacts@.len(),
{
    broadcast use vstd::seq_lib::seq_to_set_is_finite;
    broadcast use vstd::set::axiom_set_insert_len;

    let ghost reps = representatives(encoding_views(artifacts@));
    let n: usize = artifacts.len();
    let mut unique: usize = 0;
    let mut i: usize = 0;
    proof {
        assert(reps.subrange(0, 0) =~= Seq::<Seq<u8>>::empty());
        reps.subrange(0, 0).lemma_cardinality_of_empty_set_is_0();
    }
    while i < n
        invariant
            n == artifacts@.len(),
            i <= n,
            unique <= i,
            reps == representatives(encoding_views(artifacts@)),
            unique == reps.subrange(0, i as int).to_set().len(),
        decreases n - i,
    {
        let ghost before = reps.subrange(0, i as int);
        let mut j: usize = 0;
        let mut fresh = true;
        while j < i && fresh
            invariant
                n == artifacts@.len(),
                i < n,
                j <= i,
                reps == representatives(encoding_views(artifacts@)),
                before == reps.subrange(0, i as int),
                fresh ==> forall|k: int| 0 <= k < j ==> before[k] != reps[i as int],
                !fresh ==> before.contains(reps[i as int]),
            decreases i - j + if fresh { 1int } else { 0int },
        {
            if artifacts[j].instr().same(artifacts[i].instr()) {
                assert(before[j as int] == reps[i as int]);
                fresh = false;
            } else {
                j += 1;
            }
        }
        proof {
            let after = reps.subrange(0, i + 1);
            assert(after =~= before.push(reps[i as int]));
            before.lemma_push_to_set_commute(reps[i as int]);
            assert(before.to_set().contains(reps[i as int]) == before.contains(reps[i as int]));
        }
        if fresh {
            unique += 1;
        }
        i += 1;
    }
    assert(reps.subrange(0, n as int) =~= reps);
    unique
}

/// The number of artifacts whose instruction stands for an earlier artifact
/// too.
pub fn duplicate_encodings(artifacts: &Vec<Encoding>) -> (duplicates: usize)
    ensures
        duplicates == artifacts@.len() - representatives(encoding_views(artifacts@)).to_set().len(),
{
    artifacts.len() - unique_encodings(artifacts)
}

} // verus!
