//! The split of instruction space into one range for each worker.

use crate::counter::within;
use crate::error::Error;
use crate::instruction::{
    instruction_views, is_instruction, lemma_lt_transitive, lemma_order_is_rank,
    lemma_predecessor, lemma_predecessor_greatest, lemma_successor_greater, lemma_trichotomy,
    lex_le, lex_lt, predecessor, successor, Instruction,
};
use vstd::arithmetic::div_mod::{
    lemma_div_is_ordered, lemma_div_multiples_vanish, lemma_div_plus_one, lemma_div_pos_is_pos,
};
use vstd::arithmetic::mul::lemma_mul_inequality;
use vstd::prelude::*;

verus! {

/// The index of the seed at which the range of worker `k` starts, where
/// `seeds` seeds are split among `workers` workers: the ranges hold the same
/// number of seeds, or numbers that differ by one.
pub open spec fn chunk_start(k: int, seeds: int, workers: int) -> int {
    (k * seeds) / workers
}

/// Whether each seed comes before the seeds behind it.
pub open spec fn strictly_rising(seeds: Seq<Seq<u8>>) -> bool {
    forall|i: int, j: int| 0 <= i < j < seeds.len() ==> lex_lt(#[trigger] seeds[i], #[trigger] seeds[j])
}

/// Why `seeds` cannot be split among `workers` workers, if they cannot.
pub open spec fn refusal(seeds: Seq<Seq<u8>>, workers: int) -> Option<Error> {
    if workers == 0 {
        Some(Error::NoWorkers)
    } else if seeds.len() < workers {
        Some(Error::NotEnoughSeeds)
    } else if !strictly_rising(seeds) {
        Some(Error::UnorderedSeeds)
    } else {
        None
    }
}

/// The first instruction of the range of worker `k`: the seed at which its
/// chunk starts.
pub open spec fn range_from(seeds: Seq<Seq<u8>>, workers: int, k: int) -> Seq<u8> {
    seeds[chunk_start(k, seeds.len() as int, workers)]
}

/// The last instruction of the range of worker `k`: the one just before the
/// range of the next worker. The range of the last worker has no end.
pub open spec fn range_to(seeds: Seq<Seq<u8>>, workers: int, k: int) -> Option<Seq<u8>> {
    if k + 1 < workers {
        predecessor(range_from(seeds, workers, k + 1))
    } else {
        None
    }
}

/// Whether `z` lies in the range of worker `k`.
pub open spec fn owns(seeds: Seq<Seq<u8>>, workers: int, k: int, z: Seq<u8>) -> bool {
    lex_le(range_from(seeds, workers, k), z) && within(range_to(seeds, workers, k), z)
}

/// Whether `seeds` can be split among `workers` workers and holds
/// instructions.
pub open spec fn splittable(seeds: Seq<Seq<u8>>, workers: int) -> bool {
    &&& refusal(seeds, workers) is None
    &&& workers > 0
    &&& forall|i: int| 0 <= i < seeds.len() ==> is_instruction(#[trigger] seeds[i])
}

/// The chunks start at seed zero, each holds at least one seed, and they
/// end with the seeds.
pub proof fn lemma_chunk_start(k: int, seeds: int, workers: int)
    requires
        1 <= workers <= seeds,
        0 <= k < workers,
    ensures
        chunk_start(0, seeds, workers) == 0,
        chunk_start(workers, seeds, workers) == seeds,
        0 <= chunk_start(k, seeds, workers) < chunk_start(k + 1, seeds, workers) <= seeds,
{
    let a = k * seeds;
    assert(a >= 0) by (nonlinear_arith)
        requires
            a == k * seeds,
            k >= 0,
            seeds >= 0,
    ;
    assert((k + 1) * seeds == a + seeds) by (nonlinear_arith)
        requires
            a == k * seeds,
    ;
    lemma_div_pos_is_pos(a, workers);
    lemma_div_plus_one(a, workers);
    lemma_div_is_ordered(workers + a, a + seeds, workers);
    lemma_mul_inequality(k + 1, workers, seeds);
    lemma_div_is_ordered((k + 1) * seeds, workers * seeds, workers);
    lemma_div_multiples_vanish(seeds, workers);
    assert(0 * seeds == 0);
}

/// Later chunks start at later seeds.
pub proof fn lemma_chunk_rising(j: int, k: int, seeds: int, workers: int)
    requires
        1 <= workers <= seeds,
        0 <= j <= k <= workers,
    ensures
        0 <= chunk_start(j, seeds, workers) <= chunk_start(k, seeds, workers) <= seeds,
    decreases k - j,
{
    if j == k {
        if k == workers {
            lemma_chunk_start(0, seeds, workers);
        } else {
            lemma_chunk_start(k, seeds, workers);
        }
    } else {
        lemma_chunk_start(j, seeds, workers);
        lemma_chunk_rising(j + 1, k, seeds, workers);
    }
}

// Seeds in rising positions are in rising order.
proof fn lemma_seed_order(seeds: Seq<Seq<u8>>, workers: int, i: int, j: int)
    requires
        splittable(seeds, workers),
        0 <= i < seeds.len(),
        0 <= j < seeds.len(),
    ensures
        i < j <==> lex_lt(seeds[i], seeds[j]),
        i <= j <==> lex_le(seeds[i], seeds[j]),
{
    lemma_order_is_rank(seeds[i], seeds[j]);
    lemma_order_is_rank(seeds[j], seeds[i]);
    if i < j {
        assert(lex_lt(seeds[i], seeds[j]));
    }
    if j < i {
        assert(lex_lt(seeds[j], seeds[i]));
    }
}

/// Each range runs from an instruction to an instruction at or after it,
/// and the next range starts with the instruction that follows: the ranges
/// leave no gap and do not overlap.
pub proof fn lemma_ranges_adjoin(seeds: Seq<Seq<u8>>, workers: int, k: int)
    requires
        splittable(seeds, workers),
        0 <= k < workers,
    ensures
        is_instruction(range_from(seeds, workers, k)),
        k + 1 == workers ==> range_to(seeds, workers, k) is None,
        k + 1 < workers ==> {
            &&& range_to(seeds, workers, k) matches Some(t)
            &&& is_instruction(t)
            &&& lex_le(range_from(seeds, workers, k), t)
            &&& lex_lt(t, range_from(seeds, workers, k + 1))
            &&& successor(t) == Some(range_from(seeds, workers, k + 1))
        },
{
    let n = seeds.len() as int;
    lemma_chunk_start(k, n, workers);
    if k + 1 < workers {
        lemma_chunk_start(k + 1, n, workers);
        let from = range_from(seeds, workers, k);
        let next = range_from(seeds, workers, k + 1);
        lemma_seed_order(seeds, workers, chunk_start(k, n, workers), chunk_start(k + 1, n, workers));
        lemma_predecessor_greatest(next, from);
        lemma_predecessor(next);
        lemma_successor_greater(predecessor(next).unwrap());
    }
}

// The worker at or below `k` whose range holds `z`, given that `z` comes
// before the range of worker `k + 1`.
proof fn find_owner(seeds: Seq<Seq<u8>>, workers: int, z: Seq<u8>, k: int) -> (o: int)
    requires
        splittable(seeds, workers),
        is_instruction(z),
        lex_le(seeds[0], z),
        0 <= k < workers,
        k + 1 < workers ==> lex_lt(z, range_from(seeds, workers, k + 1)),
    ensures
        0 <= o <= k,
        owns(seeds, workers, o, z),
    decreases k,
{
    let n = seeds.len() as int;
    let from = range_from(seeds, workers, k);
    lemma_ranges_adjoin(seeds, workers, k);
    lemma_chunk_start(0, n, workers);
    lemma_trichotomy(from, z);
    if lex_le(from, z) {
        if k + 1 < workers {
            lemma_ranges_adjoin(seeds, workers, k + 1);
            lemma_predecessor_greatest(range_from(seeds, workers, k + 1), z);
        }
        k
    } else {
        if k == 0 {
            lemma_order_is_rank(from, z);
            lemma_order_is_rank(z, from);
        }
        find_owner(seeds, workers, z, k - 1)
    }
}

/// The ranges of the workers cover instruction space from the first seed on
/// without gaps or overlaps: every instruction at or after the first seed
/// lies in the range of exactly one worker.
pub proof fn lemma_partition(seeds: Seq<Seq<u8>>, workers: int, z: Seq<u8>) -> (k: int)
    requires
        splittable(seeds, workers),
        is_instruction(z),
        lex_le(seeds[0], z),
    ensures
        0 <= k < workers,
        owns(seeds, workers, k, z),
        forall|j: int| 0 <= j < workers && #[trigger] owns(seeds, workers, j, z) ==> j == k,
{
    let n = seeds.len() as int;
    let k = find_owner(seeds, workers, z, workers - 1);
    assert forall|j: int| 0 <= j < workers && #[trigger] owns(seeds, workers, j, z) implies j
        == k by {
        if j != k {
            let (a, b) = if j < k {
                (j, k)
            } else {
                (k, j)
            };
            // The end of range a comes before the start of range b, and z
            // cannot lie on both sides.
            lemma_ranges_adjoin(seeds, workers, a);
            lemma_ranges_adjoin(seeds, workers, b);
            lemma_ranges_adjoin(seeds, workers, a + 1);
            lemma_chunk_rising(a + 1, b, n, workers);
            lemma_chunk_start(b, n, workers);
            lemma_seed_order(
                seeds,
                workers,
                chunk_start(a + 1, n, workers),
                chunk_start(b, n, workers),
            );
            let end = range_to(seeds, workers, a).unwrap();
            let next = range_from(seeds, workers, a + 1);
            let start = range_from(seeds, workers, b);
            lemma_order_is_rank(z, end);
            lemma_order_is_rank(end, next);
            lemma_order_is_rank(next, start);
            lemma_order_is_rank(start, z);
        }
    }
    k
}

/// The ranges cover the seeds chunk by chunk: a seed lies in the range of
/// worker `k` exactly where its position lies in the chunk of worker `k`.
pub proof fn lemma_seed_owner(seeds: Seq<Seq<u8>>, workers: int, k: int, i: int)
    requires
        splittable(seeds, workers),
        0 <= k < workers,
        0 <= i < seeds.len(),
    ensures
        owns(seeds, workers, k, seeds[i]) <==> chunk_start(k, seeds.len() as int, workers) <= i
            < chunk_start(k + 1, seeds.len() as int, workers),
{
    let n = seeds.len() as int;
    lemma_chunk_start(k, n, workers);
    lemma_ranges_adjoin(seeds, workers, k);
    lemma_seed_order(seeds, workers, chunk_start(k, n, workers), i);
    if k + 1 < workers {
        let next = range_from(seeds, workers, k + 1);
        let end = range_to(seeds, workers, k).unwrap();
        lemma_chunk_start(k + 1, n, workers);
        lemma_seed_order(seeds, workers, i, chunk_start(k + 1, n, workers));
        lemma_seed_order(seeds, workers, chunk_start(k + 1, n, workers), i);
        lemma_order_is_rank(seeds[i], end);
        lemma_order_is_rank(end, next);
        lemma_order_is_rank(seeds[i], next);
        if lex_lt(seeds[i], next) {
            lemma_predecessor_greatest(next, seeds[i]);
        }
    }
}

// Seeds of which each comes before the one behind it are strictly rising.
proof fn lemma_rising_from_adjacent(seeds: Seq<Seq<u8>>, i: int, j: int)
    requires
        forall|k: int| 0 <= k < seeds.len() ==> is_instruction(#[trigger] seeds[k]),
        forall|k: int| 0 <= k < seeds.len() - 1 ==> lex_lt(#[trigger] seeds[k], seeds[k + 1]),
        0 <= i < j < seeds.len(),
    ensures
        lex_lt(seeds[i], seeds[j]),
    decreases j - i,
{
    if i + 1 < j {
        lemma_rising_from_adjacent(seeds, i, j - 1);
        assert(lex_lt(seeds[j - 1], seeds[j - 1 + 1]));
        lemma_lt_transitive(seeds[i], seeds[j - 1], seeds[j]);
    } else {
        assert(lex_lt(seeds[i], seeds[i + 1]));
    }
}

/// Whether `seeds` can be split among `workers` workers, and if not, why.
pub fn check_seeds(seeds: &Vec<Instruction>, workers: usize) -> (r: Result<(), Error>)
    requires
        forall|i: int| 0 <= i < seeds@.len() ==> (#[trigger] seeds@[i]).wf(),
    ensures
        match r {
            Ok(_) => splittable(instruction_views(seeds@), workers as int),
            Err(e) => refusal(instruction_views(seeds@), workers as int) == Some(e),
        },
{
    let ghost views = instruction_views(seeds@);
    if workers == 0 {
        return Err(Error::NoWorkers);
    }
    let n: usize = seeds.len();
    if n < workers {
        return Err(Error::NotEnoughSeeds);
    }
    let mut i: usize = 0;
    while i + 1 < n
        invariant
            n == seeds.len(),
            0 < workers <= n,
            i < n,
            views == instruction_views(seeds@),
            forall|k: int| 0 <= k < i ==> lex_lt(#[trigger] views[k], views[k + 1]),
        decreases n - i,
    {
        if !seeds[i].lt(&seeds[i + 1]) {
            proof {
                let a = i as int;
                let b = i + 1;
                assert(!lex_lt(views[a], views[b]));
                assert(0 <= a < b < views.len());
                assert(!strictly_rising(views));
            }
            return Err(Error::UnorderedSeeds);
        }
        i += 1;
    }
    proof {
        assert forall|k: int| 0 <= k < views.len() implies is_instruction(#[trigger] views[k]) by {
            assert(seeds@[k].wf());
        }
        assert forall|a: int, b: int| 0 <= a < b < views.len() implies lex_lt(
            #[trigger] views[a],
            #[trigger] views[b],
        ) by {
            lemma_rising_from_adjacent(views, a, b);
        }
    }
    Ok(())
}

/// The index of the seed at which the chunk of worker `k` starts.
pub fn start_of(k: usize, seeds: usize, workers: usize) -> (start: usize)
    requires
        1 <= workers <= seeds,
        k <= workers,
    ensures
        start == chunk_start(k as int, seeds as int, workers as int),
        start <= seeds,
{
    proof {
        lemma_chunk_rising(k as int, workers as int, seeds as int, workers as int);
        lemma_chunk_start(0, seeds as int, workers as int);
        assert(k * seeds <= u128::MAX) by (nonlinear_arith)
            requires
                0 <= k <= 0xFFFF_FFFF_FFFF_FFFF,
                0 <= seeds <= 0xFFFF_FFFF_FFFF_FFFF,
        ;
    }
    let product: u128 = (k as u128) * (seeds as u128);
    (product / (workers as u128)) as usize
}

/// The range of worker `k` where `seeds` are split among `workers` workers.
pub fn range_of(seeds: &Vec<Instruction>, workers: usize, k: usize) -> (range: (
    Instruction,
    Option<Instruction>,
))
    requires
        splittable(instruction_views(seeds@), workers as int),
        forall|i: int| 0 <= i < seeds@.len() ==> (#[trigger] seeds@[i]).wf(),
        k < workers,
    ensures
        range.0.wf(),
        range.0@ == range_from(instruction_views(seeds@), workers as int, k as int),
        match range.1 {
            Some(t) => t.wf() && range_to(instruction_views(seeds@), workers as int, k as int)
                == Some(t@) && lex_le(range.0@, t@),
            None => range_to(instruction_views(seeds@), workers as int, k as int) is None,
        },
{
    let ghost views = instruction_views(seeds@);
    let n: usize = seeds.len();
    proof {
        lemma_chunk_start(k as int, n as int, workers as int);
        lemma_ranges_adjoin(views, workers as int, k as int);
    }
    let from = seeds[start_of(k, n, workers)].clone();
    let to = if k + 1 < workers {
        proof {
            lemma_chunk_start(k + 1, n as int, workers as int);
        }
        seeds[start_of(k + 1, n, workers)].predecessor()
    } else {
        None
    };
    (from, to)
}

} // verus!
