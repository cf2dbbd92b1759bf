//! The seeds from which the ranges of the workers are cut.

use crate::instruction::{instruction_views, Instruction};
use vstd::prelude::*;

verus! {

/// Of the seeds that begin with a REX prefix, one in this many is kept.
pub const REX_KEEP_ONE_IN: usize = 8;

/// Whether `b` is a REX prefix: its high four bits are `0100`.
pub open spec fn is_rex(b: u8) -> bool {
    b & 0xF0 == 0x40
}

/// Whether `s` begins with a REX prefix, alone or behind the prefixes `F0`,
/// `66`, `F2`, `F3`, or `F0`, `F2` or `F3` followed by `66`.
pub open spec fn has_rex_prefix(s: Seq<u8>) -> bool {
    ||| s.len() >= 1 && is_rex(s[0])
    ||| s.len() >= 2 && (s[0] == 0xF0 || s[0] == 0x66 || s[0] == 0xF2 || s[0] == 0xF3) && is_rex(
        s[1],
    )
    ||| s.len() >= 3 && (s[0] == 0xF0 || s[0] == 0xF2 || s[0] == 0xF3) && s[1] == 0x66 && is_rex(
        s[2],
    )
}

/// The number of seeds among the first `n` that begin with a REX prefix.
pub open spec fn rex_count(seeds: Seq<Seq<u8>>, n: int) -> nat
    decreases n,
{
    if n <= 0 {
        0
    } else {
        rex_count(seeds, n - 1) + if has_rex_prefix(seeds[n - 1]) {
            1nat
        } else {
            0nat
        }
    }
}

/// Whether the seed at `i` stays: it does not begin with a REX prefix, or it
/// is the eighth, sixteenth, ... of those that do.
pub open spec fn stays(seeds: Seq<Seq<u8>>, i: int) -> bool {
    !has_rex_prefix(seeds[i]) || rex_count(seeds, i + 1) % (REX_KEEP_ONE_IN as nat) == 0
}

/// The seeds among the first `n` that stay, in their order.
pub open spec fn thinned(seeds: Seq<Seq<u8>>, n: int) -> Seq<Seq<u8>>
    decreases n,
{
    if n <= 0 {
        Seq::empty()
    } else if stays(seeds, n - 1) {
        thinned(seeds, n - 1).push(seeds[n - 1])
    } else {
        thinned(seeds, n - 1)
    }
}

/// The single-byte instructions, from `00` to `FF`.
pub fn default_seeds() -> (seeds: Vec<Instruction>)
    ensures
        seeds@.len() == 256,
        forall|i: int| 0 <= i < 256 ==> (#[trigger] seeds@[i])@ == seq![i as u8] && seeds@[i].wf(),
{
    let mut seeds: Vec<Instruction> = Vec::new();
    let mut b: u8 = 0;
    loop
        invariant
            seeds@.len() == b,
            forall|i: int| 0 <= i < b ==> (#[trigger] seeds@[i])@ == seq![i as u8] && seeds@[i].wf(),
        decreases 255 - b,
    {
        seeds.push(Instruction::single(b));
        if b == 255 {
            return seeds;
        }
        b += 1;
    }
}

/// Whether `instr` begins with a REX prefix, alone or behind other
/// prefixes.
pub fn begins_with_rex(instr: &Instruction) -> (r: bool)
    ensures
        r == has_rex_prefix(instr@),
{
    let s = instr.bytes();
    let n: usize = s.len();
    if n >= 1 && s[0] & 0xF0 == 0x40 {
        return true;
    }
    if n >= 2 && (s[0] == 0xF0 || s[0] == 0x66 || s[0] == 0xF2 || s[0] == 0xF3) && s[1] & 0xF0
        == 0x40 {
        return true;
    }
    n >= 3 && (s[0] == 0xF0 || s[0] == 0xF2 || s[0] == 0xF3) && s[1] == 0x66 && s[2] & 0xF0 == 0x40
}

/// The seeds without seven of every eight that begin with a REX prefix.
pub fn thin_rex(seeds: &Vec<Instruction>) -> (kept: Vec<Instruction>)
    ensures
        instruction_views(kept@) == thinned(instruction_views(seeds@), seeds@.len() as int),
        (forall|i: int| 0 <= i < seeds@.len() ==> (#[trigger] seeds@[i]).wf()) ==> forall|i: int|
            0 <= i < kept@.len() ==> (#[trigger] kept@[i]).wf(),
{
    let ghost views = instruction_views(seeds@);
    let ghost valid = forall|i: int| 0 <= i < seeds@.len() ==> (#[trigger] seeds@[i]).wf();
    let mut kept: Vec<Instruction> = Vec::new();
    let n: usize = seeds.len();
    let mut count: usize = 0;
    let mut i: usize = 0;
    assert(instruction_views(kept@) =~= thinned(views, 0));
    while i < n
        invariant
            n == seeds.len(),
            i <= n,
            views == instruction_views(seeds@),
            valid == (forall|i: int| 0 <= i < seeds@.len() ==> (#[trigger] seeds@[i]).wf()),
            count == rex_count(views, i as int) % (REX_KEEP_ONE_IN as nat),
            instruction_views(kept@) == thinned(views, i as int),
            valid ==> forall|j: int| 0 <= j < kept@.len() ==> (#[trigger] kept@[j]).wf(),
        decreases n - i,
    {
        let ghost before = instruction_views(kept@);
        let mut stays = true;
        if begins_with_rex(&seeds[i]) {
            count = (count + 1) % REX_KEEP_ONE_IN;
            stays = count == 0;
        }
        assert(stays == crate::seeds::stays(views, i as int));
        if stays {
            let copy = seeds[i].clone();
            proof {
                if valid {
                    assert(seeds@[i as int].wf());
                }
            }
            kept.push(copy);
            assert(instruction_views(kept@) =~= before.push(views[i as int]));
        }
        i += 1;
    }
    kept
}

/// The seeds that a scan gives: the single zero byte, then the thinned scan.
pub fn scan_seeds(scan: &Vec<Instruction>) -> (seeds: Vec<Instruction>)
    ensures
        instruction_views(seeds@) == seq![seq![0u8]] + thinned(
            instruction_views(scan@),
            scan@.len() as int,
        ),
        (forall|i: int| 0 <= i < scan@.len() ==> (#[trigger] scan@[i]).wf()) ==> forall|i: int|
            0 <= i < seeds@.len() ==> (#[trigger] seeds@[i]).wf(),
{
    let mut seeds = thin_rex(scan);
    let ghost thin = instruction_views(seeds@);
    seeds.insert(0, Instruction::single(0));
    assert(instruction_views(seeds@) =~= seq![seq![0u8]] + thin);
    seeds
}

} // verus!
