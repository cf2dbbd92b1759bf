//! Filters: patterns for the instructions that are already accounted for.

use crate::instruction::{
    is_instruction, lemma_le_pointwise, lex_le, starts_with, Instruction, MAX_INSTRUCTION_LEN,
};
use vstd::prelude::*;

verus! {

/// A pattern for one byte: the bits under `mask` are fixed to those of
/// `value`, the others are free.
#[derive(Clone, Copy, Debug, PartialEq, Eq, Structural)]
pub struct ByteFilter {
    pub mask: u8,
    pub value: u8,
}

impl ByteFilter {
    /// No bit of `value` lies outside `mask`.
    pub open spec fn wf(self) -> bool {
        self.value & !self.mask == 0
    }

    /// Whether the pattern admits the byte `b`.
    pub open spec fn admits(self, b: u8) -> bool {
        b & self.mask == self.value
    }

    /// Whether the pattern fixes no bit that `other` leaves free, and fixes
    /// its bits as `other` does.
    pub open spec fn covers(self, other: ByteFilter) -> bool {
        self.mask & other.mask == self.mask && other.value & self.mask == self.value
    }

    /// The pattern with the given mask and value, if no bit of the value lies
    /// outside the mask.
    pub fn new(mask: u8, value: u8) -> (made: Option<ByteFilter>)
        ensures
            match made {
                Some(f) => f.mask == mask && f.value == value && f.wf(),
                None => !(ByteFilter { mask, value }).wf(),
            },
    {
        if value & !mask == 0 {
            Some(ByteFilter { mask, value })
        } else {
            None
        }
    }

    /// The pattern that admits `b` alone.
    pub fn exact(b: u8) -> (made: ByteFilter)
        ensures
            made == (ByteFilter { mask: 0xFF, value: b }),
            made.wf(),
    {
        assert(b & !0xFFu8 == 0) by (bit_vector);
        ByteFilter { mask: 0xFF, value: b }
    }

    /// The pattern that admits every byte.
    pub fn any() -> (made: ByteFilter)
        ensures
            made == (ByteFilter { mask: 0, value: 0 }),
            made.wf(),
    {
        assert(0u8 & !0u8 == 0) by (bit_vector);
        ByteFilter { mask: 0, value: 0 }
    }

    /// Whether the pattern admits the byte `b`.
    pub fn matches(&self, b: u8) -> (r: bool)
        ensures
            r == self.admits(b),
    {
        b & self.mask == self.value
    }

    /// Whether the pattern covers `other`.
    pub fn subsumes(&self, other: &ByteFilter) -> (r: bool)
        ensures
            r == self.covers(*other),
    {
        self.mask & other.mask == self.mask && other.value & self.mask == self.value
    }
}

/// A well-formed pattern admits its own value, and no smaller byte.
pub proof fn lemma_value_least(f: ByteFilter, b: u8)
    ensures
        f.wf() ==> f.admits(f.value),
        f.admits(b) ==> f.value <= b,
{
    let m = f.mask;
    let v = f.value;
    if f.wf() {
        assert(v & m == v) by (bit_vector)
            requires
                v & !m == 0,
        ;
    }
    if f.admits(b) {
        assert(v <= b) by (bit_vector)
            requires
                b & m == v,
        ;
    }
}

/// The pattern that fixes every bit admits exactly its value.
pub proof fn lemma_exact_admits(v: u8, b: u8)
    ensures
        (ByteFilter { mask: 0xFF, value: v }).wf(),
        (ByteFilter { mask: 0xFF, value: v }).admits(b) <==> b == v,
{
    assert(v & !0xFFu8 == 0) by (bit_vector);
    assert(b & 0xFFu8 == b) by (bit_vector);
}

/// A pattern that covers another admits every byte that the other admits.
pub proof fn lemma_byte_covers(f: ByteFilter, g: ByteFilter, b: u8)
    requires
        f.covers(g),
        g.admits(b),
    ensures
        f.admits(b),
{
    let fm = f.mask;
    let fv = f.value;
    let gm = g.mask;
    let gv = g.value;
    assert(b & fm == fv) by (bit_vector)
        requires
            fm & gm == fm,
            gv & fm == fv,
            b & gm == gv,
    ;
}

/// Whether `f` has the shape of a filter: between one and
/// `MAX_INSTRUCTION_LEN` well-formed byte patterns.
pub open spec fn is_filter(f: Seq<ByteFilter>) -> bool {
    &&& 1 <= f.len() <= MAX_INSTRUCTION_LEN
    &&& forall|i: int| 0 <= i < f.len() ==> (#[trigger] f[i]).wf()
}

/// Whether the filter `f` matches the byte sequence `x`: `x` is at least as
/// long as `f`, and each pattern of `f` admits the byte of `x` at its place.
/// The bytes of `x` past the length of `f` are free.
pub open spec fn filter_matches(f: Seq<ByteFilter>, x: Seq<u8>) -> bool {
    &&& f.len() <= x.len()
    &&& forall|i: int| 0 <= i < f.len() ==> (#[trigger] f[i]).admits(x[i])
}

/// The values of the patterns of `f`, one byte for each.
pub open spec fn smallest_match(f: Seq<ByteFilter>) -> Seq<u8> {
    Seq::new(f.len(), |i: int| f[i].value)
}

/// The filter that fixes every bit of `x`.
pub open spec fn exact_pattern(x: Seq<u8>) -> Seq<ByteFilter> {
    Seq::new(x.len(), |i: int| ByteFilter { mask: 0xFF, value: x[i] })
}

/// Whether `f` is no longer than `g` and each pattern of `f` covers the
/// pattern of `g` at its place.
pub open spec fn filter_covers(f: Seq<ByteFilter>, g: Seq<ByteFilter>) -> bool {
    &&& f.len() <= g.len()
    &&& forall|i: int| 0 <= i < f.len() ==> (#[trigger] f[i]).covers(g[i])
}

/// `smallest_match(f)` is an instruction that `f` matches, and it comes
/// before or equals every sequence that `f` matches.
pub proof fn lemma_smallest_match(f: Seq<ByteFilter>, x: Seq<u8>)
    requires
        is_filter(f),
    ensures
        is_instruction(smallest_match(f)),
        filter_matches(f, smallest_match(f)),
        filter_matches(f, x) ==> lex_le(smallest_match(f), x),
{
    let s = smallest_match(f);
    assert forall|i: int| 0 <= i < f.len() implies (#[trigger] f[i]).admits(s[i]) by {
        lemma_value_least(f[i], 0);
    }
    if filter_matches(f, x) {
        assert forall|j: int| 0 <= j < s.len() implies s[j] <= x[j] by {
            assert(f[j].admits(x[j]));
            lemma_value_least(f[j], x[j]);
        }
        lemma_le_pointwise(s, x, 0);
    }
}

/// The filter that fixes every bit of `x` matches the sequences that start
/// with `x`, and no others.
pub proof fn lemma_exact_pattern(x: Seq<u8>, z: Seq<u8>)
    ensures
        is_instruction(x) ==> is_filter(exact_pattern(x)),
        filter_matches(exact_pattern(x), z) <==> starts_with(z, x),
{
    let f = exact_pattern(x);
    assert forall|i: int| 0 <= i < f.len() implies (#[trigger] f[i]).wf() by {
        lemma_exact_admits(x[i], 0);
    }
    if filter_matches(f, z) {
        assert forall|j: int| 0 <= j < x.len() implies z[j] == x[j] by {
            assert(f[j].admits(z[j]));
            lemma_exact_admits(x[j], z[j]);
        }
    }
    if starts_with(z, x) {
        assert forall|i: int| 0 <= i < f.len() implies (#[trigger] f[i]).admits(z[i]) by {
            lemma_exact_admits(x[i], z[i]);
        }
    }
}

/// A filter that covers another matches every sequence that the other
/// matches.
pub proof fn lemma_filter_covers(f: Seq<ByteFilter>, g: Seq<ByteFilter>, x: Seq<u8>)
    requires
        filter_covers(f, g),
        filter_matches(g, x),
    ensures
        filter_matches(f, x),
{
    assert forall|i: int| 0 <= i < f.len() implies (#[trigger] f[i]).admits(x[i]) by {
        assert(f[i].covers(g[i]));
        assert(g[i].admits(x[i]));
        lemma_byte_covers(f[i], g[i], x[i]);
    }
}

/// A filter that matches `x` matches every sequence that starts with the
/// bytes of `x` that the filter reads.
pub proof fn lemma_match_subtree(f: Seq<ByteFilter>, x: Seq<u8>, z: Seq<u8>)
    requires
        filter_matches(f, x),
        starts_with(z, x.subrange(0, f.len() as int)),
    ensures
        filter_matches(f, z),
{
    let p = x.subrange(0, f.len() as int);
    assert forall|i: int| 0 <= i < f.len() implies (#[trigger] f[i]).admits(z[i]) by {
        assert(z[i] == p[i]);
    }
}

/// A pattern over byte sequences: one byte pattern for each of the leading
/// bytes of the instructions that it matches.
#[derive(Debug)]
pub struct Filter {
    bytes: Vec<ByteFilter>,
}

impl View for Filter {
    type V = Seq<ByteFilter>;

    closed spec fn view(&self) -> Seq<ByteFilter> {
        self.bytes@
    }
}

impl Clone for Filter {
    fn clone(&self) -> (copy: Self)
        ensures
            copy@ == self@,
    {
        Filter { bytes: self.bytes.clone() }
    }
}

/// The byte patterns of the filters of `v`.
pub open spec fn filter_views(v: Seq<Filter>) -> Seq<Seq<ByteFilter>> {
    Seq::new(v.len(), |i: int| v[i]@)
}

impl Filter {
    /// The filter has the shape of one.
    pub open spec fn wf(&self) -> bool {
        is_filter(self@)
    }

    /// The filter made of the given byte patterns, if they are between one
    /// and `MAX_INSTRUCTION_LEN` and each is well formed.
    pub fn new(bytes: Vec<ByteFilter>) -> (made: Option<Filter>)
        ensures
            match made {
                Some(f) => f@ == bytes@ && f.wf(),
                None => !is_filter(bytes@),
            },
    {
        let n: usize = bytes.len();
        if n < 1 || n > MAX_INSTRUCTION_LEN {
            return None;
        }
        let mut i: usize = 0;
        while i < n
            invariant
                n == bytes.len(),
                i <= n,
                forall|j: int| 0 <= j < i ==> (#[trigger] bytes[j]).wf(),
            decreases n - i,
        {
            if bytes[i].value & !bytes[i].mask != 0 {
                return None;
            }
            i += 1;
        }
        Some(Filter { bytes })
    }

    /// The filter that fixes every bit of `instr`: it matches `instr` and
    /// what starts with it, and nothing else.
    pub fn exact(instr: &Instruction) -> (made: Filter)
        requires
            instr.wf(),
        ensures
            made@ == exact_pattern(instr@),
            made.wf(),
    {
        let src = instr.bytes();
        let n: usize = src.len();
        let mut bytes: Vec<ByteFilter> = Vec::new();
        let mut i: usize = 0;
        while i < n
            invariant
                n == src.len(),
                i <= n,
                bytes.len() == i,
                forall|j: int| 0 <= j < i ==> bytes[j] == (ByteFilter { mask: 0xFF, value: src[j] }),
            decreases n - i,
        {
            bytes.push(ByteFilter::exact(src[i]));
            i += 1;
        }
        proof {
            assert(bytes@ =~= exact_pattern(instr@));
            lemma_exact_pattern(instr@, instr@);
        }
        Filter { bytes }
    }

    /// The byte patterns.
    pub fn bytes(&self) -> (bytes: &Vec<ByteFilter>)
        ensures
            bytes@ == self@,
    {
        &self.bytes
    }

    /// The number of byte patterns.
    pub fn len(&self) -> (n: usize)
        ensures
            n == self@.len(),
    {
        self.bytes.len()
    }

    /// Whether the filter matches `instr`.
    pub fn matches(&self, instr: &Instruction) -> (r: bool)
        ensures
            r == filter_matches(self@, instr@),
    {
        let x = instr.bytes();
        let n: usize = self.bytes.len();
        if n > x.len() {
            return false;
        }
        let mut i: usize = 0;
        while i < n
            invariant
                n == self.bytes.len(),
                n <= x.len(),
                x@ == instr@,
                i <= n,
                forall|j: int| 0 <= j < i ==> (#[trigger] self.bytes[j]).admits(x[j]),
            decreases n - i,
        {
            if !self.bytes[i].matches(x[i]) {
                assert(!self@[i as int].admits(instr@[i as int]));
                return false;
            }
            i += 1;
        }
        true
    }

    /// The first instruction in the order that the filter matches.
    pub fn smallest_matching_instruction(&self) -> (instr: Instruction)
        requires
            self.wf(),
        ensures
            instr@ == smallest_match(self@),
            instr.wf(),
    {
        let n: usize = self.bytes.len();
        let mut bytes: Vec<u8> = Vec::new();
        let mut i: usize = 0;
        while i < n
            invariant
                n == self.bytes.len(),
                i <= n,
                bytes.len() == i,
                forall|j: int| 0 <= j < i ==> bytes[j] == self.bytes[j].value,
            decreases n - i,
        {
            bytes.push(self.bytes[i].value);
            i += 1;
        }
        assert(bytes@ =~= smallest_match(self@));
        Instruction::new(bytes).unwrap()
    }

    /// Whether the filter covers `other`: then it matches whatever `other`
    /// matches.
    pub fn covers(&self, other: &Filter) -> (r: bool)
        ensures
            r == filter_covers(self@, other@),
    {
        let n: usize = self.bytes.len();
        if n > other.bytes.len() {
            return false;
        }
        let mut i: usize = 0;
        while i < n
            invariant
                n == self.bytes.len(),
                n <= other.bytes.len(),
                i <= n,
                forall|j: int| 0 <= j < i ==> (#[trigger] self.bytes[j]).covers(other.bytes[j]),
            decreases n - i,
        {
            if !self.bytes[i].subsumes(&other.bytes[i]) {
                assert(!self@[i as int].covers(other@[i as int]));
                return false;
            }
            i += 1;
        }
        true
    }
}

} // verus!
