//! Instructions and their total order.

use vstd::prelude::*;

verus! {

/// The longest instruction, in bytes.
pub const MAX_INSTRUCTION_LEN: usize = 15;

/// Whether a byte sequence has the length of an instruction.
pub open spec fn is_instruction(s: Seq<u8>) -> bool {
    1 <= s.len() <= MAX_INSTRUCTION_LEN
}

/// `a` and `b` agree on their first `k` bytes, and at position `k` either `a`
/// has ended while `b` goes on, or `a` holds the smaller byte.
pub open spec fn precedes_at(a: Seq<u8>, b: Seq<u8>, k: int) -> bool {
    &&& 0 <= k <= a.len()
    &&& k < b.len()
    &&& forall|j: int| 0 <= j < k ==> a[j] == b[j]
    &&& (k == a.len() || a[k] < b[k])
}

/// The strict order on byte sequences: lexicographic over the bytes, and a
/// sequence comes before every sequence that extends it.
pub open spec fn lex_lt(a: Seq<u8>, b: Seq<u8>) -> bool {
    exists|k: int| precedes_at(a, b, k)
}

/// The order on byte sequences that goes with `lex_lt`.
pub open spec fn lex_le(a: Seq<u8>, b: Seq<u8>) -> bool {
    a == b || lex_lt(a, b)
}

/// Whether `s` begins with the bytes of `p`.
pub open spec fn starts_with(s: Seq<u8>, p: Seq<u8>) -> bool {
    &&& p.len() <= s.len()
    &&& forall|j: int| 0 <= j < p.len() ==> s[j] == p[j]
}

/// The digit of `s` at position `i`: zero past the end, the byte plus one
/// elsewhere.
pub open spec fn digit(s: Seq<u8>, i: int) -> nat {
    if 0 <= i < s.len() {
        (s[i] + 1) as nat
    } else {
        0
    }
}

/// The number that the first `n` digits of `s` spell in base 257.
pub open spec fn rank_upto(s: Seq<u8>, n: nat) -> nat
    decreases n,
{
    if n == 0 {
        0
    } else {
        rank_upto(s, (n - 1) as nat) * 257 + digit(s, n - 1)
    }
}

/// The position of `s` among the sequences of at most `MAX_INSTRUCTION_LEN`
/// bytes: it grows exactly as `lex_lt` does.
pub open spec fn rank(s: Seq<u8>) -> nat {
    rank_upto(s, MAX_INSTRUCTION_LEN as nat)
}

/// A number above every `rank_upto(_, n)`.
pub open spec fn rank_limit(n: nat) -> nat
    decreases n,
{
    if n == 0 {
        1
    } else {
        257 * rank_limit((n - 1) as nat)
    }
}

pub proof fn lemma_rank_upto_bound(s: Seq<u8>, n: nat)
    ensures
        rank_upto(s, n) < rank_limit(n),
    decreases n,
{
    if n > 0 {
        lemma_rank_upto_bound(s, (n - 1) as nat);
    }
}

/// Every rank lies below `rank_limit(MAX_INSTRUCTION_LEN)`.
pub proof fn lemma_rank_bound(s: Seq<u8>)
    ensures
        rank(s) < rank_limit(MAX_INSTRUCTION_LEN as nat),
{
    lemma_rank_upto_bound(s, MAX_INSTRUCTION_LEN as nat);
}

proof fn lemma_rank_upto_agree(a: Seq<u8>, b: Seq<u8>, n: nat)
    requires
        forall|j: int| 0 <= j < n ==> digit(a, j) == digit(b, j),
    ensures
        rank_upto(a, n) == rank_upto(b, n),
    decreases n,
{
    if n > 0 {
        lemma_rank_upto_agree(a, b, (n - 1) as nat);
    }
}

proof fn lemma_rank_upto_less(a: Seq<u8>, b: Seq<u8>, k: int, n: nat)
    requires
        0 <= k < n,
        forall|j: int| 0 <= j < k ==> digit(a, j) == digit(b, j),
        digit(a, k) < digit(b, k),
    ensures
        rank_upto(a, n) < rank_upto(b, n),
    decreases n,
{
    if n - 1 == k {
        lemma_rank_upto_agree(a, b, k as nat);
    } else {
        lemma_rank_upto_less(a, b, k, (n - 1) as nat);
    }
}

/// A sequence that comes first has the smaller rank.
pub proof fn lemma_lt_rank(a: Seq<u8>, b: Seq<u8>)
    requires
        a.len() <= MAX_INSTRUCTION_LEN,
        b.len() <= MAX_INSTRUCTION_LEN,
        lex_lt(a, b),
    ensures
        rank(a) < rank(b),
{
    let k = choose|k: int| precedes_at(a, b, k);
    lemma_rank_upto_less(a, b, k, MAX_INSTRUCTION_LEN as nat);
}

// The first position below `MAX_INSTRUCTION_LEN`, from `i` on, at which the
// digits of `a` and `b` differ, or `MAX_INSTRUCTION_LEN` if there is none.
proof fn first_digit_difference(a: Seq<u8>, b: Seq<u8>, i: int) -> (k: int)
    requires
        0 <= i <= MAX_INSTRUCTION_LEN,
        forall|j: int| 0 <= j < i ==> digit(a, j) == digit(b, j),
    ensures
        i <= k <= MAX_INSTRUCTION_LEN,
        forall|j: int| 0 <= j < k ==> digit(a, j) == digit(b, j),
        k < MAX_INSTRUCTION_LEN ==> digit(a, k) != digit(b, k),
    decreases MAX_INSTRUCTION_LEN - i,
{
    if i == MAX_INSTRUCTION_LEN || digit(a, i) != digit(b, i) {
        i
    } else {
        first_digit_difference(a, b, i + 1)
    }
}

// Where the digits of `a` and `b` first differ at `k` and `a` holds the
// smaller one, `a` comes first.
proof fn lemma_digits_precede(a: Seq<u8>, b: Seq<u8>, k: int)
    requires
        a.len() <= MAX_INSTRUCTION_LEN,
        b.len() <= MAX_INSTRUCTION_LEN,
        0 <= k < MAX_INSTRUCTION_LEN,
        forall|j: int| 0 <= j < k ==> digit(a, j) == digit(b, j),
        digit(a, k) < digit(b, k),
    ensures
        precedes_at(a, b, k),
{
    assert(k < b.len());
    if k > a.len() {
        assert(digit(a, a.len() as int) == digit(b, a.len() as int));
    }
    assert forall|j: int| 0 <= j < k implies a[j] == b[j] by {
        assert(digit(a, j) == digit(b, j));
    }
}

/// Of two sequences of at most `MAX_INSTRUCTION_LEN` bytes, one comes first
/// or they are the same.
pub proof fn lemma_trichotomy(a: Seq<u8>, b: Seq<u8>)
    requires
        a.len() <= MAX_INSTRUCTION_LEN,
        b.len() <= MAX_INSTRUCTION_LEN,
    ensures
        lex_lt(a, b) || a == b || lex_lt(b, a),
{
    let k = first_digit_difference(a, b, 0);
    if k == MAX_INSTRUCTION_LEN {
        if a.len() < b.len() {
            assert(digit(a, a.len() as int) == digit(b, a.len() as int));
        }
        if b.len() < a.len() {
            assert(digit(a, b.len() as int) == digit(b, b.len() as int));
        }
        assert forall|j: int| 0 <= j < a.len() implies a[j] == b[j] by {
            assert(digit(a, j) == digit(b, j));
        }
        assert(a =~= b);
    } else if digit(a, k) < digit(b, k) {
        lemma_digits_precede(a, b, k);
    } else {
        lemma_digits_precede(b, a, k);
    }
}

/// The order of two sequences of at most `MAX_INSTRUCTION_LEN` bytes is the
/// order of their ranks.
pub proof fn lemma_order_is_rank(a: Seq<u8>, b: Seq<u8>)
    requires
        a.len() <= MAX_INSTRUCTION_LEN,
        b.len() <= MAX_INSTRUCTION_LEN,
    ensures
        lex_lt(a, b) <==> rank(a) < rank(b),
        a == b <==> rank(a) == rank(b),
        lex_le(a, b) <==> rank(a) <= rank(b),
{
    lemma_trichotomy(a, b);
    if lex_lt(a, b) {
        lemma_lt_rank(a, b);
    }
    if lex_lt(b, a) {
        lemma_lt_rank(b, a);
    }
}

/// The order is transitive.
pub proof fn lemma_lt_transitive(a: Seq<u8>, b: Seq<u8>, c: Seq<u8>)
    requires
        a.len() <= MAX_INSTRUCTION_LEN,
        b.len() <= MAX_INSTRUCTION_LEN,
        c.len() <= MAX_INSTRUCTION_LEN,
        lex_le(a, b),
        lex_le(b, c),
    ensures
        lex_le(a, c),
        lex_lt(a, b) || lex_lt(b, c) ==> lex_lt(a, c),
{
    lemma_order_is_rank(a, b);
    lemma_order_is_rank(b, c);
    lemma_order_is_rank(a, c);
}

/// A sequence comes before or equals every sequence that starts with it.
pub proof fn lemma_prefix_le(p: Seq<u8>, s: Seq<u8>)
    requires
        starts_with(s, p),
    ensures
        lex_le(p, s),
{
    if p.len() == s.len() {
        assert(p =~= s);
    } else {
        assert(precedes_at(p, s, p.len() as int));
    }
}

/// Where `a` is no longer than `b` and holds at each position a byte no
/// larger than that of `b`, `a` comes before or equals `b`.
pub proof fn lemma_le_pointwise(a: Seq<u8>, b: Seq<u8>, i: int)
    requires
        a.len() <= b.len(),
        0 <= i <= a.len(),
        forall|j: int| 0 <= j < i ==> a[j] == b[j],
        forall|j: int| 0 <= j < a.len() ==> a[j] <= b[j],
    ensures
        lex_le(a, b),
    decreases a.len() - i,
{
    if i == a.len() {
        assert(starts_with(b, a));
        lemma_prefix_le(a, b);
    } else if a[i] < b[i] {
        assert(precedes_at(a, b, i));
    } else {
        lemma_le_pointwise(a, b, i + 1);
    }
}

/// `s` without the bytes `0xFF` at its end.
pub open spec fn trim_ff(s: Seq<u8>) -> Seq<u8>
    decreases s.len(),
{
    if s.len() > 0 && s.last() == 0xFF {
        trim_ff(s.drop_last())
    } else {
        s
    }
}

/// `s` with bytes `0xFF` added up to `MAX_INSTRUCTION_LEN`.
pub open spec fn pad_ff(s: Seq<u8>) -> Seq<u8> {
    s + Seq::new((MAX_INSTRUCTION_LEN - s.len()) as nat, |i: int| 0xFFu8)
}

/// The first sequence after all those that start with `p`: `p` without its
/// trailing `0xFF` bytes and with its last byte raised by one. There is none
/// where `p` holds nothing but `0xFF`.
pub open spec fn after_subtree(p: Seq<u8>) -> Option<Seq<u8>> {
    let q = trim_ff(p);
    if q.len() == 0 {
        None
    } else {
        Some(q.drop_last().push((q.last() + 1) as u8))
    }
}

/// The instruction that follows `s`: `s` with a zero byte added where there
/// is room, else the first sequence after those that start with `s`.
pub open spec fn successor(s: Seq<u8>) -> Option<Seq<u8>> {
    if s.len() < MAX_INSTRUCTION_LEN {
        Some(s.push(0))
    } else {
        after_subtree(s)
    }
}

/// The instruction that comes just before `s`: `s` without its last byte
/// where that byte is zero, else `s` with its last byte lowered by one and
/// filled up with `0xFF`. The single zero byte has none.
pub open spec fn predecessor(s: Seq<u8>) -> Option<Seq<u8>> {
    if s.len() == 0 || (s.len() == 1 && s.last() == 0) {
        None
    } else if s.last() == 0 {
        Some(s.drop_last())
    } else {
        Some(pad_ff(s.drop_last().push((s.last() - 1) as u8)))
    }
}

/// What `trim_ff` leaves: the bytes up to the last one that is not `0xFF`.
pub proof fn lemma_trim_ff(s: Seq<u8>)
    ensures
        trim_ff(s).len() <= s.len(),
        forall|j: int| 0 <= j < trim_ff(s).len() ==> trim_ff(s)[j] == s[j],
        forall|j: int| trim_ff(s).len() <= j < s.len() ==> s[j] == 0xFF,
        trim_ff(s).len() > 0 ==> trim_ff(s).last() != 0xFF,
    decreases s.len(),
{
    if s.len() > 0 && s.last() == 0xFF {
        let d = s.drop_last();
        lemma_trim_ff(d);
        assert forall|j: int| 0 <= j < trim_ff(s).len() implies trim_ff(s)[j] == s[j] by {
            assert(trim_ff(d)[j] == d[j]);
        }
        assert forall|j: int| trim_ff(s).len() <= j < s.len() implies s[j] == 0xFF by {
            if j < d.len() {
                assert(d[j] == 0xFF);
            }
        }
    }
}

/// `after_subtree(p)` is no longer than `p` and comes after every sequence
/// that starts with `p`.
pub proof fn lemma_after_subtree_greater(p: Seq<u8>, x: Seq<u8>)
    requires
        after_subtree(p) is Some,
        starts_with(x, p),
    ensures
        1 <= after_subtree(p).unwrap().len() <= p.len(),
        lex_lt(x, after_subtree(p).unwrap()),
{
    lemma_trim_ff(p);
    let q = trim_ff(p);
    let t = after_subtree(p).unwrap();
    assert(precedes_at(x, t, q.len() - 1));
}

/// Every sequence after `p` that does not start with `p` is at or after
/// `after_subtree(p)`.
pub proof fn lemma_after_subtree_least(p: Seq<u8>, z: Seq<u8>)
    requires
        lex_lt(p, z),
        !starts_with(z, p),
    ensures
        after_subtree(p) is Some,
        lex_le(after_subtree(p).unwrap(), z),
{
    lemma_trim_ff(p);
    let q = trim_ff(p);
    let k = choose|k: int| precedes_at(p, z, k);
    assert(k < p.len());
    assert(k < q.len());
    let t = q.drop_last().push((q.last() + 1) as u8);
    let m = q.len() - 1;
    if k < m {
        assert(precedes_at(t, z, k));
    } else if t[m] < z[m] {
        assert(precedes_at(t, z, m));
    } else {
        assert(starts_with(z, t));
        lemma_prefix_le(t, z);
    }
}

/// The successor of an instruction is an instruction that comes after it.
pub proof fn lemma_successor_greater(s: Seq<u8>)
    requires
        is_instruction(s),
        successor(s) is Some,
    ensures
        is_instruction(successor(s).unwrap()),
        lex_lt(s, successor(s).unwrap()),
{
    if s.len() < MAX_INSTRUCTION_LEN {
        assert(precedes_at(s, s.push(0), s.len() as int));
    } else {
        assert(starts_with(s, s));
        lemma_after_subtree_greater(s, s);
    }
}

/// No instruction lies between an instruction and its successor: every
/// instruction after `s` is at or after `successor(s)`.
pub proof fn lemma_successor_least(s: Seq<u8>, z: Seq<u8>)
    requires
        is_instruction(s),
        is_instruction(z),
        lex_lt(s, z),
    ensures
        successor(s) is Some,
        lex_le(successor(s).unwrap(), z),
{
    let k = choose|k: int| precedes_at(s, z, k);
    if s.len() < MAX_INSTRUCTION_LEN {
        let t = s.push(0);
        if k < s.len() || t[k] < z[k] {
            assert(precedes_at(t, z, k));
        } else {
            assert(starts_with(z, t));
            lemma_prefix_le(t, z);
        }
    } else {
        lemma_after_subtree_least(s, z);
    }
}

// Trailing `0xFF` bytes do not change what `trim_ff` leaves.
proof fn lemma_trim_padding(r: Seq<u8>, n: nat)
    ensures
        trim_ff(r + Seq::new(n, |i: int| 0xFFu8)) == trim_ff(r),
    decreases n,
{
    let padded = r + Seq::new(n, |i: int| 0xFFu8);
    if n == 0 {
        assert(padded =~= r);
    } else {
        assert(padded.drop_last() =~= r + Seq::new((n - 1) as nat, |i: int| 0xFFu8));
        lemma_trim_padding(r, (n - 1) as nat);
    }
}

/// The predecessor of an instruction is an instruction, and the instruction
/// is its successor.
pub proof fn lemma_predecessor(s: Seq<u8>)
    requires
        is_instruction(s),
        predecessor(s) is Some,
    ensures
        is_instruction(predecessor(s).unwrap()),
        successor(predecessor(s).unwrap()) == Some(s),
{
    let p = predecessor(s).unwrap();
    if s.last() == 0 {
        assert(p.push(0) =~= s);
    } else {
        let r = s.drop_last().push((s.last() - 1) as u8);
        lemma_trim_padding(r, (MAX_INSTRUCTION_LEN - r.len()) as nat);
        assert(trim_ff(r) == r);
        assert(r.drop_last().push((r.last() + 1) as u8) =~= s);
    }
}

/// Only the single zero byte has no predecessor, and no instruction comes
/// before it.
pub proof fn lemma_first_instruction(s: Seq<u8>, z: Seq<u8>)
    requires
        is_instruction(s),
        is_instruction(z),
        predecessor(s) is None,
    ensures
        s == seq![0u8],
        lex_le(s, z),
{
    assert(s =~= seq![0u8]);
    lemma_le_pointwise(s, z, 0);
}

/// An instruction before `s` is at or before the predecessor of `s`.
pub proof fn lemma_predecessor_greatest(s: Seq<u8>, z: Seq<u8>)
    requires
        is_instruction(s),
        is_instruction(z),
        lex_lt(z, s),
    ensures
        predecessor(s) is Some,
        lex_le(z, predecessor(s).unwrap()),
{
    if predecessor(s) is None {
        lemma_first_instruction(s, z);
        lemma_order_is_rank(s, z);
        lemma_order_is_rank(z, s);
    } else {
        let p = predecessor(s).unwrap();
        lemma_predecessor(s);
        lemma_trichotomy(z, p);
        if lex_lt(p, z) {
            lemma_successor_least(p, z);
            lemma_order_is_rank(s, z);
            lemma_order_is_rank(z, s);
        }
    }
}

/// A candidate instruction: between one and `MAX_INSTRUCTION_LEN` bytes.
#[derive(Debug, PartialEq, Eq, Hash)]
pub struct Instruction {
    bytes: Vec<u8>,
}

impl View for Instruction {
    type V = Seq<u8>;

    closed spec fn view(&self) -> Seq<u8> {
        self.bytes@
    }
}

impl Clone for Instruction {
    fn clone(&self) -> (copy: Self)
        ensures
            copy@ == self@,
    {
        Instruction { bytes: self.bytes.clone() }
    }
}

/// The byte sequences of the instructions of `v`.
pub open spec fn instruction_views(v: Seq<Instruction>) -> Seq<Seq<u8>> {
    Seq::new(v.len(), |i: int| v[i]@)
}

impl Instruction {
    /// The length is that of an instruction.
    pub open spec fn wf(&self) -> bool {
        is_instruction(self@)
    }

    /// The instruction with the given bytes, if they are between one and
    /// `MAX_INSTRUCTION_LEN`.
    pub fn new(bytes: Vec<u8>) -> (made: Option<Instruction>)
        ensures
            match made {
                Some(instr) => instr@ == bytes@ && instr.wf(),
                None => !is_instruction(bytes@),
            },
    {
        if 1 <= bytes.len() && bytes.len() <= MAX_INSTRUCTION_LEN {
            Some(Instruction { bytes })
        } else {
            None
        }
    }

    /// The instruction that holds the one byte `b`.
    pub fn single(b: u8) -> (made: Instruction)
        ensures
            made@ == seq![b],
            made.wf(),
    {
        let mut bytes: Vec<u8> = Vec::new();
        bytes.push(b);
        assert(bytes@ =~= seq![b]);
        Instruction { bytes }
    }

    /// The bytes.
    pub fn bytes(&self) -> (bytes: &Vec<u8>)
        ensures
            bytes@ == self@,
    {
        &self.bytes
    }

    /// The number of bytes.
    pub fn len(&self) -> (n: usize)
        ensures
            n == self@.len(),
    {
        self.bytes.len()
    }

    /// Whether the two hold the same bytes.
    pub fn same(&self, other: &Instruction) -> (r: bool)
        ensures
            r == (self@ == other@),
    {
        let n: usize = self.bytes.len();
        if n != other.bytes.len() {
            return false;
        }
        let mut i: usize = 0;
        while i < n
            invariant
                n == self.bytes.len(),
                n == other.bytes.len(),
                i <= n,
                forall|j: int| 0 <= j < i ==> self.bytes[j] == other.bytes[j],
            decreases n - i,
        {
            if self.bytes[i] != other.bytes[i] {
                return false;
            }
            i += 1;
        }
        assert(self@ =~= other@);
        true
    }

    /// Whether `self` comes before `other`.
    pub fn lt(&self, other: &Instruction) -> (r: bool)
        ensures
            r == lex_lt(self@, other@),
    {
        let n: usize = self.bytes.len();
        let m: usize = other.bytes.len();
        let mut i: usize = 0;
        while i < n && i < m
            invariant
                n == self.bytes.len(),
                m == other.bytes.len(),
                i <= n,
                i <= m,
                forall|j: int| 0 <= j < i ==> self.bytes[j] == other.bytes[j],
            decreases n - i,
        {
            if self.bytes[i] != other.bytes[i] {
                let r = self.bytes[i] < other.bytes[i];
                proof {
                    if r {
                        assert(precedes_at(self@, other@, i as int));
                    } else {
                        assert forall|k: int| !precedes_at(self@, other@, k) by {
                            if precedes_at(self@, other@, k) && k > i {
                                assert(self@[i as int] == other@[i as int]);
                            }
                        }
                    }
                }
                return r;
            }
            i += 1;
        }
        proof {
            if n < m {
                assert(precedes_at(self@, other@, n as int));
            } else {
                assert forall|k: int| !precedes_at(self@, other@, k) by {}
            }
        }
        n < m
    }

    /// Whether `self` comes before `other` or equals it.
    pub fn le(&self, other: &Instruction) -> (r: bool)
        ensures
            r == lex_le(self@, other@),
    {
        self.same(other) || self.lt(other)
    }

    /// The instruction that follows `self` in the order, if there is one.
    pub fn successor(&self) -> (next: Option<Instruction>)
        requires
            self.wf(),
        ensures
            match next {
                Some(instr) => successor(self@) == Some(instr@) && instr.wf(),
                None => successor(self@) is None,
            },
    {
        if self.bytes.len() < MAX_INSTRUCTION_LEN {
            let mut bytes = self.bytes.clone();
            bytes.push(0);
            Some(Instruction { bytes })
        } else {
            proof {
                assert(self@.subrange(0, self@.len() as int) =~= self@);
            }
            self.after_subtree(self.bytes.len())
        }
    }

    /// The first instruction after all those that start with the first `len`
    /// bytes of `self`, if there is one.
    pub fn after_subtree(&self, len: usize) -> (next: Option<Instruction>)
        requires
            self.wf(),
            1 <= len <= self@.len(),
        ensures
            match next {
                Some(instr) => after_subtree(self@.subrange(0, len as int)) == Some(instr@)
                    && instr.wf(),
                None => after_subtree(self@.subrange(0, len as int)) is None,
            },
    {
        let ghost p = self@.subrange(0, len as int);
        let mut n: usize = len;
        while n > 0 && self.bytes[n - 1] == 0xFF
            invariant
                n <= len <= self.bytes.len(),
                p == self@.subrange(0, len as int),
                trim_ff(p) == trim_ff(self@.subrange(0, n as int)),
            decreases n,
        {
            proof {
                let s = self@.subrange(0, n as int);
                assert(s.drop_last() =~= self@.subrange(0, n - 1));
            }
            n -= 1;
        }
        if n == 0 {
            return None;
        }
        let last: u8 = self.bytes[n - 1];
        let mut bytes = self.bytes.clone();
        bytes.truncate(n - 1);
        bytes.push(last + 1);
        proof {
            let q = self@.subrange(0, n as int);
            assert(trim_ff(q) == q);
            assert(bytes@ =~= q.drop_last().push((q.last() + 1) as u8));
        }
        Some(Instruction { bytes })
    }

    /// The instruction that comes just before `self`, if there is one.
    pub fn predecessor(&self) -> (prev: Option<Instruction>)
        requires
            self.wf(),
        ensures
            match prev {
                Some(instr) => predecessor(self@) == Some(instr@) && instr.wf(),
                None => predecessor(self@) is None,
            },
    {
        let n: usize = self.bytes.len();
        let last: u8 = self.bytes[n - 1];
        let mut bytes = self.bytes.clone();
        bytes.truncate(n - 1);
        if last == 0 {
            if n == 1 {
                return None;
            }
            assert(bytes@ =~= self@.drop_last());
            return Some(Instruction { bytes });
        }
        bytes.push(last - 1);
        let ghost stem = bytes@;
        assert(stem =~= self@.drop_last().push((self@.last() - 1) as u8));
        while bytes.len() < MAX_INSTRUCTION_LEN
            invariant
                stem.len() <= bytes.len() <= MAX_INSTRUCTION_LEN,
                forall|j: int| 0 <= j < stem.len() ==> bytes[j] == stem[j],
                forall|j: int| stem.len() <= j < bytes.len() ==> bytes[j] == 0xFF,
            decreases MAX_INSTRUCTION_LEN - bytes.len(),
        {
            bytes.push(0xFF);
        }
        assert(bytes@ =~= pad_ff(stem));
        Some(Instruction { bytes })
    }
}

} // verus!
