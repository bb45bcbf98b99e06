//! Byte strings: their lexicographic order and fixed-width big-endian integers.
use vstd::prelude::*;

verus! {

/// Whether `a` and `b` agree on every index below `i`, and `i` is where they
/// first differ or where one of them ends.
pub open spec fn differs_at(a: Seq<u8>, b: Seq<u8>, i: int) -> bool {
    &&& 0 <= i <= a.len()
    &&& i <= b.len()
    &&& forall|j: int| 0 <= j < i ==> a[j] == b[j]
    &&& (i == a.len() || i == b.len() || a[i] != b[i])
}

/// The first index at or after `i` where `a` and `b` differ or one ends.
pub open spec fn first_diff_from(a: Seq<u8>, b: Seq<u8>, i: nat) -> nat
    decreases a.len() - i,
{
    if i >= a.len() || i >= b.len() || a[i as int] != b[i as int] {
        i
    } else {
        first_diff_from(a, b, i + 1)
    }
}

pub open spec fn first_diff(a: Seq<u8>, b: Seq<u8>) -> nat {
    first_diff_from(a, b, 0)
}

/// Byte-lexicographic order: `a` sorts strictly before `b`.
pub open spec fn lex_lt(a: Seq<u8>, b: Seq<u8>) -> bool {
    let i = first_diff(a, b) as int;
    i < b.len() && (i == a.len() || a[i] < b[i])
}

proof fn lemma_first_diff_from(a: Seq<u8>, b: Seq<u8>, i: nat)
    requires
        i <= a.len(),
        i <= b.len(),
        forall|j: int| 0 <= j < i ==> a[j] == b[j],
    ensures
        differs_at(a, b, first_diff_from(a, b, i) as int),
    decreases a.len() - i,
{
    if !(i >= a.len() || i >= b.len() || a[i as int] != b[i as int]) {
        lemma_first_diff_from(a, b, i + 1);
    }
}

/// The first difference exists and is the only index where the two differ first.
pub proof fn lemma_first_diff(a: Seq<u8>, b: Seq<u8>)
    ensures
        differs_at(a, b, first_diff(a, b) as int),
        forall|i: int| differs_at(a, b, i) ==> i == first_diff(a, b),
        first_diff(a, b) == first_diff(b, a),
{
    lemma_first_diff_from(a, b, 0);
    lemma_first_diff_from(b, a, 0);
    assert forall|i: int| differs_at(a, b, i) implies i == first_diff(a, b) by {
        lemma_differs_at_unique(a, b, i, first_diff(a, b) as int);
    }
    lemma_differs_at_unique(a, b, first_diff(a, b) as int, first_diff(b, a) as int);
}

proof fn lemma_differs_at_unique(a: Seq<u8>, b: Seq<u8>, i: int, j: int)
    requires
        differs_at(a, b, i),
        differs_at(a, b, j) || differs_at(b, a, j),
    ensures
        i == j,
{
}

/// `lex_lt` is a strict total order.
pub proof fn lemma_lex_irreflexive(a: Seq<u8>)
    ensures
        !lex_lt(a, a),
{
    lemma_first_diff(a, a);
}

pub proof fn lemma_lex_total(a: Seq<u8>, b: Seq<u8>)
    ensures
        a == b || lex_lt(a, b) || lex_lt(b, a),
        !(lex_lt(a, b) && lex_lt(b, a)),
{
    lemma_first_diff(a, b);
    let i = first_diff(a, b) as int;
    if i == a.len() && i == b.len() {
        assert(a =~= b);
    }
}

pub proof fn lemma_lex_transitive(a: Seq<u8>, b: Seq<u8>, c: Seq<u8>)
    requires
        lex_lt(a, b),
        lex_lt(b, c),
    ensures
        lex_lt(a, c),
{
    lemma_first_diff(a, b);
    lemma_first_diff(b, c);
    lemma_first_diff(a, c);
    let i = first_diff(a, b) as int;
    let j = first_diff(b, c) as int;
    let k = if i < j { i } else { j };
    assert(differs_at(a, c, k));
}

/// Compares two byte strings in byte-lexicographic order.
pub fn lex_less(a: &[u8], b: &[u8]) -> (r: bool)
    ensures
        r == lex_lt(a@, b@),
{
    let mut i: usize = 0;
    while i < a.len() && i < b.len() && a[i] == b[i]
        invariant
            i <= a@.len(),
            i <= b@.len(),
            forall|j: int| 0 <= j < i ==> a@[j] == b@[j],
        decreases a@.len() - i,
    {
        i = i + 1;
    }
    proof {
        lemma_first_diff(a@, b@);
        assert(differs_at(a@, b@, i as int));
    }
    i < b.len() && (i == a.len() || a[i] < b[i])
}

/// Whether two byte strings are equal.
pub fn bytes_eq(a: &[u8], b: &[u8]) -> (r: bool)
    ensures
        r == (a@ == b@),
{
    if a.len() != b.len() {
        return false;
    }
    let mut i: usize = 0;
    while i < a.len()
        invariant
            a@.len() == b@.len(),
            i <= a@.len(),
            forall|j: int| 0 <= j < i ==> a@[j] == b@[j],
        decreases a@.len() - i,
    {
        if a[i] != b[i] {
            return false;
        }
        i = i + 1;
    }
    assert(a@ =~= b@);
    true
}

/// Whether `s` begins with `p`.
pub open spec fn has_prefix(s: Seq<u8>, p: Seq<u8>) -> bool {
    p.len() <= s.len() && s.subrange(0, p.len() as int) == p
}

pub fn starts_with(s: &[u8], p: &[u8]) -> (r: bool)
    ensures
        r == has_prefix(s@, p@),
{
    if p.len() > s.len() {
        return false;
    }
    let mut i: usize = 0;
    while i < p.len()
        invariant
            p@.len() <= s@.len(),
            i <= p@.len(),
            forall|j: int| 0 <= j < i ==> s@[j] == p@[j],
        decreases p@.len() - i,
    {
        if s[i] != p[i] {
            assert(s@.subrange(0, p@.len() as int)[i as int] != p@[i as int]);
            return false;
        }
        i = i + 1;
    }
    assert(s@.subrange(0, p@.len() as int) =~= p@);
    true
}

/// Copies the bytes of `s` from `lo` up to `hi`.
pub fn copy_range(s: &[u8], lo: usize, hi: usize) -> (r: Vec<u8>)
    requires
        lo <= hi <= s@.len(),
    ensures
        r@ == s@.subrange(lo as int, hi as int),
{
    let mut r: Vec<u8> = Vec::with_capacity(hi - lo);
    let mut i: usize = lo;
    while i < hi
        invariant
            lo <= i <= hi <= s@.len(),
            r@ == s@.subrange(lo as int, i as int),
        decreases hi - i,
    {
        r.push(s[i]);
        i = i + 1;
        assert(r@ =~= s@.subrange(lo as int, i as int));
    }
    r
}

/// Appends the bytes of `src` to `dst`.
pub fn push_all(dst: &mut Vec<u8>, src: &[u8])
    ensures
        final(dst)@ == old(dst)@ + src@,
{
    let mut i: usize = 0;
    while i < src.len()
        invariant
            i <= src@.len(),
            dst@ == old(dst)@ + src@.subrange(0, i as int),
        decreases src@.len() - i,
    {
        dst.push(src[i]);
        i = i + 1;
        assert(dst@ =~= old(dst)@ + src@.subrange(0, i as int));
    }
    assert(src@.subrange(0, src@.len() as int) =~= src@);
}

/// The four big-endian bytes of a `u32`.
pub open spec fn be32(n: u32) -> Seq<u8> {
    seq![(n >> 24u32) as u8, (n >> 16u32) as u8, (n >> 8u32) as u8, n as u8]
}

/// The `u32` that four big-endian bytes hold.
pub open spec fn be32_value(s: Seq<u8>) -> u32
    recommends
        s.len() == 4,
{
    ((s[0] as u32) << 24u32) | ((s[1] as u32) << 16u32) | ((s[2] as u32) << 8u32) | (s[3] as u32)
}

/// The eight big-endian bytes of a `u64`.
pub open spec fn be64(n: u64) -> Seq<u8> {
    seq![
        (n >> 56u64) as u8,
        (n >> 48u64) as u8,
        (n >> 40u64) as u8,
        (n >> 32u64) as u8,
        (n >> 24u64) as u8,
        (n >> 16u64) as u8,
        (n >> 8u64) as u8,
        n as u8,
    ]
}

/// The `u64` that eight big-endian bytes hold.
pub open spec fn be64_value(s: Seq<u8>) -> u64
    recommends
        s.len() == 8,
{
    ((s[0] as u64) << 56u64) | ((s[1] as u64) << 48u64) | ((s[2] as u64) << 40u64) | ((s[3]
        as u64) << 32u64) | ((s[4] as u64) << 24u64) | ((s[5] as u64) << 16u64) | ((s[6] as u64)
        << 8u64) | (s[7] as u64)
}

/// Four big-endian bytes and the `u32` they hold determine each other.
pub proof fn lemma_be32(n: u32, s: Seq<u8>)
    ensures
        be32_value(be32(n)) == n,
        be32(n).len() == 4,
        s.len() == 4 ==> be32(be32_value(s)) == s,
{
    let (b0, b1, b2, b3) = ((n >> 24u32) as u8, (n >> 16u32) as u8, (n >> 8u32) as u8, n as u8);
    assert((((b0 as u32) << 24u32) | ((b1 as u32) << 16u32) | ((b2 as u32) << 8u32) | (b3 as u32))
        == n) by (bit_vector)
        requires
            b0 == (n >> 24u32) as u8,
            b1 == (n >> 16u32) as u8,
            b2 == (n >> 8u32) as u8,
            b3 == n as u8,
    ;
    if s.len() == 4 {
        let (c0, c1, c2, c3) = (s[0], s[1], s[2], s[3]);
        let v = be32_value(s);
        assert(((v >> 24u32) as u8 == c0 && (v >> 16u32) as u8 == c1 && (v >> 8u32) as u8 == c2
            && v as u8 == c3)) by (bit_vector)
            requires
                v == ((c0 as u32) << 24u32) | ((c1 as u32) << 16u32) | ((c2 as u32) << 8u32) | (
                c3 as u32),
        ;
        assert(be32(v) =~= s);
    }
}

/// Eight big-endian bytes and the `u64` they hold determine each other.
pub proof fn lemma_be64(n: u64, s: Seq<u8>)
    ensures
        be64_value(be64(n)) == n,
        be64(n).len() == 8,
        s.len() == 8 ==> be64(be64_value(s)) == s,
{
    let b = be64(n);
    let (b0, b1, b2, b3, b4, b5, b6, b7) = (b[0], b[1], b[2], b[3], b[4], b[5], b[6], b[7]);
    assert((((b0 as u64) << 56u64) | ((b1 as u64) << 48u64) | ((b2 as u64) << 40u64) | ((b3
        as u64) << 32u64) | ((b4 as u64) << 24u64) | ((b5 as u64) << 16u64) | ((b6 as u64)
        << 8u64) | (b7 as u64)) == n) by (bit_vector)
        requires
            b0 == (n >> 56u64) as u8,
            b1 == (n >> 48u64) as u8,
            b2 == (n >> 40u64) as u8,
            b3 == (n >> 32u64) as u8,
            b4 == (n >> 24u64) as u8,
            b5 == (n >> 16u64) as u8,
            b6 == (n >> 8u64) as u8,
            b7 == n as u8,
    ;
    if s.len() == 8 {
        let (c0, c1, c2, c3, c4, c5, c6, c7) = (s[0], s[1], s[2], s[3], s[4], s[5], s[6], s[7]);
        let v = be64_value(s);
        assert((v >> 56u64) as u8 == c0 && (v >> 48u64) as u8 == c1 && (v >> 40u64) as u8 == c2
            && (v >> 32u64) as u8 == c3 && (v >> 24u64) as u8 == c4 && (v >> 16u64) as u8 == c5
            && (v >> 8u64) as u8 == c6 && v as u8 == c7) by (bit_vector)
            requires
                v == ((c0 as u64) << 56u64) | ((c1 as u64) << 48u64) | ((c2 as u64) << 40u64) | ((
                c3 as u64) << 32u64) | ((c4 as u64) << 24u64) | ((c5 as u64) << 16u64) | ((c6
                as u64) << 8u64) | (c7 as u64),
        ;
        assert(be64(v) =~= s);
    }
}

/// Appends the big-endian bytes of `n`.
pub fn push_be32(dst: &mut Vec<u8>, n: u32)
    ensures
        final(dst)@ == old(dst)@ + be32(n),
{
    dst.push((n >> 24u32) as u8);
    dst.push((n >> 16u32) as u8);
    dst.push((n >> 8u32) as u8);
    dst.push(n as u8);
    assert(dst@ =~= old(dst)@ + be32(n));
}

/// Appends the big-endian bytes of `n`.
pub fn push_be64(dst: &mut Vec<u8>, n: u64)
    ensures
        final(dst)@ == old(dst)@ + be64(n),
{
    dst.push((n >> 56u64) as u8);
    dst.push((n >> 48u64) as u8);
    dst.push((n >> 40u64) as u8);
    dst.push((n >> 32u64) as u8);
    dst.push((n >> 24u64) as u8);
    dst.push((n >> 16u64) as u8);
    dst.push((n >> 8u64) as u8);
    dst.push(n as u8);
    assert(dst@ =~= old(dst)@ + be64(n));
}

/// Reads the `u32` held by the four bytes of `s` at `at`.
pub fn read_be32(s: &[u8], at: usize) -> (r: u32)
    requires
        at + 4 <= s@.len(),
    ensures
        r == be32_value(s@.subrange(at as int, at + 4)),
{
    ((s[at] as u32) << 24u32) | ((s[at + 1] as u32) << 16u32) | ((s[at + 2] as u32) << 8u32) | (s[at
        + 3] as u32)
}

/// Reads the `u64` held by the eight bytes of `s` at `at`.
pub fn read_be64(s: &[u8], at: usize) -> (r: u64)
    requires
        at + 8 <= s@.len(),
    ensures
        r == be64_value(s@.subrange(at as int, at + 8)),
{
    ((s[at] as u64) << 56u64) | ((s[at + 1] as u64) << 48u64) | ((s[at + 2] as u64) << 40u64) | ((
    s[at + 3] as u64) << 32u64) | ((s[at + 4] as u64) << 24u64) | ((s[at + 5] as u64) << 16u64) | ((s[at
        + 6] as u64) << 8u64) | (s[at + 7] as u64)
}

} // verus!
