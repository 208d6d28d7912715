//! Little-endian integers in byte sequences.

use vstd::prelude::*;

verus! {

/// The four bytes of `x`, least significant first.
pub open spec fn le32(x: u32) -> Seq<u8> {
    seq![
        (x % 256) as u8,
        (x / 256 % 256) as u8,
        (x / 65536 % 256) as u8,
        (x / 16777216) as u8,
    ]
}

/// The eight bytes of `x`, least significant first.
pub open spec fn le64(x: u64) -> Seq<u8> {
    le32((x % 0x1_0000_0000) as u32) + le32((x / 0x1_0000_0000) as u32)
}

/// The number whose four bytes start at `at`.
pub open spec fn word_at(s: Seq<u8>, at: int) -> u32 {
    (s[at] + 256 * s[at + 1] + 65536 * s[at + 2] + 16777216 * s[at + 3]) as u32
}

/// The number whose eight bytes start at `at`.
pub open spec fn long_at(s: Seq<u8>, at: int) -> u64 {
    (word_at(s, at) + 0x1_0000_0000 * word_at(s, at + 4)) as u64
}

/// The `count` numbers whose bytes start at `at`.
pub open spec fn words_at(s: Seq<u8>, at: int, count: nat) -> Seq<u32> {
    Seq::new(count, |i: int| word_at(s, at + 4 * i))
}

/// The bytes of a sequence of numbers, one number after the other.
pub open spec fn le_words(v: Seq<u32>) -> Seq<u8> {
    Seq::new(4 * v.len(), |i: int| le32(v[i / 4])[i % 4])
}

/// In a concatenation, the pieces of the first part stay where they were, and
/// the second part follows.
pub proof fn lemma_concat(s: Seq<u8>, t: Seq<u8>)
    ensures
        (s + t).len() == s.len() + t.len(),
        forall|i: int, j: int|
            0 <= i <= j <= s.len() ==> #[trigger] (s + t).subrange(i, j) == s.subrange(i, j),
        (s + t).subrange(s.len() as int, (s.len() + t.len()) as int) == t,
{
    assert forall|i: int, j: int| 0 <= i <= j <= s.len() implies #[trigger] (s + t).subrange(i, j) == s.subrange(
        i,
        j,
    ) by {
        assert((s + t).subrange(i, j) =~= s.subrange(i, j));
    }
    assert((s + t).subrange(s.len() as int, (s.len() + t.len()) as int) =~= t);
}

/// Reading a number gives back the one that was written.
pub proof fn law_word_roundtrip(x: u32, s: Seq<u8>, at: int)
    requires
        0 <= at,
        at + 4 <= s.len(),
        s.subrange(at, at + 4) == le32(x),
    ensures
        word_at(s, at) == x,
{
    let t = s.subrange(at, at + 4);
    assert(t[0] == s[at] && t[1] == s[at + 1] && t[2] == s[at + 2] && t[3] == s[at + 3]);
}

/// Reading an eight-byte number gives back the one that was written.
pub proof fn law_long_roundtrip(x: u64, s: Seq<u8>, at: int)
    requires
        0 <= at,
        at + 8 <= s.len(),
        s.subrange(at, at + 8) == le64(x),
    ensures
        long_at(s, at) == x,
{
    let lo = (x % 0x1_0000_0000) as u32;
    let hi = (x / 0x1_0000_0000) as u32;
    assert(s.subrange(at, at + 4) =~= s.subrange(at, at + 8).subrange(0, 4));
    assert(s.subrange(at + 4, at + 8) =~= s.subrange(at, at + 8).subrange(4, 8));
    assert(le64(x).subrange(0, 4) =~= le32(lo));
    assert(le64(x).subrange(4, 8) =~= le32(hi));
    law_word_roundtrip(lo, s, at);
    law_word_roundtrip(hi, s, at + 4);
}

/// Reading a sequence of numbers gives back the one that was written.
pub proof fn law_words_roundtrip(v: Seq<u32>, s: Seq<u8>, at: int)
    requires
        0 <= at,
        at + 4 * v.len() <= s.len(),
        s.subrange(at, at + 4 * v.len()) == le_words(v),
    ensures
        words_at(s, at, v.len()) == v,
{
    assert forall|i: int| 0 <= i < v.len() implies word_at(s, at + 4 * i) == v[i] by {
        let part = s.subrange(at + 4 * i, at + 4 * i + 4);
        let all = s.subrange(at, at + 4 * v.len());
        assert forall|j: int| 0 <= j < 4 implies #[trigger] part[j] == le32(v[i])[j] by {
            assert(part[j] == all[4 * i + j]);
            assert((4 * i + j) / 4 == i && (4 * i + j) % 4 == j);
        }
        assert(part =~= le32(v[i]));
        law_word_roundtrip(v[i], s, at + 4 * i);
    }
    assert(words_at(s, at, v.len()) =~= v);
}

pub proof fn lemma_le_words_push(v: Seq<u32>, x: u32)
    ensures
        le_words(v.push(x)) == le_words(v) + le32(x),
{
    let a = le_words(v.push(x));
    let b = le_words(v) + le32(x);
    assert(a.len() == b.len());
    assert forall|i: int| 0 <= i < a.len() implies a[i] == b[i] by {
        if i < 4 * v.len() {
            assert(v.push(x)[i / 4] == v[i / 4]);
        } else {
            assert(i / 4 == v.len() && i % 4 == i - 4 * v.len());
        }
    }
    assert(a =~= b);
}

/// Reads the number whose four bytes start at `at`.
pub fn read_u32(s: &[u8], at: usize) -> (x: u32)
    requires
        at + 4 <= s@.len(),
    ensures
        x == word_at(s@, at as int),
{
    s[at] as u32 + 256 * (s[at + 1] as u32) + 65536 * (s[at + 2] as u32) + 16777216 * (s[at + 3] as u32)
}

/// Reads the number whose eight bytes start at `at`.
pub fn read_u64(s: &[u8], at: usize) -> (x: u64)
    requires
        at + 8 <= s@.len(),
    ensures
        x == long_at(s@, at as int),
{
    assert(s@.len() == s.len());
    read_u32(s, at) as u64 + 0x1_0000_0000 * (read_u32(s, at + 4) as u64)
}

/// Reads `count` numbers, the first of which starts at `at`.
pub fn read_words(s: &[u8], at: usize, count: usize) -> (v: Vec<u32>)
    requires
        at + 4 * count <= s@.len(),
    ensures
        v@ == words_at(s@, at as int, count as nat),
{
    assert(s@.len() == s.len());
    let mut v: Vec<u32> = Vec::with_capacity(count);
    let mut i: usize = 0;
    while i < count
        invariant
            i <= count,
            at + 4 * count <= usize::MAX,
            at + 4 * count <= s@.len(),
            v@ == words_at(s@, at as int, i as nat),
        decreases count - i,
    {
        v.push(read_u32(s, at + 4 * i));
        i += 1;
        assert(v@ =~= words_at(s@, at as int, i as nat));
    }
    v
}

/// Appends the four bytes of `x`.
pub fn push_u32(out: &mut Vec<u8>, x: u32)
    ensures
        final(out)@ == old(out)@ + le32(x),
{
    out.push((x % 256) as u8);
    out.push((x / 256 % 256) as u8);
    out.push((x / 65536 % 256) as u8);
    out.push((x / 16777216) as u8);
    assert(out@ =~= old(out)@ + le32(x));
}

/// Appends the eight bytes of `x`.
pub fn push_u64(out: &mut Vec<u8>, x: u64)
    ensures
        final(out)@ == old(out)@ + le64(x),
{
    push_u32(out, (x % 0x1_0000_0000) as u32);
    push_u32(out, (x / 0x1_0000_0000) as u32);
    assert(out@ =~= old(out)@ + le64(x));
}

/// Appends the bytes of every number of `v`.
pub fn push_words(out: &mut Vec<u8>, v: &[u32])
    ensures
        final(out)@ == old(out)@ + le_words(v@),
{
    let mut i: usize = 0;
    assert(out@ =~= old(out)@ + le_words(v@.take(0)));
    while i < v.len()
        invariant
            i <= v@.len(),
            out@ == old(out)@ + le_words(v@.take(i as int)),
        decreases v@.len() - i,
    {
        push_u32(out, v[i]);
        proof {
            lemma_le_words_push(v@.take(i as int), v@[i as int]);
            assert(v@.take(i as int).push(v@[i as int]) =~= v@.take(i + 1));
            assert(out@ =~= old(out)@ + le_words(v@.take(i + 1)));
        }
        i += 1;
    }
    assert(v@.take(i as int) =~= v@);
}

/// Appends `count` zero bytes.
pub fn push_zeros(out: &mut Vec<u8>, count: usize)
    ensures
        final(out)@ == old(out)@ + Seq::new(count as nat, |i: int| 0u8),
{
    let mut i: usize = 0;
    assert(out@ =~= old(out)@ + Seq::new(0, |i: int| 0u8));
    while i < count
        invariant
            i <= count,
            out@ == old(out)@ + Seq::new(i as nat, |i: int| 0u8),
        decreases count - i,
    {
        out.push(0);
        i += 1;
        assert(out@ =~= old(out)@ + Seq::new(i as nat, |i: int| 0u8));
    }
}

/// Numbers are written little-endian: the byte at place `i` counts 256 to the
/// `i`.
pub proof fn law_bytes_are_little_endian(x: u32)
    ensures
        le32(x).len() == 4,
        le32(x)[0] + 256 * le32(x)[1] + 65536 * le32(x)[2] + 16777216 * le32(x)[3] == x,
{
}

/// An eight-byte number has its lower half first.
pub proof fn law_long_has_its_lower_half_first(x: u64)
    ensures
        le64(x).len() == 8,
        le64(x).take(4) == le32((x % 0x1_0000_0000) as u32),
        le64(x).skip(4) == le32((x / 0x1_0000_0000) as u32),
{
    assert(le64(x).take(4) =~= le32((x % 0x1_0000_0000) as u32));
    assert(le64(x).skip(4) =~= le32((x / 0x1_0000_0000) as u32));
}

/// Numbers are read little-endian.
pub proof fn law_numbers_are_little_endian(s: Seq<u8>, at: int)
    ensures
        word_at(s, at) as int == s[at] + 256 * s[at + 1] + 65536 * s[at + 2] + 16777216 * s[at + 3],
        long_at(s, at) as int == word_at(s, at) + 0x1_0000_0000 * word_at(s, at + 4),
{
}

/// The bytes of several numbers stand one number after the other, and so they
/// are read.
pub proof fn law_numbers_stand_one_after_the_other(v: Seq<u32>, s: Seq<u8>, at: int, count: nat, i: int)
    ensures
        le_words(v).len() == 4 * v.len(),
        0 <= i < v.len() ==> le_words(v).subrange(4 * i, 4 * i + 4) == le32(v[i]),
        words_at(s, at, count).len() == count,
        0 <= i < count ==> words_at(s, at, count)[i] == word_at(s, at + 4 * i),
{
    if 0 <= i < v.len() {
        let part = le_words(v).subrange(4 * i, 4 * i + 4);
        assert forall|j: int| 0 <= j < 4 implies part[j] == le32(v[i])[j] by {
            assert((4 * i + j) / 4 == i && (4 * i + j) % 4 == j);
        }
        assert(part =~= le32(v[i]));
    }
}

} // verus!
