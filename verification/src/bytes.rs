//! Little-endian words in byte buffers.

use vstd::prelude::*;

verus! {

/// The four bytes of a word, lowest first.
pub open spec fn le32(x: u32) -> Seq<u8> {
    seq![
        (x % 256) as u8,
        (x / 256 % 256) as u8,
        (x / 65536 % 256) as u8,
        (x / 16777216) as u8,
    ]
}

/// The word at offset `at`.
pub open spec fn word(b: Seq<u8>, at: int) -> u32 {
    (b[at] + b[at + 1] * 256 + b[at + 2] * 65536 + b[at + 3] * 16777216) as u32
}

/// The bytes of a run of words.
pub open spec fn words_bytes(s: Seq<u32>) -> Seq<u8>
    decreases s.len(),
{
    if s.len() == 0 {
        Seq::empty()
    } else {
        words_bytes(s.drop_last()) + le32(s.last())
    }
}

/// The bytes `part` stand in `b` at offset `at`.
pub open spec fn holds_at(b: Seq<u8>, at: int, part: Seq<u8>) -> bool {
    &&& 0 <= at
    &&& at + part.len() <= b.len()
    &&& forall|i: int| 0 <= i < part.len() ==> #[trigger] b[at + i] == part[i]
}

/// Reading back a word gives the word that was written.
pub proof fn lemma_word_of_le32(b: Seq<u8>, at: int, x: u32)
    requires
        holds_at(b, at, le32(x)),
    ensures
        word(b, at) == x,
{
    let p = le32(x);
    assert(b[at + 0] == p[0]);
    assert(b[at + 1] == p[1]);
    assert(b[at + 2] == p[2]);
    assert(b[at + 3] == p[3]);
    assert(x == x % 256 + (x / 256 % 256) * 256 + (x / 65536 % 256) * 65536 + (x / 16777216) * 16777216) by {
        assert(x / 65536 == x / 256 / 256);
        assert(x / 16777216 == x / 65536 / 256);
    }
}

/// A part of a part stands where the whole puts it.
pub proof fn lemma_holds_split(b: Seq<u8>, at: int, p: Seq<u8>, q: Seq<u8>)
    requires
        holds_at(b, at, p + q),
    ensures
        holds_at(b, at, p),
        holds_at(b, at + p.len(), q),
{
    assert forall|i: int| 0 <= i < p.len() implies #[trigger] b[at + i] == p[i] by {
        assert((p + q)[i] == p[i]);
    }
    assert forall|i: int| 0 <= i < q.len() implies #[trigger] b[at + p.len() + i] == q[i] by {
        assert((p + q)[p.len() + i] == q[i]);
        assert(b[at + (p.len() + i)] == q[i]);
    }
}

pub proof fn lemma_words_len(s: Seq<u32>)
    ensures
        words_bytes(s).len() == 4 * s.len(),
    decreases s.len(),
{
    if s.len() > 0 {
        lemma_words_len(s.drop_last());
    }
}

/// Word number `i` of a run of words can be read back.
pub proof fn lemma_word_in_run(b: Seq<u8>, at: int, s: Seq<u32>, i: int)
    requires
        holds_at(b, at, words_bytes(s)),
        0 <= i < s.len(),
    ensures
        word(b, at + 4 * i) == s[i],
    decreases s.len(),
{
    let p = words_bytes(s.drop_last());
    lemma_words_len(s.drop_last());
    lemma_holds_split(b, at, p, le32(s.last()));
    if i == s.len() - 1 {
        lemma_word_of_le32(b, at + p.len(), s.last());
    } else {
        lemma_word_in_run(b, at, s.drop_last(), i);
    }
}

/// Add the bytes of a word.
pub fn push_u32(out: &mut Vec<u8>, x: u32)
    ensures
        final(out)@ == old(out)@ + le32(x),
{
    out.push((x % 256) as u8);
    out.push((x / 256 % 256) as u8);
    out.push((x / 65536 % 256) as u8);
    out.push((x / 16777216) as u8);
    assert(out@ =~= old(out)@ + le32(x));
}

/// Add the bytes of a run of words.
pub fn push_words(out: &mut Vec<u8>, s: &Vec<u32>)
    ensures
        final(out)@ == old(out)@ + words_bytes(s@),
{
    let ghost was = out@;
    let mut i: usize = 0;
    assert(s@.subrange(0, 0) =~= Seq::empty());
    assert(out@ =~= was + words_bytes(Seq::empty()));
    while i < s.len()
        invariant
            i <= s.len(),
            out@ == was + words_bytes(s@.subrange(0, i as int)),
        decreases s.len() - i,
    {
        let ghost next = s@.subrange(0, i + 1);
        assert(next.drop_last() =~= s@.subrange(0, i as int));
        push_u32(out, s[i]);
        assert(out@ =~= was + words_bytes(next));
        i = i + 1;
    }
    assert(s@.subrange(0, s.len() as int) =~= s@);
}

/// The word at an offset.
pub fn word_at(b: &[u8], at: usize) -> (r: u32)
    requires
        at + 4 <= b.len(),
    ensures
        r == word(b@, at as int),
{
    b[at] as u32 + b[at + 1] as u32 * 256 + b[at + 2] as u32 * 65536 + b[at + 3] as u32 * 16777216
}

/// Add the first `n` bytes of a slice.
pub fn push_bytes(out: &mut Vec<u8>, s: &[u8], n: usize)
    requires
        n <= s.len(),
    ensures
        final(out)@ == old(out)@ + s@.subrange(0, n as int),
{
    let ghost was = out@;
    let mut i: usize = 0;
    while i < n
        invariant
            i <= n <= s.len(),
            out@ =~= was + s@.subrange(0, i as int),
        decreases n - i,
    {
        out.push(s[i]);
        i = i + 1;
    }
}

/// Words are stored with the lowest byte first: each byte counts 256 times as much as the
/// one before it, in what is written and in what is read.
pub proof fn law_lowest_byte_comes_first(b: Seq<u8>, at: int, x: u32)
    ensures
        le32(x).len() == 4,
        le32(x)[0] == x % 256,
        le32(x)[0] + 256 * (le32(x)[1] + 256 * (le32(x)[2] + 256 * le32(x)[3])) == x,
        word(b, at) == b[at] + 256 * (b[at + 1] + 256 * (b[at + 2] + 256 * b[at + 3])),
{
    assert(x / 65536 == x / 256 / 256);
    assert(x / 16777216 == x / 65536 / 256);
}

/// Word number `i` of a run takes the four bytes from `4 * i` on.
pub proof fn law_run_of_words(s: Seq<u32>, i: int)
    requires
        0 <= i < s.len(),
    ensures
        words_bytes(s).len() == 4 * s.len(),
        words_bytes(s).subrange(4 * i, 4 * i + 4) == le32(s[i]),
    decreases s.len(),
{
    lemma_words_len(s);
    lemma_words_len(s.drop_last());
    let before = words_bytes(s.drop_last());
    if i < s.len() - 1 {
        law_run_of_words(s.drop_last(), i);
        assert(words_bytes(s).subrange(4 * i, 4 * i + 4) =~= before.subrange(4 * i, 4 * i + 4));
    } else {
        assert(words_bytes(s).subrange(4 * i, 4 * i + 4) =~= le32(s.last()));
    }
}

} // verus!
