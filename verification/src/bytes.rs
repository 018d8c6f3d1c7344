//! Little-endian words in byte strings.
use vstd::prelude::*;

verus! {

/// The four bytes of a word, the lowest first.
pub open spec fn word_bytes(x: u32) -> Seq<u8> {
    seq![
        (x % 0x100) as u8,
        (x / 0x100 % 0x100) as u8,
        (x / 0x1_0000 % 0x100) as u8,
        (x / 0x100_0000) as u8,
    ]
}

/// The word whose bytes start at `at`.
pub open spec fn word_at(bytes: Seq<u8>, at: int) -> u32 {
    (bytes[at] + bytes[at + 1] * 0x100 + bytes[at + 2] * 0x1_0000 + bytes[at + 3]
        * 0x100_0000) as u32
}

/// The bytes of `words`, one word after the other.
pub open spec fn words_bytes(words: Seq<u32>) -> Seq<u8> {
    Seq::new(4 * words.len(), |i: int| word_bytes(words[i / 4])[i % 4])
}

/// A word is read back from its bytes.
pub proof fn lemma_word_read_back(x: u32)
    ensures
        word_at(word_bytes(x), 0) == x,
        word_bytes(x).len() == 4,
{
}

/// Words are read back from their bytes, wherever those stand.
pub proof fn lemma_words_read_back(words: Seq<u32>, bytes: Seq<u8>, start: int, k: int)
    requires
        0 <= start,
        start + 4 * words.len() <= bytes.len(),
        bytes.subrange(start, start + 4 * words.len()) == words_bytes(words),
        0 <= k < words.len(),
    ensures
        word_at(bytes, start + 4 * k) == words[k],
{
    let part = words_bytes(words);
    assert forall|c: int| 0 <= c < 4 implies #[trigger] bytes[start + 4 * k + c] == word_bytes(
        words[k],
    )[c] by {
        assert(part[4 * k + c] == bytes.subrange(start, start + 4 * words.len())[4 * k + c]);
        assert((4 * k + c) / 4 == k);
        assert((4 * k + c) % 4 == c);
    }
    assert(bytes[start + 4 * k + 0] == word_bytes(words[k])[0]);
    assert(bytes[start + 4 * k + 1] == word_bytes(words[k])[1]);
    assert(bytes[start + 4 * k + 2] == word_bytes(words[k])[2]);
    assert(bytes[start + 4 * k + 3] == word_bytes(words[k])[3]);
    lemma_word_read_back(words[k]);
}

/// Appends the bytes of a word.
pub fn push_word(out: &mut Vec<u8>, x: u32)
    ensures
        final(out)@ == old(out)@ + word_bytes(x),
{
    out.push((x % 0x100) as u8);
    out.push((x / 0x100 % 0x100) as u8);
    out.push((x / 0x1_0000 % 0x100) as u8);
    out.push((x / 0x100_0000) as u8);
    assert(out@ =~= old(out)@ + word_bytes(x));
}

/// Appends `bytes`.
pub fn push_bytes(out: &mut Vec<u8>, bytes: &Vec<u8>)
    ensures
        final(out)@ == old(out)@ + bytes@,
{
    let mut i: usize = 0;
    while i < bytes.len()
        invariant
            i <= bytes@.len(),
            out@ == old(out)@ + bytes@.take(i as int),
        decreases bytes@.len() - i,
    {
        out.push(bytes[i]);
        i = i + 1;
        assert(out@ =~= old(out)@ + bytes@.take(i as int));
    }
    assert(bytes@.take(i as int) =~= bytes@);
}

/// The word whose bytes start at `at`.
pub fn read_word(bytes: &[u8], at: usize) -> (word: u32)
    requires
        at + 4 <= bytes@.len(),
    ensures
        word == word_at(bytes@, at as int),
{
    bytes[at] as u32 + bytes[at + 1] as u32 * 0x100 + bytes[at + 2] as u32 * 0x1_0000 + bytes[at
        + 3] as u32 * 0x100_0000
}

/// The `len` bytes from `at` on.
pub fn copy_bytes(bytes: &[u8], at: usize, len: usize) -> (part: Vec<u8>)
    requires
        at + len <= bytes@.len(),
    ensures
        part@ == bytes@.subrange(at as int, at + len),
{
    let mut part: Vec<u8> = Vec::new();
    let mut i: usize = 0;
    while i < len
        invariant
            i <= len,
            at + len <= bytes.len(),
            part@ == bytes@.subrange(at as int, at + i),
        decreases len - i,
    {
        part.push(bytes[at + i]);
        i = i + 1;
        assert(part@ =~= bytes@.subrange(at as int, at + i));
    }
    part
}

/// `bytes` followed by as many zeros as make its length a multiple of four, and
/// four at the least.
pub open spec fn padded_of(bytes: Seq<u8>) -> Seq<u8> {
    let len = if bytes.len() < 4 {
        4
    } else {
        (bytes.len() + 3) / 4 * 4
    };
    Seq::new(
        len as nat,
        |i: int|
            if i < bytes.len() {
                bytes[i]
            } else {
                0u8
            },
    )
}

/// `bytes` as the graphics device takes them: in multiples of four, and never
/// none.
pub fn padded(bytes: &[u8]) -> (out: Vec<u8>)
    requires
        bytes@.len() + 3 <= usize::MAX,
    ensures
        out@ == padded_of(bytes@),
        out@.len() % 4 == 0,
        out@.len() >= 4,
{
    let mut out: Vec<u8> = copy_bytes(bytes, 0, bytes.len());
    assert(out@ =~= bytes@);
    while out.len() < 4 || out.len() % 4 != 0
        invariant
            bytes.len() + 3 <= usize::MAX,
            bytes@.len() <= out@.len() <= padded_of(bytes@).len(),
            forall|i: int| 0 <= i < out@.len() ==> #[trigger] out@[i] == padded_of(bytes@)[i],
        decreases padded_of(bytes@).len() - out@.len(),
    {
        out.push(0);
    }
    assert(out@ =~= padded_of(bytes@));
    out
}

/// A word counts its bytes with the lowest first.
pub proof fn lemma_low_byte_first(x: u32, bytes: Seq<u8>, at: int)
    requires
        0 <= at,
        at + 4 <= bytes.len(),
    ensures
        word_bytes(x).len() == 4,
        x == word_bytes(x)[0] + 256 * word_bytes(x)[1] + 65_536 * word_bytes(x)[2] + 16_777_216
            * word_bytes(x)[3],
        word_at(bytes, at) == bytes[at] + 256 * bytes[at + 1] + 65_536 * bytes[at + 2]
            + 16_777_216 * bytes[at + 3],
{
}

/// What is padded starts with what it was, goes on with zeros, and is no longer than a
/// multiple of four has to be.
pub proof fn lemma_padded_by_zeros(bytes: Seq<u8>, i: int)
    ensures
        ({
            let out = padded_of(bytes);
            &&& out.len() % 4 == 0
            &&& out.len() >= 4
            &&& bytes.len() <= out.len()
            &&& out.len() == 4 || out.len() < bytes.len() + 4
            &&& 0 <= i < bytes.len() ==> out[i] == bytes[i]
            &&& bytes.len() <= i < out.len() ==> out[i] == 0
        }),
{
}

} // verus!
