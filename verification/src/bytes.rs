//! Little-endian words and four-byte tags inside byte strings.
use vstd::prelude::*;

verus! {

/// The little-endian `u32` stored at `offset`.
pub open spec fn u32_le(data: Seq<u8>, offset: int) -> u32 {
    (data[offset] + 0x100 * data[offset + 1] + 0x1_0000 * data[offset + 2] + 0x100_0000
        * data[offset + 3]) as u32
}

/// Byte `i` of `word`, counted from the least significant.
#[verifier::opaque]
pub open spec fn le_byte(word: u32, i: int) -> u8 {
    if i == 0 {
        (word % 0x100) as u8
    } else if i == 1 {
        (word / 0x100 % 0x100) as u8
    } else if i == 2 {
        (word / 0x1_0000 % 0x100) as u8
    } else {
        (word / 0x100_0000) as u8
    }
}

/// The four bytes of `word`, least significant first.
pub open spec fn le_bytes(word: u32) -> Seq<u8> {
    Seq::new(4, |i: int| le_byte(word, i))
}

/// The low 32 bits of a length.
pub open spec fn low32(n: nat) -> u32 {
    (n % 0x1_0000_0000) as u32
}

/// The four bytes at `offset` spell the tag `a b c d`.
pub open spec fn has_tag(data: Seq<u8>, offset: int, a: char, b: char, c: char, d: char) -> bool {
    &&& data[offset] == a as u8
    &&& data[offset + 1] == b as u8
    &&& data[offset + 2] == c as u8
    &&& data[offset + 3] == d as u8
}

/// Reading a word back from where its bytes stand gives the word.
pub proof fn lemma_u32_le_of_le_bytes(data: Seq<u8>, offset: int, word: u32)
    requires
        0 <= offset,
        offset + 4 <= data.len(),
        data.subrange(offset, offset + 4) == le_bytes(word),
    ensures
        u32_le(data, offset) == word,
{
    reveal(le_byte);
    let b = data.subrange(offset, offset + 4);
    assert(b[0] == data[offset] && b[1] == data[offset + 1]);
    assert(b[2] == data[offset + 2] && b[3] == data[offset + 3]);
}

/// The bytes of a word read at `offset` are the bytes that stand there.
pub proof fn lemma_le_bytes_of_u32_le(data: Seq<u8>, offset: int)
    requires
        0 <= offset,
        offset + 4 <= data.len(),
    ensures
        le_bytes(u32_le(data, offset)) == data.subrange(offset, offset + 4),
{
    reveal(le_byte);
    let (a, b, c, d) = (data[offset], data[offset + 1], data[offset + 2], data[offset + 3]);
    let word = u32_le(data, offset);
    let upper = b + 0x100 * c + 0x1_0000 * d;
    assert(word as int == 0x100 * upper + a);
    assert(word as int / 0x100 == upper && word % 0x100 == a);
    assert(upper / 0x100 == c + 0x100 * d && upper % 0x100 == b);
    assert(word as int / 0x1_0000 == c + 0x100 * d);
    assert(word as int / 0x100_0000 == d);
    assert((c + 0x100 * d) % 0x100 == c as int);
    assert(le_bytes(word) =~= seq![a, b, c, d]);
    assert(seq![a, b, c, d] =~= data.subrange(offset, offset + 4));
}

/// A length that fits in 32 bits is its own low part.
pub proof fn lemma_low32(n: nat)
    requires
        n <= u32::MAX,
    ensures
        low32(n) == n,
{
}

/// The low 32 bits of `n`.
pub fn truncate32(n: usize) -> (word: u32)
    ensures
        word == low32(n as nat),
{
    (n as u64 % 0x1_0000_0000) as u32
}

/// Calls `mercs2_formats::ffcs::read_u32_le` and claims that it reads the little-endian word at
/// `offset`. It panics where the word does not fit in `data`.
#[verifier::external_body]
pub(crate) fn read_u32_le(data: &[u8], offset: usize) -> (word: u32)
    requires
        offset + 4 <= data@.len(),
    ensures
        word == u32_le(data@, offset as int),
{
    mercs2_formats::ffcs::read_u32_le(data, offset)
}

/// Whether the four bytes at `offset` spell the tag `a b c d`.
pub fn tag_at(data: &[u8], offset: usize, a: char, b: char, c: char, d: char) -> (found: bool)
    requires
        offset + 4 <= data@.len(),
    ensures
        found == has_tag(data@, offset as int, a, b, c, d),
{
    data[offset] == a as u8 && data[offset + 1] == b as u8 && data[offset + 2] == c as u8
        && data[offset + 3] == d as u8
}

/// Append the four bytes of `word`, least significant first.
pub fn push_u32_le(out: &mut Vec<u8>, word: u32)
    ensures
        final(out)@ == old(out)@ + le_bytes(word),
{
    out.push((word % 0x100) as u8);
    out.push((word / 0x100 % 0x100) as u8);
    out.push((word / 0x1_0000 % 0x100) as u8);
    out.push((word / 0x100_0000) as u8);
    proof {
        reveal(le_byte);
        assert(out@ =~= old(out)@ + le_bytes(word));
    }
}

/// Append every byte of `data`.
pub fn push_bytes(out: &mut Vec<u8>, data: &[u8])
    ensures
        final(out)@ == old(out)@ + data@,
{
    out.extend_from_slice(data);
    assert(out@ =~= old(out)@ + data@);
}

/// A stored word is worth the sum of its bytes, each worth 256 times the one before it.
pub proof fn law_word_value(data: Seq<u8>, offset: int)
    requires
        0 <= offset,
        offset + 4 <= data.len(),
    ensures
        u32_le(data, offset) as int == data[offset] + 256 * (data[offset + 1] + 256 * (data[offset
            + 2] + 256 * data[offset + 3])),
{
}

/// The bytes of a word are four, and are worth the word.
pub proof fn law_bytes_of_word(word: u32)
    ensures
        le_bytes(word).len() == 4,
        word as int == le_bytes(word)[0] + 256 * (le_bytes(word)[1] + 256 * (le_bytes(word)[2] + 256
            * le_bytes(word)[3])),
{
    let b = le_bytes(word);
    assert(b.subrange(0, 4) =~= b);
    lemma_u32_le_of_le_bytes(b, 0, word);
}

/// The low part of a length differs from it by whole multiples of 2^32.
pub proof fn law_low_part(n: nat)
    ensures
        low32(n) <= n,
        (n - low32(n)) % 0x1_0000_0000 == 0,
{
}

/// A tag stands where its four bytes stand.
pub proof fn law_tag(data: Seq<u8>, offset: int, a: char, b: char, c: char, d: char)
    requires
        0 <= offset,
        offset + 4 <= data.len(),
    ensures
        has_tag(data, offset, a, b, c, d) <==> data.subrange(offset, offset + 4) == seq![
            a as u8,
            b as u8,
            c as u8,
            d as u8,
        ],
{
    let here = data.subrange(offset, offset + 4);
    let tag = seq![a as u8, b as u8, c as u8, d as u8];
    if has_tag(data, offset, a, b, c, d) {
        assert(here =~= tag);
    } else if here == tag {
        assert(here[0] == tag[0] && here[1] == tag[1] && here[2] == tag[2] && here[3] == tag[3]);
    }
}

} // verus!
