//! Word-aligned binary encoding of a dynamic array of unsigned integers:
//! big-endian 32-byte words holding the offset of the array data, the
//! element count, then each element right-aligned in its own word.
use vstd::prelude::*;

verus! {

/// Bytes in one word of the encoding.
pub const WORD_BYTES: usize = 32;

/// Byte offset of the array data from the start of the encoding: it follows
/// the offset word itself.
pub const DATA_OFFSET: u64 = 32;

/// `x` as a 32-byte big-endian word: 24 zero bytes, then the eight bytes of
/// `x`, most significant first.
pub open spec fn word_of(x: u64) -> Seq<u8> {
    Seq::new(32, |i: int| if i < 24 { 0u8 } else { (x >> ((8 * (31 - i)) as u64)) as u8 })
}

/// The words of `xs`, one after another.
pub open spec fn words_of(xs: Seq<u64>) -> Seq<u8>
    decreases xs.len(),
{
    if xs.len() == 0 {
        Seq::empty()
    } else {
        words_of(xs.drop_last()) + word_of(xs.last())
    }
}

/// The encoding of `xs`: the offset word (32), the count word, the elements.
pub open spec fn array_encoding(xs: Seq<u64>) -> Seq<u8> {
    word_of(32) + word_of(xs.len() as u64) + words_of(xs)
}

proof fn lemma_words_len(xs: Seq<u64>)
    ensures
        words_of(xs).len() == 32 * xs.len(),
    decreases xs.len(),
{
    if xs.len() > 0 {
        lemma_words_len(xs.drop_last());
    }
}

/// The `i`-th element stands in the word that begins at byte `32 * (2 + i)`.
pub proof fn lemma_element_word(xs: Seq<u64>, i: int)
    requires
        0 <= i < xs.len(),
    ensures
        array_encoding(xs).subrange(32 * (2 + i), 32 * (3 + i)) == word_of(xs[i]),
    decreases xs.len(),
{
    lemma_words_len(xs);
    lemma_words_len(xs.drop_last());
    let e = array_encoding(xs);
    if i == xs.len() - 1 {
        assert(e.subrange(32 * (2 + i), 32 * (3 + i)) =~= word_of(xs[i]));
    } else {
        lemma_element_word(xs.drop_last(), i);
        let d = array_encoding(xs.drop_last());
        assert(e.subrange(32 * (2 + i), 32 * (3 + i)) =~= d.subrange(32 * (2 + i), 32 * (3 + i)));
    }
}

/// The number in a word whose first 24 bytes are zero: its last eight
/// bytes read big-endian.
pub open spec fn word_value(w: Seq<u8>) -> u64 {
    ((w[24] as u64) << 56u64) | ((w[25] as u64) << 48u64) | ((w[26] as u64) << 40u64) | ((
    w[27] as u64) << 32u64) | ((w[28] as u64) << 24u64) | ((w[29] as u64) << 16u64) | ((
    w[30] as u64) << 8u64) | (w[31] as u64)
}

/// Whether the first 24 bytes of a word are zero, as they are for any
/// number below 2^64.
pub open spec fn high_bytes_zero(w: Seq<u8>) -> bool {
    forall|i: int| 0 <= i < 24 ==> w[i] == 0
}

/// A word read back gives the number it was made from.
pub proof fn lemma_word_round_trip(x: u64)
    ensures
        word_of(x).len() == 32,
        high_bytes_zero(word_of(x)),
        word_value(word_of(x)) == x,
{
    let w = word_of(x);
    assert(w[24] == (x >> 56u64) as u8);
    assert(w[25] == (x >> 48u64) as u8);
    assert(w[26] == (x >> 40u64) as u8);
    assert(w[27] == (x >> 32u64) as u8);
    assert(w[28] == (x >> 24u64) as u8);
    assert(w[29] == (x >> 16u64) as u8);
    assert(w[30] == (x >> 8u64) as u8);
    assert(w[31] == (x >> 0u64) as u8);
    assert(x == (((x >> 56u64) as u8 as u64) << 56u64) | (((x >> 48u64) as u8 as u64) << 48u64)
        | (((x >> 40u64) as u8 as u64) << 40u64) | (((x >> 32u64) as u8 as u64) << 32u64) | (((x
        >> 24u64) as u8 as u64) << 24u64) | (((x >> 16u64) as u8 as u64) << 16u64) | (((x
        >> 8u64) as u8 as u64) << 8u64) | ((x >> 0u64) as u8 as u64)) by (bit_vector);
}

/// Decoding the encoding of `xs` as a dynamic array gives `xs` back: the
/// first word holds the offset 32, the word at that offset the count, and
/// the words after it the elements in order, each with zero high bytes.
pub proof fn lemma_array_round_trip(xs: Seq<u64>)
    requires
        xs.len() <= u64::MAX,
    ensures
        array_encoding(xs).len() == 32 * (2 + xs.len()),
        word_value(array_encoding(xs).subrange(0, 32)) == 32,
        word_value(array_encoding(xs).subrange(32, 64)) == xs.len(),
        forall|i: int|
            0 <= i < xs.len() ==> high_bytes_zero(
                #[trigger] array_encoding(xs).subrange(32 * (2 + i), 32 * (3 + i)),
            ) && word_value(array_encoding(xs).subrange(32 * (2 + i), 32 * (3 + i))) == xs[i],
{
    let e = array_encoding(xs);
    lemma_words_len(xs);
    lemma_word_round_trip(32);
    lemma_word_round_trip(xs.len() as u64);
    assert(e.subrange(0, 32) =~= word_of(32));
    assert(e.subrange(32, 64) =~= word_of(xs.len() as u64));
    assert forall|i: int| 0 <= i < xs.len() implies high_bytes_zero(
        #[trigger] e.subrange(32 * (2 + i), 32 * (3 + i)),
    ) && word_value(e.subrange(32 * (2 + i), 32 * (3 + i))) == xs[i] by {
        lemma_element_word(xs, i);
        lemma_word_round_trip(xs[i]);
    }
}

/// Appends the word of `x` to `out`.
fn push_word(out: &mut Vec<u8>, x: u64)
    ensures
        final(out)@ == old(out)@ + word_of(x),
{
    let ghost start = out@;
    let mut k: usize = 0;
    while k < 24
        invariant
            0 <= k <= 24,
            out@ == start + word_of(x).take(k as int),
        decreases 24 - k,
    {
        out.push(0u8);
        assert(word_of(x).take(k + 1) =~= word_of(x).take(k as int).push(0u8));
        k = k + 1;
    }
    let mut j: u64 = 0;
    while j < 8
        invariant
            0 <= j <= 8,
            out@ == start + word_of(x).take(24 + j),
        decreases 8 - j,
    {
        let b = (x >> (8 * (7 - j))) as u8;
        assert(b == word_of(x)[24 + j]);
        assert(word_of(x).take(24 + j + 1) =~= word_of(x).take(24 + j).push(b));
        out.push(b);
        j = j + 1;
    }
    assert(word_of(x).take(32) =~= word_of(x));
}

/// Encodes `values` for a consumer that decodes a dynamic array of unsigned
/// integers: `32 * (2 + values.len())` bytes, laid out as `array_encoding`.
pub fn encode_uint_array(values: &Vec<u64>) -> (r: Vec<u8>)
    requires
        values.len() <= u64::MAX,
    ensures
        r@ == array_encoding(values@),
        r@.len() == 32 * (2 + values.len()),
{
    let mut out: Vec<u8> = Vec::new();
    push_word(&mut out, DATA_OFFSET);
    push_word(&mut out, values.len() as u64);
    let mut i: usize = 0;
    while i < values.len()
        invariant
            0 <= i <= values.len(),
            values.len() <= u64::MAX,
            out@ == word_of(32) + word_of(values@.len() as u64) + words_of(values@.take(i as int)),
        decreases values.len() - i,
    {
        assert(values@.take(i + 1).drop_last() =~= values@.take(i as int));
        push_word(&mut out, values[i]);
        assert(out@ =~= word_of(32) + word_of(values@.len() as u64) + words_of(values@.take(i + 1)));
        i = i + 1;
    }
    assert(values@.take(i as int) =~= values@);
    proof {
        lemma_words_len(values@);
    }
    out
}

} // verus!
