//! What the bytes of numbers are.
use crate::bytes::{
    bytes_of, halves, i32_at, i32_bytes, joined, lemma_bytes_of_word, word_at, words_of,
};
use vstd::prelude::*;

verus! {

/// The number whose base-256 digits are `bytes`, the least significant one first.
pub open spec fn le_number(bytes: Seq<u8>) -> int
    decreases bytes.len(),
{
    if bytes.len() == 0 {
        0
    } else {
        bytes[0] + 256 * le_number(bytes.drop_first())
    }
}

/// Four digits, written out.
pub proof fn lemma_four_digits(bytes: Seq<u8>)
    requires
        bytes.len() == 4,
    ensures
        le_number(bytes) == bytes[0] + 0x100 * bytes[1] + 0x1_0000 * bytes[2] + 0x100_0000
            * bytes[3],
        0 <= le_number(bytes) < 0x1_0000_0000,
{
    reveal_with_fuel(le_number, 5);
}

/// Eight digits are four low ones and four high ones.
pub proof fn lemma_eight_digits(bytes: Seq<u8>)
    requires
        bytes.len() == 8,
    ensures
        le_number(bytes) == le_number(bytes.take(4)) + 0x1_0000_0000 * le_number(bytes.skip(4)),
        0 <= le_number(bytes) < 0x1_0000_0000_0000_0000,
{
    let low = bytes.take(4);
    let high = bytes.skip(4);
    lemma_four_digits(low);
    lemma_four_digits(high);
    reveal_with_fuel(le_number, 5);
    let b4 = bytes.drop_first().drop_first().drop_first().drop_first();
    assert(b4 =~= high);
    assert(bytes.drop_first()[0] == bytes[1]);
    assert(bytes.drop_first().drop_first()[0] == bytes[2]);
    assert(bytes.drop_first().drop_first().drop_first()[0] == bytes[3]);
    let n3 = le_number(bytes.drop_first().drop_first().drop_first());
    assert(n3 == bytes[3] + 256 * le_number(b4));
    let n2 = le_number(bytes.drop_first().drop_first());
    assert(n2 == bytes[2] + 256 * n3);
    let n1 = le_number(bytes.drop_first());
    assert(n1 == bytes[1] + 256 * n2);
    assert(le_number(bytes) == bytes[0] + 256 * n1);
}

/// A word that is read from four bytes is the number whose base-256 digits they are.
pub proof fn word_has_its_bytes_as_digits(bytes: Seq<u8>, at: int)
    requires
        0 <= at,
        at + 4 <= bytes.len(),
    ensures
        word_at(bytes, at) == le_number(bytes.subrange(at, at + 4)),
{
    lemma_four_digits(bytes.subrange(at, at + 4));
}

/// A byte string is read as its whole groups of four bytes, in order.
pub proof fn words_are_groups_of_four_bytes(bytes: Seq<u8>)
    ensures
        words_of(bytes).len() == bytes.len() / 4,
        forall|i: int|
            0 <= i < bytes.len() / 4 ==> #[trigger] words_of(bytes)[i] == le_number(
                bytes.subrange(4 * i, 4 * i + 4),
            ),
{
    assert forall|i: int| 0 <= i < bytes.len() / 4 implies #[trigger] words_of(bytes)[i]
        == le_number(bytes.subrange(4 * i, 4 * i + 4)) by {
        word_has_its_bytes_as_digits(bytes, 4 * i);
    }
}

/// Words are written in order, each as the four base-256 digits that it has.
pub proof fn words_are_written_as_digits(words: Seq<u32>)
    ensures
        bytes_of(words).len() == 4 * words.len(),
        forall|i: int|
            0 <= i < words.len() ==> le_number(bytes_of(words).subrange(4 * i, 4 * i + 4))
                == #[trigger] words[i],
{
    assert forall|i: int| 0 <= i < words.len() implies le_number(
        bytes_of(words).subrange(4 * i, 4 * i + 4),
    ) == #[trigger] words[i] by {
        lemma_bytes_of_word(words, i);
        word_has_its_bytes_as_digits(bytes_of(words), 4 * i);
    }
}

/// The halves of a number are the remainder and the quotient by `2^32`, in this order, and
/// joining two words in this order undoes it.
pub proof fn halves_are_low_and_high(x: u64, low: u32, high: u32)
    ensures
        halves(x).len() == 2,
        halves(x)[0] + 0x1_0000_0000 * halves(x)[1] == x,
        joined(low, high) == low + 0x1_0000_0000 * high,
{
}

proof fn lemma_twos_complement(word: u32, value: i32)
    ensures
        word < 0x8000_0000 ==> (word as i32) as int == word,
        word >= 0x8000_0000 ==> (word as i32) as int == word - 0x1_0000_0000,
        value >= 0 ==> (value as u32) as int == value,
        value < 0 ==> (value as u32) as int == value + 0x1_0000_0000,
{
    assert(word < 0x8000_0000u32 ==> (word as i32) as i64 == word as i64) by (bit_vector);
    assert(word >= 0x8000_0000u32 ==> (word as i32) as i64 == word as i64 - 0x1_0000_0000i64)
        by (bit_vector);
    assert(value >= 0i32 ==> (value as u32) as i64 == value as i64) by (bit_vector);
    assert(value < 0i32 ==> (value as u32) as i64 == value as i64 + 0x1_0000_0000i64)
        by (bit_vector);
}

/// A signed number is read from four bytes as the number whose digits they are, less `2^32`
/// from `2^31` on.
pub proof fn signed_number_is_read_in_twos_complement(bytes: Seq<u8>, at: int)
    requires
        0 <= at,
        at + 4 <= bytes.len(),
    ensures
        i32_at(bytes, at) >= 0 ==> le_number(bytes.subrange(at, at + 4)) == i32_at(bytes, at),
        i32_at(bytes, at) < 0 ==> le_number(bytes.subrange(at, at + 4)) == i32_at(bytes, at)
            + 0x1_0000_0000,
{
    word_has_its_bytes_as_digits(bytes, at);
    lemma_twos_complement(word_at(bytes, at), 0);
}

/// Signed numbers are written in order, each as the four digits of the number itself, or of
/// the number plus `2^32` where it is negative.
pub proof fn signed_numbers_are_written_in_twos_complement(values: Seq<i32>)
    ensures
        i32_bytes(values).len() == 4 * values.len(),
        forall|i: int|
            0 <= i < values.len() ==> le_number(i32_bytes(values).subrange(4 * i, 4 * i + 4))
                == if #[trigger] values[i] >= 0 {
                values[i] as int
            } else {
                values[i] + 0x1_0000_0000
            },
{
    let words = Seq::new(values.len(), |i: int| values[i] as u32);
    words_are_written_as_digits(words);
    assert forall|i: int| 0 <= i < values.len() implies le_number(
        i32_bytes(values).subrange(4 * i, 4 * i + 4),
    ) == if #[trigger] values[i] >= 0 {
        values[i] as int
    } else {
        values[i] + 0x1_0000_0000
    } by {
        assert(words[i] == values[i] as u32);
        lemma_twos_complement(0, values[i]);
    }
}

} // verus!
