//! Little-endian words in byte strings.
use vstd::prelude::*;

verus! {

/// Byte `k` of `word`, counted from the least significant one.
pub open spec fn byte_of(word: u32, k: int) -> u8 {
    if k == 0 {
        (word % 256) as u8
    } else if k == 1 {
        ((word / 256) % 256) as u8
    } else if k == 2 {
        ((word / 65536) % 256) as u8
    } else {
        (word / 16777216) as u8
    }
}

/// The word whose four little-endian bytes start at `at`.
pub open spec fn word_at(bytes: Seq<u8>, at: int) -> u32 {
    (bytes[at] + 256 * bytes[at + 1] + 65536 * bytes[at + 2] + 16777216 * bytes[at + 3]) as u32
}

/// The words of `bytes`, four bytes each; up to three trailing bytes are left over.
pub open spec fn words_of(bytes: Seq<u8>) -> Seq<u32> {
    Seq::new((bytes.len() / 4) as nat, |i: int| word_at(bytes, 4 * i))
}

/// The little-endian bytes of `words`, one word after the other.
pub open spec fn bytes_of(words: Seq<u32>) -> Seq<u8> {
    Seq::new(4 * words.len(), |i: int| byte_of(words[i / 4], i % 4))
}

/// The low and the high half of `x`.
pub open spec fn halves(x: u64) -> Seq<u32> {
    seq![(x % 0x1_0000_0000) as u32, (x / 0x1_0000_0000) as u32]
}

/// The number whose low and high halves are given.
pub open spec fn joined(low: u32, high: u32) -> u64 {
    (low + 0x1_0000_0000 * high) as u64
}

/// The bytes of signed numbers, four little-endian bytes each in two's complement.
pub open spec fn i32_bytes(values: Seq<i32>) -> Seq<u8> {
    bytes_of(Seq::new(values.len(), |i: int| values[i] as u32))
}

/// The signed number whose four bytes start at `at`.
pub open spec fn i32_at(bytes: Seq<u8>, at: int) -> i32 {
    word_at(bytes, at) as i32
}

/// The bytes of signed numbers are four for each, and give the numbers back.
pub proof fn i32_bytes_are_read_back(values: Seq<i32>)
    ensures
        i32_bytes(values).len() == 4 * values.len(),
        forall|i: int|
            0 <= i < values.len() ==> i32_at(i32_bytes(values), 4 * i) == #[trigger] values[i],
{
    let words = Seq::new(values.len(), |i: int| values[i] as u32);
    assert forall|i: int| 0 <= i < values.len() implies i32_at(i32_bytes(values), 4 * i)
        == #[trigger] values[i] by {
        lemma_bytes_of_word(words, i);
        let v = values[i];
        assert((v as u32) as i32 == v) by (bit_vector);
    }
}

/// The four bytes of a word give the word back.
pub proof fn lemma_bytes_of_word(words: Seq<u32>, i: int)
    requires
        0 <= i < words.len(),
    ensures
        word_at(bytes_of(words), 4 * i) == words[i],
{
    let b = bytes_of(words);
    assert(b[4 * i] == byte_of(words[i], 0));
    assert(b[4 * i + 1] == byte_of(words[i], 1));
    assert(b[4 * i + 2] == byte_of(words[i], 2));
    assert(b[4 * i + 3] == byte_of(words[i], 3));
}

/// Words written as bytes are read back, whatever bytes follow them.
pub proof fn words_survive_bytes(words: Seq<u32>, tail: Seq<u8>)
    requires
        tail.len() < 4,
    ensures
        words_of(bytes_of(words) + tail) == words,
{
    let b = bytes_of(words) + tail;
    assert forall|i: int| 0 <= i < words.len() implies words_of(b)[i] == words[i] by {
        lemma_bytes_of_word(words, i);
        assert(word_at(b, 4 * i) == word_at(bytes_of(words), 4 * i));
    }
    assert(words_of(b) =~= words);
}

/// Writing one more word appends its four bytes.
pub proof fn lemma_bytes_of_push(words: Seq<u32>, word: u32)
    ensures
        bytes_of(words.push(word)) == bytes_of(words) + seq![
            byte_of(word, 0),
            byte_of(word, 1),
            byte_of(word, 2),
            byte_of(word, 3),
        ],
{
    assert(bytes_of(words.push(word)) =~= bytes_of(words) + seq![
        byte_of(word, 0),
        byte_of(word, 1),
        byte_of(word, 2),
        byte_of(word, 3),
    ]);
}

/// Reads the word that starts at `at`.
pub fn read_word(bytes: &[u8], at: usize) -> (word: u32)
    requires
        at + 4 <= bytes@.len(),
    ensures
        word == word_at(bytes@, at as int),
{
    bytes[at] as u32 + 256 * (bytes[at + 1] as u32) + 65536 * (bytes[at + 2] as u32) + 16777216 * (
    bytes[at + 3] as u32)
}

/// Appends the bytes of `word`.
pub fn write_word(out: &mut Vec<u8>, word: u32)
    ensures
        final(out)@ == old(out)@ + bytes_of(seq![word]),
{
    let ghost before = out@;
    out.push((word % 256) as u8);
    out.push(((word / 256) % 256) as u8);
    out.push(((word / 65536) % 256) as u8);
    out.push((word / 16777216) as u8);
    assert(out@ =~= before + bytes_of(seq![word]));
}

/// Splits `bytes` into words; up to three trailing bytes are ignored.
pub fn read_words(bytes: &[u8]) -> (words: Vec<u32>)
    ensures
        words@ == words_of(bytes@),
{
    let n: usize = bytes.len() / 4;
    let mut words: Vec<u32> = Vec::with_capacity(n);
    let mut i: usize = 0;
    while i < n
        invariant
            i <= n,
            n == bytes.len() / 4,
            words@ =~= words_of(bytes@).take(i as int),
        decreases n - i,
    {
        words.push(read_word(bytes, 4 * i));
        i = i + 1;
    }
    words
}

/// Writes signed numbers as little-endian bytes.
pub fn i32_le_bytes(values: &[i32]) -> (out: Vec<u8>)
    ensures
        out@ == i32_bytes(values@),
{
    let ghost words = Seq::new(values@.len(), |i: int| values@[i] as u32);
    let mut out: Vec<u8> = Vec::new();
    let mut i: usize = 0;
    assert(out@ =~= bytes_of(words.take(0)));
    while i < values.len()
        invariant
            i <= values@.len(),
            words == Seq::new(values@.len(), |i: int| values@[i] as u32),
            out@ == bytes_of(words.take(i as int)),
        decreases values@.len() - i,
    {
        write_word(&mut out, values[i] as u32);
        proof {
            lemma_bytes_of_push(words.take(i as int), words[i as int]);
            assert(words.take(i as int).push(words[i as int]) =~= words.take(i + 1));
            assert(out@ =~= bytes_of(words.take(i + 1)));
        }
        i = i + 1;
    }
    assert(words.take(i as int) =~= words);
    out
}

} // verus!
