//! What holds of coded masks: they are read back, and they are never longer than a plain
//! bitmap behind a header.
use crate::bytes::{bytes_of, halves, lemma_bytes_of_word, word_at};
use crate::mask::{
    bit, bitpacked_body, bitpacked_read, bytes_of_mask, entry_count, leading_run,
    leading_run_is_maximal, mask_code, mask_of_bytes, mask_read, packed_byte, packed_len, rle_body, rle_read, run_lengths, runs_read, share, uvarints,
    MaskError, HEADER, TAG_BITPACKED, TAG_RLE,
};
use crate::varint::{lemma_number_end, uvarint, uvarint_at, uvarint_is_read_back};
use vstd::prelude::*;

verus! {

/// The sum of `numbers`.
pub open spec fn total(numbers: Seq<int>) -> int
    decreases numbers.len(),
{
    if numbers.len() == 0 {
        0
    } else {
        numbers[0] + total(numbers.drop_first())
    }
}

/// The lengths of the runs are positive and sum to the number of entries.
pub proof fn runs_cover_the_mask(mask: Seq<bool>)
    ensures
        total(run_lengths(mask)) == mask.len(),
        forall|i: int| 0 <= i < run_lengths(mask).len() ==> #[trigger] run_lengths(mask)[i] > 0,
    decreases mask.len(),
{
    if mask.len() > 0 {
        leading_run_is_maximal(mask);
        let rest = mask.skip(leading_run(mask));
        runs_cover_the_mask(rest);
        assert(run_lengths(mask).drop_first() =~= run_lengths(rest));
        assert forall|i: int| 0 <= i < run_lengths(mask).len() implies #[trigger] run_lengths(
            mask,
        )[i] > 0 by {
            if i > 0 {
                assert(run_lengths(mask)[i] == run_lengths(rest)[i - 1]);
            }
        }
    }
}

/// The runs of the entries from `from` on are read back.
proof fn lemma_runs_read(mask: Seq<bool>, from: int, before: Seq<u8>, after: Seq<u8>)
    requires
        0 <= from <= mask.len() <= usize::MAX,
    ensures
        runs_read(
            before + uvarints(run_lengths(mask.skip(from))) + after,
            before.len() as int,
            mask[from],
            from,
            mask.len() as int,
        ) == Some(mask.skip(from)),
    decreases mask.len() - from,
{
    let rest = mask.skip(from);
    let buf = before + uvarints(run_lengths(rest)) + after;
    if from < mask.len() {
        let run = leading_run(rest);
        leading_run_is_maximal(rest);
        assert(run_lengths(rest).drop_first() =~= run_lengths(rest.skip(run)));
        assert(rest.skip(run) =~= mask.skip(from + run));
        let later = uvarints(run_lengths(mask.skip(from + run))) + after;
        assert(buf =~= before + uvarint(run) + later);
        uvarint_is_read_back(before, run as u64, later);
        lemma_runs_read(mask, from + run, before + uvarint(run), after);
        assert(buf =~= (before + uvarint(run)) + uvarints(run_lengths(mask.skip(from + run)))
            + after);
        let next = (before.len() + uvarint(run).len()) as int;
        if from + run < mask.len() {
            assert(rest[run] == mask[from + run]);
            assert(mask[from + run] == !mask[from]);
        }
        assert(runs_read(buf, next, !mask[from], from + run, mask.len() as int) == Some(
            mask.skip(from + run),
        ));
        assert(Seq::new(run as nat, |i: int| mask[from]) + mask.skip(from + run) =~= rest);
    } else {
        assert(rest =~= Seq::empty());
    }
}

/// A mask is read back from its body of runs, whatever follows the body.
pub proof fn rle_body_is_read_back(mask: Seq<bool>, after: Seq<u8>)
    requires
        mask.len() <= usize::MAX,
    ensures
        rle_read(rle_body(mask) + after, mask.len() as int) == Some(mask),
{
    if mask.len() > 0 {
        let first = seq![if mask[0] {
            1u8
        } else {
            0u8
        }];
        assert(mask.skip(0) =~= mask);
        lemma_runs_read(mask, 0, first, after);
    } else {
        assert(mask =~= Seq::empty());
    }
}

/// The bits of a byte of the packed bits are the entries that it stands for.
proof fn lemma_packed_bit(mask: Seq<bool>, j: int, k: int)
    requires
        0 <= j,
        0 <= k < 8,
    ensures
        bit(packed_byte(mask, j), k) == (8 * j + k < mask.len() && mask[8 * j + k]),
{
    let set = |m: int|
        if 8 * j + m < mask.len() && mask[8 * j + m] {
            1int
        } else {
            0int
        };
    let t7 = set(7);
    let t6 = set(6) + 2 * t7;
    let t5 = set(5) + 2 * t6;
    let t4 = set(4) + 2 * t5;
    let t3 = set(3) + 2 * t4;
    let t2 = set(2) + 2 * t3;
    let t1 = set(1) + 2 * t2;
    let t0 = set(0) + 2 * t1;
    assert(packed_byte(mask, j) == t0) by {
        assert(share(mask, j, 0) == set(0));
        assert(share(mask, j, 1) == 2 * set(1));
        assert(share(mask, j, 2) == 4 * set(2));
        assert(share(mask, j, 3) == 8 * set(3));
        assert(share(mask, j, 4) == 16 * set(4));
        assert(share(mask, j, 5) == 32 * set(5));
        assert(share(mask, j, 6) == 64 * set(6));
        assert(share(mask, j, 7) == 128 * set(7));
    }
    assert(t0 % 2 == set(0) && t0 / 2 == t1);
    assert(t1 % 2 == set(1) && t0 / 4 == t1 / 2 == t2);
    assert(t2 % 2 == set(2) && t0 / 8 == t2 / 2 == t3);
    assert(t3 % 2 == set(3) && t0 / 16 == t3 / 2 == t4);
    assert(t4 % 2 == set(4) && t0 / 32 == t4 / 2 == t5);
    assert(t5 % 2 == set(5) && t0 / 64 == t5 / 2 == t6);
    assert(t6 % 2 == set(6) && t0 / 128 == t6 / 2 == t7);
}

/// Entry `i` is bit `i % 8` of byte `i / 8`, and the bits after the last entry are zero.
pub proof fn packed_bits_are_the_entries(mask: Seq<bool>, i: int)
    requires
        0 <= i < 8 * packed_len(mask.len() as int),
    ensures
        bit(bitpacked_body(mask)[i / 8], i % 8) == (i < mask.len() && mask[i]),
{
    lemma_packed_bit(mask, i / 8, i % 8);
}

/// A mask is read back from its body of packed bits, whatever follows the body.
pub proof fn bitpacked_body_is_read_back(mask: Seq<bool>, after: Seq<u8>)
    ensures
        bitpacked_read(bitpacked_body(mask) + after, mask.len() as int) == Some(mask),
{
    let body = bitpacked_body(mask) + after;
    let read = bitpacked_read(body, mask.len() as int)->Some_0;
    assert forall|i: int| 0 <= i < mask.len() implies read[i] == mask[i] by {
        packed_bits_are_the_entries(mask, i);
    }
    assert(read =~= mask);
}

/// Bits after entry `n - 1` carry no meaning: bodies that agree on the first `n` bits
/// describe the same entries.
pub proof fn padding_carries_no_meaning(a: Seq<u8>, b: Seq<u8>, n: int)
    requires
        0 <= n,
        packed_len(n) <= a.len(),
        packed_len(n) <= b.len(),
        forall|i: int| 0 <= i < n ==> #[trigger] bit(a[i / 8], i % 8) == bit(b[i / 8], i % 8),
    ensures
        bitpacked_read(a, n) == bitpacked_read(b, n),
{
    let x = bitpacked_read(a, n)->Some_0;
    let y = bitpacked_read(b, n)->Some_0;
    assert forall|i: int| 0 <= i < n implies x[i] == y[i] by {
        assert(bit(a[i / 8], i % 8) == bit(b[i / 8], i % 8));
    }
    assert(x =~= y);
}

/// Runs are read until all entries are known.
proof fn lemma_runs_reach(body: Seq<u8>, pos: int, value: bool, count: int, n: int)
    ensures
        runs_read(body, pos, value, count, n) matches Some(read) ==> count + read.len() >= n,
    decreases body.len() - pos,
{
    if count < n {
        if let Some((run, next)) = uvarint_at(body, pos) {
            lemma_number_end(body, pos, 10);
            if count + run <= usize::MAX {
                lemma_runs_reach(body, next, !value, count + run, n);
            }
        }
    }
}

/// A mask that is read has at least the number of entries that its header gives, and
/// exactly that number if its bits are packed.
pub proof fn read_mask_has_its_entries(encoded: Seq<u8>)
    ensures
        mask_read(encoded) matches Ok(mask) ==> {
            &&& mask.len() >= entry_count(encoded)
            &&& encoded[0] == TAG_BITPACKED ==> mask.len() == entry_count(encoded)
        },
{
    if encoded.len() >= HEADER {
        let body = encoded.skip(HEADER as int);
        if body.len() > 0 {
            lemma_runs_reach(body, 1, body[0] != 0, 0, entry_count(encoded) as int);
        }
    }
}

/// The header of a coded mask gives the number of entries.
proof fn lemma_entry_count(tag: u8, n: usize, body: Seq<u8>)
    ensures
        entry_count(seq![tag] + bytes_of(halves(n as u64)) + body) == n,
{
    let count = bytes_of(halves(n as u64));
    let encoded = seq![tag] + count + body;
    lemma_bytes_of_word(halves(n as u64), 0);
    lemma_bytes_of_word(halves(n as u64), 1);
    assert(word_at(encoded, 1) == word_at(count, 0));
    assert(word_at(encoded, 5) == word_at(count, 4));
}

/// Coding is lossless: a coded mask is read back as the mask, and bytes that follow it are
/// ignored. (No vector has more than `usize::MAX` entries.)
pub proof fn mask_is_read_back(mask: Seq<bool>, after: Seq<u8>)
    requires
        mask.len() <= usize::MAX,
    ensures
        mask_read(mask_code(mask) + after) == Ok::<Seq<bool>, MaskError>(mask),
{
    let runs = rle_body(mask);
    let packed = bitpacked_body(mask);
    let tag = if runs.len() <= packed.len() {
        TAG_RLE
    } else {
        TAG_BITPACKED
    };
    let body = if runs.len() <= packed.len() {
        runs
    } else {
        packed
    };
    let count = bytes_of(halves(mask.len() as u64));
    let encoded = mask_code(mask) + after;
    assert(encoded =~= seq![tag] + count + (body + after));
    lemma_entry_count(tag, mask.len() as usize, body + after);
    assert(encoded.skip(HEADER as int) =~= body + after);
    rle_body_is_read_back(mask, after);
    bitpacked_body_is_read_back(mask, after);
}

/// A coded mask is a header of nine bytes and the shorter of the two bodies, so it is
/// never longer than a plain bitmap behind such a header. The empty mask alone takes no
/// more than the header.
pub proof fn mask_code_is_bounded(mask: Seq<bool>)
    ensures
        mask_code(mask).len() >= HEADER,
        mask_code(mask).len() == HEADER <==> mask.len() == 0,
        mask_code(mask).len() <= HEADER + rle_body(mask).len(),
        mask_code(mask).len() <= HEADER + packed_len(mask.len() as int),
        mask_code(mask).len() == HEADER + rle_body(mask).len() || mask_code(mask).len() == HEADER
            + packed_len(mask.len() as int),
{
}

/// A mask survives being written as bytes.
pub proof fn mask_survives_bytes(mask: Seq<bool>)
    ensures
        mask_of_bytes(bytes_of_mask(mask)) == mask,
{
    assert(mask_of_bytes(bytes_of_mask(mask)) =~= mask);
}

} // verus!
