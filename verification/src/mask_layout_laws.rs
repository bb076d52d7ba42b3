//! What a coded mask is as bytes.
use crate::byte_laws::{
    halves_are_low_and_high, le_number, lemma_eight_digits, word_has_its_bytes_as_digits,
    words_are_written_as_digits,
};
use crate::bytes::{bytes_of, halves};
use crate::mask::{
    bitpacked_body, bitpacked_read, bytes_of_mask, lemma_is_leading_run, mask_code,
    mask_of_bytes, mask_read, rle_body, rle_read, run_lengths, runs_read, uvarints, weight,
    MaskError,
};
use crate::mask_laws::packed_bits_are_the_entries;
use crate::varint::{lemma_number_end, number_at, uvarint, uvarint_at};
use vstd::arithmetic::power2::{lemma2_to64, pow2};
use vstd::prelude::*;

verus! {

/// A coded mask is a tag byte, eight bytes whose number is that of the entries, and a body.
/// The tag is 0 and the body that of runs where this is no longer than that of packed bits;
/// otherwise the tag is 1 and the body that of packed bits.
pub proof fn coded_mask_is_tag_count_and_shorter_body(mask: Seq<bool>)
    requires
        mask.len() <= u64::MAX,
    ensures
        mask_code(mask).len() >= 9,
        le_number(mask_code(mask).subrange(1, 9)) == mask.len(),
        rle_body(mask).len() <= bitpacked_body(mask).len() ==> mask_code(mask)[0] == 0
            && mask_code(mask).skip(9) == rle_body(mask),
        rle_body(mask).len() > bitpacked_body(mask).len() ==> mask_code(mask)[0] == 1
            && mask_code(mask).skip(9) == bitpacked_body(mask),
{
    let code = mask_code(mask);
    let words = halves(mask.len() as u64);
    let count = bytes_of(words);
    words_are_written_as_digits(words);
    halves_are_low_and_high(mask.len() as u64, 0, 0);
    lemma_eight_digits(count);
    assert(count.take(4) =~= count.subrange(4 * 0int, 4 * 0int + 4));
    assert(count.skip(4) =~= count.subrange(4 * 1int, 4 * 1int + 4));
    assert(le_number(count) == words[0] + 0x1_0000_0000 * words[1]);
    assert(code.subrange(1, 9) =~= count);
    if rle_body(mask).len() <= bitpacked_body(mask).len() {
        assert(code.skip(9) =~= rle_body(mask));
    } else {
        assert(code.skip(9) =~= bitpacked_body(mask));
    }
}

/// The body of runs of no entries is empty. That of a run of equal entries, in front of
/// nothing or of entries of which the first has the other value, is a byte 1 for a run of
/// set entries and 0 for another, the length of the run as a number, and then the body of
/// the other entries without its first byte.
pub proof fn run_is_written_in_front(value: bool, n: nat, others: Seq<bool>)
    requires
        n > 0,
        others.len() > 0 ==> others[0] != value,
    ensures
        rle_body(Seq::empty()) == Seq::<u8>::empty(),
        ({
            let mask = Seq::new(n, |i: int| value) + others;
            let first = if value {
                1u8
            } else {
                0u8
            };
            rle_body(mask) == seq![first] + uvarint(n as int) + if others.len() == 0 {
                Seq::<u8>::empty()
            } else {
                rle_body(others).skip(1)
            }
        }),
{
    let mask = Seq::new(n, |i: int| value) + others;
    lemma_is_leading_run(mask, n as int);
    assert(mask.skip(n as int) =~= others);
    let lengths = run_lengths(mask);
    assert(lengths.drop_first() =~= run_lengths(others));
    if others.len() == 0 {
        assert(run_lengths(others) =~= Seq::<int>::empty());
        assert(uvarints(run_lengths(others)) =~= Seq::<u8>::empty());
    } else {
        assert(rle_body(others).skip(1) =~= uvarints(run_lengths(others)));
    }
}

proof fn lemma_weight(k: int)
    requires
        0 <= k < 8,
    ensures
        weight(k) == pow2(k as nat),
{
    lemma2_to64();
}

/// The body of packed bits has a byte for every eight entries begun. Entry `i` is set where
/// byte `i / 8`, divided by `2^(i % 8)`, is odd; behind the last entry it is even.
pub proof fn packed_entries_are_binary_digits(mask: Seq<bool>)
    ensures
        bitpacked_body(mask).len() == (mask.len() + 7) / 8,
        forall|i: int|
            0 <= i < mask.len() ==> #[trigger] mask[i] == ((bitpacked_body(mask)[i / 8] as int
                / pow2((i % 8) as nat) as int) % 2 == 1),
        forall|i: int|
            mask.len() <= i < 8 * ((mask.len() + 7) / 8) ==> (bitpacked_body(mask)[i / 8] as int
                / #[trigger] pow2((i % 8) as nat) as int) % 2 == 0,
{
    let body = bitpacked_body(mask);
    assert forall|i: int| 0 <= i < mask.len() implies #[trigger] mask[i] == ((body[i / 8] as int
        / pow2((i % 8) as nat) as int) % 2 == 1) by {
        packed_bits_are_the_entries(mask, i);
        lemma_weight(i % 8);
    }
    assert forall|i: int| mask.len() <= i < 8 * ((mask.len() + 7) / 8) implies (body[i / 8] as int
        / #[trigger] pow2((i % 8) as nat) as int) % 2 == 0 by {
        packed_bits_are_the_entries(mask, i);
        lemma_weight(i % 8);
    }
}

/// Packed bits are read as `n` entries exactly where there is a byte for every eight entries
/// begun. Entry `i` is set where byte `i / 8`, divided by `2^(i % 8)`, is odd.
pub proof fn packed_entries_are_read_as_binary_digits(body: Seq<u8>, n: int)
    requires
        0 <= n,
    ensures
        bitpacked_read(body, n) is Some <==> (n + 7) / 8 <= body.len(),
        bitpacked_read(body, n) matches Some(read) ==> read.len() == n && forall|i: int|
            0 <= i < n ==> #[trigger] read[i] == ((body[i / 8] as int / pow2(
                (i % 8) as nat,
            ) as int) % 2 == 1),
{
    if let Some(read) = bitpacked_read(body, n) {
        assert forall|i: int| 0 <= i < n implies #[trigger] read[i] == ((body[i / 8] as int
            / pow2((i % 8) as nat) as int) % 2 == 1) by {
            lemma_weight(i % 8);
        }
    }
}

/// A number is read alike wherever its bytes stand.
proof fn lemma_number_moved(a: Seq<u8>, p: int, b: Seq<u8>, q: int, limit: int)
    requires
        0 <= p <= a.len(),
        0 <= q <= b.len(),
        a.skip(p) == b.skip(q),
    ensures
        number_at(a, p, limit) is Some <==> number_at(b, q, limit) is Some,
        number_at(a, p, limit) matches Some((value, next)) ==> number_at(b, q, limit) == Some(
            (value, next - p + q),
        ),
    decreases limit,
{
    assert(a.len() - p == b.len() - q) by {
        assert(a.skip(p).len() == b.skip(q).len());
    }
    if limit > 0 && p < a.len() {
        assert(a[p] == a.skip(p)[0] && b[q] == b.skip(q)[0]);
        assert(a.skip(p + 1) =~= a.skip(p).skip(1));
        assert(b.skip(q + 1) =~= b.skip(q).skip(1));
        lemma_number_moved(a, p + 1, b, q + 1, limit - 1);
    }
}

/// Runs are read alike wherever their bytes stand and however many entries come before
/// them, as long as all entries together can be counted.
proof fn lemma_runs_moved(
    a: Seq<u8>,
    p: int,
    b: Seq<u8>,
    q: int,
    value: bool,
    count: int,
    n: int,
    less: int,
)
    requires
        0 <= p <= a.len(),
        0 <= q <= b.len(),
        a.skip(p) == b.skip(q),
        0 <= less <= count <= usize::MAX,
    ensures
        match runs_read(b, q, value, count - less, n - less) {
            None => runs_read(a, p, value, count, n) is None,
            Some(m) => if count + m.len() <= usize::MAX {
                runs_read(a, p, value, count, n) == Some(m)
            } else {
                runs_read(a, p, value, count, n) is None
            },
        },
    decreases a.len() - p,
{
    assert(a.skip(p).len() == a.len() - p && b.skip(q).len() == b.len() - q);
    if count < n {
        lemma_number_moved(a, p, b, q, 10);
        lemma_number_end(a, p, 10);
        if let Some((run, next)) = uvarint_at(a, p) {
            let moved = next - p + q;
            assert(a.skip(next) =~= a.skip(p).skip(next - p));
            assert(b.skip(moved) =~= b.skip(q).skip(next - p));
            if count + run <= usize::MAX {
                lemma_runs_moved(a, next, b, moved, !value, count + run, n, less);
            }
        }
    }
}

/// How a body of runs is read for `n` entries: none of it for no entries, and nothing is read
/// from an empty body. Its first byte is the value of the first run, set unless it is 0, and
/// the number behind it is the length of that run. Where this falls short of `n`, the others
/// are what the bytes behind the number are read as for the entries that are left, with a
/// first byte of the other value in front of them. All entries together must be countable.
pub proof fn runs_are_read_one_by_one(body: Seq<u8>, n: int, others: Seq<u8>)
    requires
        0 <= n,
    ensures
        n == 0 ==> rle_read(body, n) == Some(Seq::<bool>::empty()),
        n > 0 && body.len() == 0 ==> rle_read(body, n) is None,
        n > 0 && body.len() > 0 ==> {
            let all = rle_read(body, n);
            match uvarint_at(body, 1) {
                None => all is None,
                Some((run, next)) => {
                    let entries = Seq::new(run as nat, |i: int| body[0] != 0);
                    &&& run > usize::MAX ==> all is None
                    &&& n <= run <= usize::MAX ==> all == Some(entries)
                    &&& run < n && run <= usize::MAX && others.len() > 0 && (others[0] != 0) == (
                    body[0] == 0) && others.skip(1) == body.skip(next) ==> match rle_read(
                        others,
                        n - run,
                    ) {
                        None => all is None,
                        Some(m) => if run + m.len() <= usize::MAX {
                            all == Some(entries + m)
                        } else {
                            all is None
                        },
                    }
                },
            }
        },
{
    if n > 0 && body.len() > 0 {
        lemma_number_end(body, 1, 10);
        reveal_with_fuel(runs_read, 2);
        if let Some((run, next)) = uvarint_at(body, 1) {
            let entries = Seq::new(run as nat, |i: int| body[0] != 0);
            assert(entries + Seq::<bool>::empty() =~= entries);
            if run < n && run <= usize::MAX && others.len() > 0 && others.skip(1) == body.skip(next) {
                lemma_runs_moved(body, next, others, 1, body[0] == 0, run as int, n, run as int);
            }
        }
    }
}

/// How a coded mask is read: fewer than nine bytes are too short, a first byte other than 0
/// or 1 is an unknown tag, the next eight bytes have the number of entries as their number,
/// as far as a `usize` holds it, and the others are read as runs by the tag 0 and as packed
/// bits by the tag 1.
pub proof fn coded_mask_is_read_by_its_tag(encoded: Seq<u8>)
    ensures
        ({
            let n = (le_number(encoded.subrange(1, 9)) as u64) as usize as int;
            let read = mask_read(encoded);
            &&& encoded.len() < 9 ==> read == Err::<Seq<bool>, MaskError>(MaskError::TooShort)
            &&& encoded.len() >= 9 && encoded[0] > 1 ==> read == Err::<Seq<bool>, MaskError>(
                MaskError::UnknownTag(encoded[0]),
            )
            &&& encoded.len() >= 9 && encoded[0] == 0 ==> match rle_read(
                encoded.skip(9),
                n,
            ) {
                Some(mask) => read == Ok::<Seq<bool>, MaskError>(mask),
                None => read == Err::<Seq<bool>, MaskError>(MaskError::BadBody),
            }
            &&& encoded.len() >= 9 && encoded[0] == 1 ==> match bitpacked_read(
                encoded.skip(9),
                n,
            ) {
                Some(mask) => read == Ok::<Seq<bool>, MaskError>(mask),
                None => read == Err::<Seq<bool>, MaskError>(MaskError::BadBody),
            }
        }),
{
    if encoded.len() >= 9 {
        let count = encoded.subrange(1, 9);
        lemma_eight_digits(count);
        assert(count.take(4) =~= encoded.subrange(1, 5));
        assert(count.skip(4) =~= encoded.subrange(5, 9));
        word_has_its_bytes_as_digits(encoded, 1);
        word_has_its_bytes_as_digits(encoded, 5);
    }
}

/// A mask and its bytes have an entry for each byte: it is set where the byte is not 0, and
/// written as 1 where it is set and as 0 where it is not.
pub proof fn entries_are_bytes(bytes: Seq<u8>, mask: Seq<bool>)
    ensures
        mask_of_bytes(bytes).len() == bytes.len(),
        forall|i: int|
            0 <= i < bytes.len() ==> (#[trigger] mask_of_bytes(bytes)[i] <==> bytes[i] != 0),
        bytes_of_mask(mask).len() == mask.len(),
        forall|i: int|
            0 <= i < mask.len() ==> #[trigger] bytes_of_mask(mask)[i] == if mask[i] {
                1u8
            } else {
                0u8
            },
{
}

} // verus!
