//! A compact, lossless code for boolean masks.
//!
//! A coded mask is a tag byte, the number of entries as eight little-endian bytes, and a
//! body. The tag tells which of two bodies follows, and the shorter one is chosen:
//!
//! - tag 0, runs: the first entry as a byte, then the lengths of the runs of equal
//!   entries as LEB128 numbers. Masks whose neighbouring entries tend to agree have few runs.
//! - tag 1, packed bits: eight entries to a byte. This bounds the size of any coded mask.
use crate::bytes::{bytes_of, halves, joined, read_word, word_at, write_word};
use crate::varint::{checked_read_uvarint, lemma_number_end, uvarint, uvarint_at, write_uvarint};
use vstd::prelude::*;

verus! {

/// The number of bytes before the body.
pub const HEADER: usize = 9;

/// The tag of a body of runs.
pub const TAG_RLE: u8 = 0;

/// The tag of a body of packed bits.
pub const TAG_BITPACKED: u8 = 1;

/// Why a byte string is not a coded mask.
#[derive(Clone, Copy, Debug, PartialEq, Eq, Structural)]
pub enum MaskError {
    /// There are fewer bytes than the header has.
    TooShort,
    /// The tag names no body.
    UnknownTag(u8),
    /// The body ends before all entries are known, holds a run length of more than ten
    /// bytes, or describes more entries than a vector can hold.
    BadBody,
}

/// The length of the run of equal entries with which `mask` begins.
pub open spec fn leading_run(mask: Seq<bool>) -> int
    decreases mask.len(),
{
    if mask.len() <= 1 {
        mask.len() as int
    } else if mask[0] == mask[1] {
        1 + leading_run(mask.drop_first())
    } else {
        1
    }
}

/// The lengths of the runs of `mask`.
pub open spec fn run_lengths(mask: Seq<bool>) -> Seq<int>
    decreases mask.len(),
{
    let run = leading_run(mask);
    if mask.len() == 0 || !(0 < run <= mask.len()) {
        Seq::empty()
    } else {
        seq![run] + run_lengths(mask.skip(run))
    }
}

/// Numbers written one after the other.
pub open spec fn uvarints(numbers: Seq<int>) -> Seq<u8>
    decreases numbers.len(),
{
    if numbers.len() == 0 {
        Seq::empty()
    } else {
        uvarint(numbers[0]) + uvarints(numbers.drop_first())
    }
}

/// The body of runs: the first entry, then the lengths of the runs.
pub open spec fn rle_body(mask: Seq<bool>) -> Seq<u8> {
    if mask.len() == 0 {
        Seq::empty()
    } else {
        seq![if mask[0] {
            1u8
        } else {
            0u8
        }] + uvarints(run_lengths(mask))
    }
}

/// The entries that the runs at `pos` describe, of which the first has the value `value`,
/// up to the end of the run with which there are `n` entries. `count` entries are known
/// already.
pub open spec fn runs_read(body: Seq<u8>, pos: int, value: bool, count: int, n: int) -> Option<
    Seq<bool>,
>
    decreases body.len() - pos,
{
    if count >= n {
        Some(Seq::empty())
    } else {
        match uvarint_at(body, pos) {
            None => None,
            Some((run, next)) => {
                proof {
                    lemma_number_end(body, pos, 10);
                }
                if count + run > usize::MAX {
                    None
                } else {
                    match runs_read(body, next, !value, count + run, n) {
                        None => None,
                        Some(rest) => Some(Seq::new(run as nat, |i: int| value) + rest),
                    }
                }
            },
        }
    }
}

/// The entries that a body of runs describes.
pub open spec fn rle_read(body: Seq<u8>, n: int) -> Option<Seq<bool>> {
    if n == 0 {
        Some(Seq::empty())
    } else if body.len() == 0 {
        None
    } else {
        runs_read(body, 1, body[0] != 0, 0, n)
    }
}

/// Two to the power `k`, for the eight bits of a byte.
pub open spec fn weight(k: int) -> int {
    if k == 0 {
        1
    } else if k == 1 {
        2
    } else if k == 2 {
        4
    } else if k == 3 {
        8
    } else if k == 4 {
        16
    } else if k == 5 {
        32
    } else if k == 6 {
        64
    } else {
        128
    }
}

/// Bit `k` of `byte`, counted from the least significant one.
pub open spec fn bit(byte: u8, k: int) -> bool {
    (byte as int / weight(k)) % 2 == 1
}

/// What the entry `8 * j + k` contributes to byte `j`: the weight of bit `k` where the
/// entry exists and is set.
pub open spec fn share(mask: Seq<bool>, j: int, k: int) -> int {
    if 8 * j + k < mask.len() && mask[8 * j + k] {
        weight(k)
    } else {
        0
    }
}

/// Byte `j` of the packed bits.
pub open spec fn packed_byte(mask: Seq<bool>, j: int) -> u8 {
    (share(mask, j, 0) + share(mask, j, 1) + share(mask, j, 2) + share(mask, j, 3) + share(
        mask,
        j,
        4,
    ) + share(mask, j, 5) + share(mask, j, 6) + share(mask, j, 7)) as u8
}

/// The number of bytes that `n` packed bits take.
pub open spec fn packed_len(n: int) -> int {
    (n + 7) / 8
}

/// The body of packed bits: entry `i` is bit `i % 8` of byte `i / 8`, and the bits after
/// the last entry are zero.
pub open spec fn bitpacked_body(mask: Seq<bool>) -> Seq<u8> {
    Seq::new(packed_len(mask.len() as int) as nat, |j: int| packed_byte(mask, j))
}

/// The entries that a body of packed bits describes.
pub open spec fn bitpacked_read(body: Seq<u8>, n: int) -> Option<Seq<bool>> {
    if packed_len(n) <= body.len() {
        Some(Seq::new(n as nat, |i: int| bit(body[i / 8], i % 8)))
    } else {
        None
    }
}

/// The coded mask.
pub open spec fn mask_code(mask: Seq<bool>) -> Seq<u8> {
    let runs = rle_body(mask);
    let packed = bitpacked_body(mask);
    let count = bytes_of(halves(mask.len() as u64));
    if runs.len() <= packed.len() {
        seq![TAG_RLE] + count + runs
    } else {
        seq![TAG_BITPACKED] + count + packed
    }
}

/// The number of entries that the header gives.
pub open spec fn entry_count(encoded: Seq<u8>) -> usize {
    joined(word_at(encoded, 1), word_at(encoded, 5)) as usize
}

/// The mask that a byte string describes.
pub open spec fn mask_read(encoded: Seq<u8>) -> Result<Seq<bool>, MaskError> {
    if encoded.len() < HEADER {
        Err(MaskError::TooShort)
    } else {
        let n = entry_count(encoded) as int;
        let body = encoded.skip(HEADER as int);
        if encoded[0] == TAG_RLE {
            match rle_read(body, n) {
                Some(mask) => Ok(mask),
                None => Err(MaskError::BadBody),
            }
        } else if encoded[0] == TAG_BITPACKED {
            match bitpacked_read(body, n) {
                Some(mask) => Ok(mask),
                None => Err(MaskError::BadBody),
            }
        } else {
            Err(MaskError::UnknownTag(encoded[0]))
        }
    }
}

/// The leading run covers entries that equal the first one, and no more can be added.
pub proof fn leading_run_is_maximal(mask: Seq<bool>)
    requires
        mask.len() > 0,
    ensures
        0 < leading_run(mask) <= mask.len(),
        forall|i: int| 0 <= i < leading_run(mask) ==> #[trigger] mask[i] == mask[0],
        leading_run(mask) < mask.len() ==> mask[leading_run(mask)] != mask[0],
    decreases mask.len(),
{
    if mask.len() > 1 && mask[0] == mask[1] {
        let rest = mask.drop_first();
        leading_run_is_maximal(rest);
        assert forall|i: int| 0 <= i < leading_run(mask) implies #[trigger] mask[i] == mask[0] by {
            if i > 0 {
                assert(mask[i] == rest[i - 1]);
            }
        }
    }
}

/// Entries that equal the first one, and after which another value or the end comes, are
/// the leading run.
pub proof fn lemma_is_leading_run(mask: Seq<bool>, run: int)
    requires
        0 < run <= mask.len(),
        forall|i: int| 0 <= i < run ==> #[trigger] mask[i] == mask[0],
        run < mask.len() ==> mask[run] != mask[0],
    ensures
        leading_run(mask) == run,
{
    leading_run_is_maximal(mask);
    let other = leading_run(mask);
    if other < run {
        assert(mask[other] == mask[0]);
    } else if run < other {
        assert(mask[run] == mask[0]);
    }
}

/// Codes `mask` as runs.
pub fn encode_mask_rle_body(mask: &[bool]) -> (body: Vec<u8>)
    ensures
        body@ == rle_body(mask@),
{
    let mut out: Vec<u8> = Vec::new();
    if mask.len() == 0 {
        return out;
    }
    out.push(if mask[0] {
        1
    } else {
        0
    });
    let mut run_len: u64 = 1;
    let mut i: usize = 1;
    assert(mask@.skip(0) =~= mask@);
    while i < mask.len()
        invariant
            1 <= run_len <= i <= mask@.len(),
            forall|k: int| i - run_len <= k < i ==> #[trigger] mask@[k] == mask@[i - 1],
            out@ + uvarints(run_lengths(mask@.skip(i - run_len))) == rle_body(mask@),
        decreases mask@.len() - i,
    {
        if mask[i] == mask[i - 1] {
            run_len = run_len + 1;
        } else {
            let ghost before = out@;
            let ghost rest = mask@.skip(i - run_len);
            proof {
                lemma_is_leading_run(rest, run_len as int);
                assert(rest.skip(run_len as int) =~= mask@.skip(i as int));
                assert(run_lengths(rest).drop_first() =~= run_lengths(mask@.skip(i as int)));
            }
            write_uvarint(&mut out, run_len);
            assert(out@ + uvarints(run_lengths(mask@.skip(i as int))) =~= before + uvarints(
                run_lengths(rest),
            ));
            run_len = 1;
        }
        i = i + 1;
    }
    let ghost before = out@;
    let ghost rest = mask@.skip(i - run_len);
    proof {
        lemma_is_leading_run(rest, run_len as int);
        assert(rest.skip(run_len as int) =~= Seq::empty());
        assert(run_lengths(rest.skip(run_len as int)) =~= Seq::empty());
        assert(run_lengths(rest).drop_first() =~= Seq::empty());
        assert(uvarints(run_lengths(rest).drop_first()) =~= Seq::empty());
    }
    write_uvarint(&mut out, run_len);
    assert(out@ =~= before + uvarints(run_lengths(rest)));
    out
}

/// Decodes a body of runs.
fn read_rle_body(body: &[u8], n: usize) -> (mask: Option<Vec<bool>>)
    ensures
        mask is Some <==> rle_read(body@, n as int) is Some,
        mask matches Some(v) ==> rle_read(body@, n as int) == Some(v@),
{
    let mut out: Vec<bool> = Vec::new();
    if n == 0 {
        return Some(out);
    }
    if body.len() == 0 {
        return None;
    }
    let mut value: bool = body[0] != 0;
    let mut pos: usize = 1;
    let ghost all = rle_read(body@, n as int);
    while out.len() < n
        invariant
            1 <= pos <= body@.len(),
            out@.len() <= usize::MAX,
            all == rle_read(body@, n as int),
            all is Some <==> runs_read(body@, pos as int, value, out@.len() as int, n as int) is Some,
            runs_read(body@, pos as int, value, out@.len() as int, n as int) matches Some(rest)
                ==> all->Some_0 == out@ + rest,
        decreases body@.len() - pos,
    {
        match checked_read_uvarint(body, pos) {
            None => {
                return None;
            },
            Some((run_len, next)) => {
                proof {
                    lemma_number_end(body@, pos as int, 10);
                }
                if run_len > (usize::MAX - out.len()) as u64 {
                    return None;
                }
                let ghost before = out@;
                let mut k: u64 = 0;
                while k < run_len
                    invariant
                        k <= run_len,
                        out@ == before + Seq::new(k as nat, |i: int| value),
                    decreases run_len - k,
                {
                    out.push(value);
                    k = k + 1;
                    assert(out@ =~= before + Seq::new(k as nat, |i: int| value));
                }
                let ghost run = Seq::new(run_len as nat, |i: int| value);
                let ghost rest = runs_read(body@, next as int, !value, out@.len() as int, n as int);
                assert(rest is Some ==> before + (run + rest->Some_0) =~= out@ + rest->Some_0);
                value = !value;
                pos = next;
            },
        }
    }
    assert(out@ + Seq::<bool>::empty() =~= out@);
    Some(out)
}

/// Decodes a body of runs that describes at least `n` entries.
pub fn decode_mask_rle_body(body: &[u8], n: usize) -> (mask: Vec<bool>)
    requires
        rle_read(body@, n as int) is Some,
    ensures
        rle_read(body@, n as int) == Some(mask@),
{
    match read_rle_body(body, n) {
        Some(mask) => mask,
        // Excluded by the precondition.
        None => Vec::new(),
    }
}

/// The bits of a byte, by shifting and by division.
proof fn lemma_bit(byte: u8, k: u8)
    requires
        k < 8,
    ensures
        ((byte >> k) & 1 != 0) == bit(byte, k as int),
{
    assert(k == 0 ==> (byte >> k) & 1 == byte % 2) by (bit_vector);
    assert(k == 1 ==> (byte >> k) & 1 == (byte / 2) % 2) by (bit_vector);
    assert(k == 2 ==> (byte >> k) & 1 == (byte / 4) % 2) by (bit_vector);
    assert(k == 3 ==> (byte >> k) & 1 == (byte / 8) % 2) by (bit_vector);
    assert(k == 4 ==> (byte >> k) & 1 == (byte / 16) % 2) by (bit_vector);
    assert(k == 5 ==> (byte >> k) & 1 == (byte / 32) % 2) by (bit_vector);
    assert(k == 6 ==> (byte >> k) & 1 == (byte / 64) % 2) by (bit_vector);
    assert(k == 7 ==> (byte >> k) & 1 == (byte / 128) % 2) by (bit_vector);
}

/// What the entry `8 * j + k` contributes to byte `j`, given the weight `w` of bit `k`.
fn entry_share(mask: &[bool], j: usize, k: usize, w: u8) -> (result: u8)
    requires
        8 * j < mask.len(),
        0 <= k < 8,
        w == weight(k as int),
    ensures
        result == share(mask@, j as int, k as int),
{
    let first: usize = 8 * j;
    if mask.len() - first > k && mask[first + k] {
        w
    } else {
        0
    }
}

/// Codes `mask` as packed bits.
pub fn encode_mask_bitpacked_body(mask: &[bool]) -> (body: Vec<u8>)
    ensures
        body@ == bitpacked_body(mask@),
{
    let n: usize = mask.len() / 8 + (if mask.len() % 8 != 0 {
        1
    } else {
        0
    });
    let mut out: Vec<u8> = Vec::with_capacity(n);
    let mut j: usize = 0;
    while j < n
        invariant
            j <= n,
            n == packed_len(mask@.len() as int),
            out@ =~= bitpacked_body(mask@).take(j as int),
        decreases n - j,
    {
        let low: u8 = entry_share(mask, j, 0, 1) + entry_share(mask, j, 1, 2) + entry_share(
            mask,
            j,
            2,
            4,
        ) + entry_share(mask, j, 3, 8);
        let high: u8 = entry_share(mask, j, 4, 16) + entry_share(mask, j, 5, 32) + entry_share(
            mask,
            j,
            6,
            64,
        ) + entry_share(mask, j, 7, 128);
        out.push(low + high);
        j = j + 1;
    }
    out
}

/// Decodes a body of packed bits.
fn read_bitpacked_body(body: &[u8], n: usize) -> (mask: Option<Vec<bool>>)
    ensures
        mask is Some <==> bitpacked_read(body@, n as int) is Some,
        mask matches Some(v) ==> bitpacked_read(body@, n as int) == Some(v@),
{
    if n / 8 > body.len() || (n / 8 == body.len() && n % 8 != 0) {
        return None;
    }
    let mut out: Vec<bool> = Vec::with_capacity(n);
    let mut i: usize = 0;
    while i < n
        invariant
            i <= n,
            packed_len(n as int) <= body@.len(),
            out@ =~= bitpacked_read(body@, n as int)->Some_0.take(i as int),
        decreases n - i,
    {
        let byte: u8 = body[i / 8];
        let k: u8 = (i % 8) as u8;
        proof {
            lemma_bit(byte, k);
        }
        out.push((byte >> k) & 1 != 0);
        i = i + 1;
    }
    Some(out)
}

/// Decodes a body of packed bits that holds at least `n` entries.
pub fn decode_mask_bitpacked_body(body: &[u8], n: usize) -> (mask: Vec<bool>)
    requires
        bitpacked_read(body@, n as int) is Some,
    ensures
        bitpacked_read(body@, n as int) == Some(mask@),
{
    match read_bitpacked_body(body, n) {
        Some(mask) => mask,
        // Excluded by the precondition.
        None => Vec::new(),
    }
}

/// Appends the elements of `tail`.
fn append_bytes(out: &mut Vec<u8>, tail: &Vec<u8>)
    ensures
        final(out)@ == old(out)@ + tail@,
{
    let ghost before = out@;
    let mut i: usize = 0;
    while i < tail.len()
        invariant
            i <= tail@.len(),
            out@ =~= before + tail@.take(i as int),
        decreases tail@.len() - i,
    {
        out.push(tail[i]);
        i = i + 1;
    }
}

/// Codes `mask`, by runs or by packed bits, whichever is shorter.
pub fn encode_mask(mask: &[bool]) -> (encoded: Vec<u8>)
    ensures
        encoded@ == mask_code(mask@),
{
    let runs: Vec<u8> = encode_mask_rle_body(mask);
    let packed: Vec<u8> = encode_mask_bitpacked_body(mask);
    let use_rle: bool = runs.len() <= packed.len();
    let n: u64 = mask.len() as u64;
    let mut out: Vec<u8> = Vec::new();
    out.push(if use_rle {
        TAG_RLE
    } else {
        TAG_BITPACKED
    });
    write_word(&mut out, (n % 0x1_0000_0000) as u32);
    write_word(&mut out, (n / 0x1_0000_0000) as u32);
    assert(bytes_of(halves(n)) =~= bytes_of(seq![halves(n)[0]]) + bytes_of(seq![halves(n)[1]]));
    if use_rle {
        append_bytes(&mut out, &runs);
        assert(out@ =~= mask_code(mask@));
    } else {
        append_bytes(&mut out, &packed);
        assert(out@ =~= mask_code(mask@));
    }
    out
}

/// Decodes a mask as `decode_mask` does, or tells why `encoded` is no coded mask.
pub fn checked_decode_mask(encoded: &[u8]) -> (mask: Result<Vec<bool>, MaskError>)
    ensures
        mask is Ok <==> mask_read(encoded@) is Ok,
        mask matches Ok(v) ==> mask_read(encoded@) == Ok::<Seq<bool>, MaskError>(v@),
        mask matches Err(e) ==> mask_read(encoded@) == Err::<Seq<bool>, MaskError>(e),
{
    if encoded.len() < HEADER {
        return Err(MaskError::TooShort);
    }
    let tag: u8 = encoded[0];
    let low: u32 = read_word(encoded, 1);
    let high: u32 = read_word(encoded, 5);
    let n: usize = (low as u64 + 0x1_0000_0000 * (high as u64)) as usize;
    let body: &[u8] = vstd::slice::slice_subrange(encoded, HEADER, encoded.len());
    assert(body@ =~= encoded@.skip(HEADER as int));
    let read: Option<Vec<bool>> = if tag == TAG_RLE {
        read_rle_body(body, n)
    } else if tag == TAG_BITPACKED {
        read_bitpacked_body(body, n)
    } else {
        return Err(MaskError::UnknownTag(tag));
    };
    match read {
        Some(mask) => Ok(mask),
        None => Err(MaskError::BadBody),
    }
}

/// Decodes a mask. The number of entries and the kind of body are read from `encoded`.
pub fn decode_mask(encoded: &[u8]) -> (mask: Vec<bool>)
    requires
        mask_read(encoded@) is Ok,
    ensures
        mask_read(encoded@) == Ok::<Seq<bool>, MaskError>(mask@),
{
    match checked_decode_mask(encoded) {
        Ok(mask) => mask,
        // Excluded by the precondition.
        Err(_) => Vec::new(),
    }
}

/// The mask that bytes stand for: any byte but zero is a set entry.
pub open spec fn mask_of_bytes(bytes: Seq<u8>) -> Seq<bool> {
    Seq::new(bytes.len(), |i: int| bytes[i] != 0)
}

/// The bytes that stand for a mask: one for a set entry and zero for another.
pub open spec fn bytes_of_mask(mask: Seq<bool>) -> Seq<u8> {
    Seq::new(
        mask.len(),
        |i: int|
            if mask[i] {
                1u8
            } else {
                0u8
            },
    )
}

/// Reads a mask from one byte for each entry.
pub fn mask_from_bytes(bytes: &[u8]) -> (mask: Vec<bool>)
    ensures
        mask@ == mask_of_bytes(bytes@),
{
    let mut mask: Vec<bool> = Vec::with_capacity(bytes.len());
    let mut i: usize = 0;
    while i < bytes.len()
        invariant
            i <= bytes@.len(),
            mask@ =~= mask_of_bytes(bytes@).take(i as int),
        decreases bytes@.len() - i,
    {
        mask.push(bytes[i] != 0);
        i = i + 1;
    }
    mask
}

/// Writes a mask as one byte for each entry.
pub fn mask_to_bytes(mask: &[bool]) -> (bytes: Vec<u8>)
    ensures
        bytes@ == bytes_of_mask(mask@),
{
    let mut bytes: Vec<u8> = Vec::with_capacity(mask.len());
    let mut i: usize = 0;
    while i < mask.len()
        invariant
            i <= mask@.len(),
            bytes@ =~= bytes_of_mask(mask@).take(i as int),
        decreases mask@.len() - i,
    {
        bytes.push(if mask[i] {
            1
        } else {
            0
        });
        i = i + 1;
    }
    bytes
}

} // verus!
