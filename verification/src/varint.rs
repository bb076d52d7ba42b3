//! Unsigned LEB128 numbers: seven bits to a byte, the least significant ones first, with
//! the high bit set on every byte but the last.
use vstd::prelude::*;

verus! {

/// The bytes of `value`, as few as possible.
pub open spec fn uvarint(value: int) -> Seq<u8>
    decreases value,
{
    if value < 128 {
        seq![value as u8]
    } else {
        seq![(128 + value % 128) as u8] + uvarint(value / 128)
    }
}

/// The number that starts at `pos` and has at most `limit` bytes, and the position after
/// it. There is none where the buffer ends or the limit is reached before its last byte.
pub open spec fn number_at(buf: Seq<u8>, pos: int, limit: int) -> Option<(int, int)>
    decreases limit,
{
    if limit <= 0 || !(0 <= pos < buf.len()) {
        None
    } else if buf[pos] < 128 {
        Some((buf[pos] as int, pos + 1))
    } else {
        match number_at(buf, pos + 1, limit - 1) {
            None => None,
            Some((high, next)) => Some((buf[pos] - 128 + 128 * high, next)),
        }
    }
}

/// The 64-bit number that starts at `pos`, and the position after it. A number has at
/// most ten bytes, and what does not fit into 64 bits is dropped.
pub open spec fn uvarint_at(buf: Seq<u8>, pos: int) -> Option<(u64, int)> {
    match number_at(buf, pos, 10) {
        None => None,
        Some((value, next)) => Some(((value % 0x1_0000_0000_0000_0000) as u64, next)),
    }
}

/// A number is at least one byte long and ends inside the buffer.
pub proof fn lemma_number_end(buf: Seq<u8>, pos: int, limit: int)
    ensures
        number_at(buf, pos, limit) matches Some((value, next)) ==> 0 <= value && pos < next
            <= buf.len(),
    decreases limit,
{
    if limit > 0 && 0 <= pos < buf.len() && buf[pos] >= 128 {
        lemma_number_end(buf, pos + 1, limit - 1);
    }
}

/// Appends the bytes of `value`.
pub fn write_uvarint(out: &mut Vec<u8>, value: u64)
    ensures
        final(out)@ == old(out)@ + uvarint(value as int),
{
    let ghost before = out@;
    let mut rest: u64 = value;
    while rest >= 128
        invariant
            out@ + uvarint(rest as int) == before + uvarint(value as int),
        decreases rest,
    {
        let ghost taken = out@;
        out.push((128 + rest % 128) as u8);
        assert(out@ + uvarint(rest as int / 128) =~= taken + uvarint(rest as int));
        rest = rest / 128;
    }
    let ghost taken = out@;
    out.push(rest as u8);
    assert(out@ =~= taken + uvarint(rest as int));
}

/// Reads the number that starts at `pos` and has at most `limit` bytes.
fn read_number(buf: &[u8], pos: usize, limit: u32) -> (number: Option<(u64, usize)>)
    ensures
        number is Some <==> number_at(buf@, pos as int, limit as int) is Some,
        number matches Some((value, next)) ==> {
            let (v, n) = number_at(buf@, pos as int, limit as int)->Some_0;
            value == v % 0x1_0000_0000_0000_0000 && next == n
        },
    decreases limit,
{
    if limit == 0 || pos >= buf.len() {
        return None;
    }
    let byte: u8 = buf[pos];
    if byte < 128 {
        return Some((byte as u64, pos + 1));
    }
    match read_number(buf, pos + 1, limit - 1) {
        None => None,
        Some((high, next)) => {
            let shifted: u64 = high.wrapping_mul(128);
            Some(((byte - 128) as u64 + shifted, next))
        },
    }
}

/// Reads the number that starts at `pos`, and the position after it.
pub fn checked_read_uvarint(buf: &[u8], pos: usize) -> (number: Option<(u64, usize)>)
    ensures
        number is Some <==> uvarint_at(buf@, pos as int) is Some,
        number matches Some((value, next)) ==> uvarint_at(buf@, pos as int) == Some(
            (value, next as int),
        ),
{
    read_number(buf, pos, 10)
}

/// Reads the number that starts at `pos`, and moves `pos` behind it.
pub fn read_uvarint(buf: &[u8], pos: &mut usize) -> (value: u64)
    requires
        uvarint_at(buf@, *old(pos) as int) is Some,
    ensures
        uvarint_at(buf@, *old(pos) as int) == Some((value, *final(pos) as int)),
{
    match checked_read_uvarint(buf, *pos) {
        Some((value, next)) => {
            *pos = next;
            value
        },
        // Excluded by the precondition.
        None => 0,
    }
}

/// 128 to the power `k`.
spec fn p128(k: int) -> int
    decreases k,
{
    if k <= 0 {
        1
    } else {
        128 * p128(k - 1)
    }
}

proof fn lemma_number_written(before: Seq<u8>, value: int, after: Seq<u8>, limit: int)
    requires
        0 <= value < p128(limit),
        0 < limit,
    ensures
        number_at(before + uvarint(value) + after, before.len() as int, limit) == Some(
            (value, (before.len() + uvarint(value).len()) as int),
        ),
        uvarint(value).len() <= limit,
    decreases limit,
{
    let buf = before + uvarint(value) + after;
    assert(buf[before.len() as int] == uvarint(value)[0]);
    if value >= 128 {
        reveal_with_fuel(p128, 2);
        let byte = (128 + value % 128) as u8;
        lemma_number_written(before.push(byte), value / 128, after, limit - 1);
        assert(buf =~= before.push(byte) + uvarint(value / 128) + after);
    }
}

/// A number that was written is read back, wherever it stands and whatever follows it.
pub proof fn uvarint_is_read_back(before: Seq<u8>, value: u64, after: Seq<u8>)
    ensures
        uvarint_at(before + uvarint(value as int) + after, before.len() as int) == Some(
            (value, (before.len() + uvarint(value as int).len()) as int),
        ),
{
    reveal_with_fuel(p128, 11);
    lemma_number_written(before, value as int, after, 10);
}

/// A number takes one byte for each seven bits it has, and zero takes one byte: a value
/// below `2^(7k)` takes at most `k` bytes, and one from there on takes more.
pub proof fn uvarint_is_compact(value: int, k: nat)
    requires
        0 <= value,
        0 < k,
    ensures
        uvarint(value).len() <= k <==> value < vstd::arithmetic::power2::pow2(7 * k),
    decreases k,
{
    vstd::arithmetic::power2::lemma2_to64();
    if k > 1 {
        vstd::arithmetic::power2::lemma_pow2_adds(7, (7 * (k - 1)) as nat);
        if value >= 128 {
            uvarint_is_compact(value / 128, (k - 1) as nat);
        } else {
            vstd::arithmetic::power2::lemma_pow2_pos((7 * (k - 1)) as nat);
        }
    } else {
        if value >= 128 {
            lemma_uvarint_nonempty(value / 128);
        }
    }
}

proof fn lemma_uvarint_nonempty(value: int)
    ensures
        uvarint(value).len() >= 1,
{
}

} // verus!
