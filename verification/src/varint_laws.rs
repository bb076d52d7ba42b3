//! What the bytes of LEB128 numbers are.
use crate::varint::{number_at, uvarint, uvarint_at};
use vstd::arithmetic::div_mod::{
    lemma_div_denominator, lemma_fundamental_div_mod, lemma_hoist_over_denominator,
    lemma_mod_multiples_vanish,
};
use vstd::arithmetic::power::{lemma_pow_positive, pow};
use vstd::prelude::*;

verus! {

proof fn lemma_next_digit(value: int, k: int)
    requires
        0 <= value,
        0 < k,
    ensures
        pow(128, k as nat) == 128 * pow(128, (k - 1) as nat),
        0 < pow(128, (k - 1) as nat),
        value / pow(128, k as nat) == (value / 128) / pow(128, (k - 1) as nat),
{
    reveal(pow);
    lemma_pow_positive(128, (k - 1) as nat);
    lemma_div_denominator(value, 128, pow(128, (k - 1) as nat));
}

/// The bytes written for a number are its base-128 digits, the least significant one first:
/// byte `k` holds the digit in its low seven bits, and its high bit tells whether another
/// byte follows.
pub proof fn uvarint_bytes_are_base_128_digits(value: int, k: int)
    requires
        0 <= value,
        0 <= k < uvarint(value).len(),
    ensures
        uvarint(value)[k] as int % 128 == (value / pow(128, k as nat)) % 128,
        uvarint(value)[k] >= 128 <==> k + 1 < uvarint(value).len(),
    decreases k,
{
    reveal(pow);
    assert(uvarint(value).len() >= 1);
    if value >= 128 {
        let high = uvarint(value / 128);
        assert(high.len() >= 1);
        if k > 0 {
            uvarint_bytes_are_base_128_digits(value / 128, k - 1);
            lemma_next_digit(value, k);
            assert(uvarint(value)[k] == high[k - 1]);
        }
    }
}

proof fn lemma_number_digits(buf: Seq<u8>, pos: int, limit: int, k: int)
    requires
        number_at(buf, pos, limit) is Some,
        0 <= k < number_at(buf, pos, limit)->Some_0.1 - pos,
    ensures
        ({
            let (value, next) = number_at(buf, pos, limit)->Some_0;
            &&& 0 <= pos
            &&& 0 <= value < pow(128, (next - pos) as nat)
            &&& 1 <= next - pos <= limit
            &&& next <= buf.len()
            &&& (value / pow(128, k as nat)) % 128 == buf[pos + k] as int % 128
            &&& buf[pos + k] < 128 <==> pos + k == next - 1
        }),
    decreases limit,
{
    let (value, next) = number_at(buf, pos, limit)->Some_0;
    reveal(pow);
    if buf[pos] < 128 {
        assert(pow(128, 0) == 1);
        assert(pow(128, 1) == 128 * pow(128, 0));
    } else {
        let (high, end) = number_at(buf, pos + 1, limit - 1)->Some_0;
        crate::varint::lemma_number_end(buf, pos + 1, limit - 1);
        let j = if k == 0 { 0 } else { k - 1 };
        lemma_number_digits(buf, pos + 1, limit - 1, j);
        lemma_next_digit(value, next - pos);
        assert(value / 128 == high);
        if k > 0 {
            lemma_next_digit(value, k);
        }
    }
}

/// Reducing a number by a multiple of a digit's place and weight keeps the digit.
proof fn lemma_digit_of_remainder(value: int, place: int, digits: int, rest: int)
    requires
        0 <= value,
        0 < place,
        0 < digits,
        0 < rest,
    ensures
        ((value % (place * (digits * rest))) / place) % digits == (value / place) % digits,
{
    let m = place * (digits * rest);
    assert(0 < m) by (nonlinear_arith)
        requires
            0 < place,
            0 < digits,
            0 < rest,
            m == place * (digits * rest),
    ;
    let q = value / m;
    let r = value % m;
    lemma_fundamental_div_mod(value, m);
    let j = digits * (rest * q);
    assert(value == r + j * place) by (nonlinear_arith)
        requires
            value == m * q + r,
            m == place * (digits * rest),
            j == digits * (rest * q),
    ;
    lemma_hoist_over_denominator(r, j, place as nat);
    assert(value / place == r / place + j);
    lemma_mod_multiples_vanish(rest * q, r / place, digits);
}

/// A number that is read has the low seven bits of its bytes as base-128 digits, the least
/// significant one first, and ends with the first byte that has no high bit. Of a tenth
/// byte, one bit is left inside 64 bits.
pub proof fn read_number_has_its_bytes_as_digits(buf: Seq<u8>, pos: int, k: int)
    requires
        uvarint_at(buf, pos) is Some,
        0 <= k < uvarint_at(buf, pos)->Some_0.1 - pos,
    ensures
        ({
            let (value, next) = uvarint_at(buf, pos)->Some_0;
            &&& 1 <= next - pos <= 10
            &&& 0 <= pos && next <= buf.len()
            &&& buf[pos + k] < 128 <==> pos + k == next - 1
            &&& k < 9 ==> (value as int / pow(128, k as nat)) % 128 == buf[pos + k] as int % 128
            &&& k == 9 ==> value as int / 0x8000_0000_0000_0000 == buf[pos + k] as int % 2
            &&& next - pos < 10 ==> value < pow(128, (next - pos) as nat)
        }),
{
    let (all, next) = number_at(buf, pos, 10)->Some_0;
    let (value, _) = uvarint_at(buf, pos)->Some_0;
    lemma_number_digits(buf, pos, 10, k);
    lemma_powers();
    let place = pow(128, k as nat);
    if k == 9 {
        lemma_digit_of_remainder(all, place, 2, 1);
        let d = all / place;
        assert((d % 128) % 2 == d % 2);
        assert(value as int / place == (value as int / place) % 2);
    } else if k == 8 {
        lemma_digit_of_remainder(all, place, 128, 2);
    } else if k == 7 {
        lemma_digit_of_remainder(all, place, 128, 0x100);
    } else if k == 6 {
        lemma_digit_of_remainder(all, place, 128, 0x8000);
    } else if k == 5 {
        lemma_digit_of_remainder(all, place, 128, 0x40_0000);
    } else if k == 4 {
        lemma_digit_of_remainder(all, place, 128, 0x2000_0000);
    } else if k == 3 {
        lemma_digit_of_remainder(all, place, 128, 0x10_0000_0000);
    } else if k == 2 {
        lemma_digit_of_remainder(all, place, 128, 0x800_0000_0000);
    } else if k == 1 {
        lemma_digit_of_remainder(all, place, 128, 0x4_0000_0000_0000);
    } else {
        lemma_digit_of_remainder(all, place, 128, 0x200_0000_0000_0000);
    }
}

/// The first powers of 128.
proof fn lemma_powers()
    ensures
        pow(128, 0) == 1,
        pow(128, 1) == 0x80,
        pow(128, 2) == 0x4000,
        pow(128, 3) == 0x20_0000,
        pow(128, 4) == 0x1000_0000,
        pow(128, 5) == 0x8_0000_0000,
        pow(128, 6) == 0x400_0000_0000,
        pow(128, 7) == 0x2_0000_0000_0000,
        pow(128, 8) == 0x100_0000_0000_0000,
        pow(128, 9) == 0x8000_0000_0000_0000,
{
    reveal_with_fuel(pow, 10);
}

proof fn lemma_number_ends(buf: Seq<u8>, pos: int, limit: int, last: int)
    requires
        0 <= pos <= last < pos + limit,
        last < buf.len(),
        forall|i: int| pos <= i < last ==> #[trigger] buf[i] >= 128,
        buf[last] < 128,
    ensures
        number_at(buf, pos, limit) matches Some((_, next)) && next == last + 1,
    decreases limit,
{
    if pos < last {
        lemma_number_ends(buf, pos + 1, limit - 1, last);
    }
}

/// A number is read wherever one of the next ten bytes has no high bit, and ends with the
/// first such byte.
pub proof fn number_is_read_up_to_its_last_byte(buf: Seq<u8>, pos: int, last: int)
    requires
        0 <= pos <= last < pos + 10,
        last < buf.len(),
        forall|i: int| pos <= i < last ==> #[trigger] buf[i] >= 128,
        buf[last] < 128,
    ensures
        uvarint_at(buf, pos) matches Some((_, next)) && next == last + 1,
{
    lemma_number_ends(buf, pos, 10, last);
}

/// No number is read where none of the next ten bytes, as far as there are any, is without
/// the high bit.
pub proof fn unended_number_is_refused(buf: Seq<u8>, pos: int)
    requires
        0 <= pos,
        forall|i: int| pos <= i < pos + 10 && i < buf.len() ==> #[trigger] buf[i] >= 128,
    ensures
        uvarint_at(buf, pos) is None,
{
    if uvarint_at(buf, pos) is Some {
        let (_, next) = number_at(buf, pos, 10)->Some_0;
        crate::varint::lemma_number_end(buf, pos, 10);
        lemma_number_digits(buf, pos, 10, next - 1 - pos);
        assert(buf[next - 1] < 128);
    }
}

} // verus!
