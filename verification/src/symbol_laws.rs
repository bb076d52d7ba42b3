//! How a symbol is coded by the entries of its table, and read by them.
use crate::coder::{
    distance_read, encodable, lemma_rank, nibble_count, nibble_steps,
    number_read, rank, splits, steps_from, symbol_read, tables, Row,
    Tables,
};
use crate::rans::{without_bits, without_slot, RansSymbol, Stream};
use crate::rans_laws::taken_bits_divide_the_state;
use vstd::arithmetic::div_mod::{
    lemma_breakdown, lemma_div_denominator, lemma_div_is_ordered_by_denominator,
};
use vstd::arithmetic::power::{lemma_pow_positive, pow};
use vstd::prelude::*;

verus! {

/// An index names a table exactly where it is a place in all three lists, and the table
/// that it names has its entries, its length and its offset from that place.
pub proof fn index_names_its_place_in_the_lists(
    cdfs: Seq<Vec<i32>>,
    lengths: Seq<i32>,
    offsets: Seq<i32>,
    index: i32,
)
    ensures
        ({
            let t = tables(cdfs, lengths, offsets);
            &&& t.has(index) <==> 0 <= index < cdfs.len() && index < lengths.len() && index
                < offsets.len()
            &&& t.has(index) ==> t.row(index).cdf == cdfs[index as int]@ && t.row(index).length
                == lengths[index as int] && t.row(index).offset == offsets[index as int]
            &&& t.cdfs.len() == cdfs.len() && t.lengths == lengths && t.offsets == offsets
            &&& t.has(index) ==> t.cdfs[index as int] == cdfs[index as int]@
        }),
{
}

/// A symbol that lies `v` behind the offset, inside the slots before the escape, is coded
/// by one step: the slot from entry `v` to entry `v + 1`.
pub proof fn plain_symbol_is_coded_by_its_slot(
    cdf: Seq<i32>,
    length: i32,
    offset: i32,
    symbol: i32,
)
    requires
        0 <= symbol - offset < length - 2,
    ensures
        ({
            let v = symbol - offset;
            let steps = (Row { cdf, length, offset }).steps(symbol);
            &&& steps == seq![
                RansSymbol {
                    start: cdf[v] as u16,
                    range: (cdf[v + 1] - cdf[v]) as u16,
                    bypass: false,
                },
            ]
            &&& 0 <= cdf[v] < cdf[v + 1] <= 0x1_0000 && cdf[v + 1] - cdf[v] < 0x1_0000
                ==> steps[0].start == cdf[v] && steps[0].range == cdf[v + 1] - cdf[v]
        }),
{
}

/// A digit is a digit of the quotient by 16, one place lower.
pub proof fn lemma_next_nibble(n: int, k: int)
    requires
        0 <= n,
        0 < k,
    ensures
        pow(16, k as nat) == 16 * pow(16, (k - 1) as nat),
        0 < pow(16, (k - 1) as nat),
        n / pow(16, k as nat) == (n / 16) / pow(16, (k - 1) as nat),
{
    reveal(pow);
    lemma_pow_positive(16, (k - 1) as nat);
    lemma_div_denominator(n, 16, pow(16, (k - 1) as nat));
}

/// A number has as few digits as hold it.
pub proof fn lemma_nibbles(n: int)
    requires
        0 <= n,
    ensures
        nibble_steps(n).len() == nibble_count(n),
        n < pow(16, nibble_count(n) as nat),
        n > 0 ==> nibble_count(n) > 0 && n >= pow(16, (nibble_count(n) - 1) as nat),
    decreases n,
{
    reveal(pow);
    if n > 0 {
        lemma_nibbles(n / 16);
        let c = nibble_count(n);
        lemma_next_nibble(n, c);
        assert(nibble_count(n / 16) == c - 1);
        if n / 16 > 0 {
            lemma_next_nibble(n, c - 1);
        }
    }
}

proof fn lemma_nibble(n: int, k: int)
    requires
        0 <= n,
        0 <= k < nibble_steps(n).len(),
    ensures
        nibble_steps(n)[k].bypass,
        nibble_steps(n)[k].start == (n / pow(16, k as nat)) % 16,
    decreases k,
{
    reveal(pow);
    if k > 0 {
        lemma_nibble(n / 16, k - 1);
        lemma_next_nibble(n, k);
        assert(nibble_steps(n)[k] == nibble_steps(n / 16)[k - 1]);
    }
}

/// A symbol without a slot of its own is coded by the escape slot, which lies between the
/// last two entries in use; then by the number of hexadecimal digits of its distance from
/// the slots, as few as possible; then by the digits, the least significant one first. A
/// symbol that lies `v` behind the offset has the distance `2 * (v - (length - 2))` where it
/// lies behind the slots, and `-2 * v - 1` where it lies before them.
pub proof fn escaping_symbol_is_coded_by_its_distance(
    cdf: Seq<i32>,
    length: i32,
    offset: i32,
    symbol: i32,
)
    requires
        !(0 <= symbol - offset < length - 2),
        2 <= length,
    ensures
        ({
            let v = symbol - offset;
            let distance = if v < 0 {
                -2 * v - 1
            } else {
                2 * (v - (length - 2))
            };
            let steps = (Row { cdf, length, offset }).steps(symbol);
            let n = steps.len() - 2;
            &&& 0 <= n
            &&& steps[0] == (RansSymbol {
                start: cdf[length - 2] as u16,
                range: (cdf[length - 1] - cdf[length - 2]) as u16,
                bypass: false,
            })
            &&& steps[1].bypass && steps[1].start == n
            &&& distance < pow(16, n as nat)
            &&& n > 0 ==> distance >= pow(16, (n - 1) as nat)
            &&& forall|k: int|
                0 <= k < n ==> (#[trigger] steps[2 + k]).bypass && steps[2 + k].start == (distance
                    / pow(16, k as nat)) % 16
        }),
{
    let row = Row { cdf, length, offset };
    let distance = row.distance(symbol);
    let steps = row.steps(symbol);
    lemma_nibbles(distance);
    assert(nibble_count(distance) <= 10) by {
        reveal_with_fuel(nibble_count, 11);
    }
    let n = steps.len() - 2;
    assert(n == nibble_count(distance));
    assert(n == 0 ==> distance == 0);
    assert forall|k: int| 0 <= k < n implies (#[trigger] steps[2 + k]).bypass && steps[2
        + k].start == (distance / pow(16, k as nat)) % 16 by {
        assert(steps[2 + k] == nibble_steps(distance)[k]);
        lemma_nibble(distance, k);
    }
    if n > 0 && distance == 0 {
        assert(nibble_count(0) == 0);
    }
}

/// Which symbols can be coded. One with a slot of its own can where its slot is there and
/// its width, as a sixteen-bit number, is not zero; one without can where that holds of the
/// escape slot, its distance has at most 28 bits and its value fits into 32 bits.
pub proof fn symbol_can_be_coded_where_its_slot_is_not_empty(
    cdf: Seq<i32>,
    length: i32,
    offset: i32,
    symbol: i32,
)
    ensures
        ({
            let v = symbol - offset;
            let can = (Row { cdf, length, offset }).encodable(symbol);
            let distance = if v < 0 {
                -2 * v - 1
            } else {
                2 * (v - (length - 2))
            };
            let own = cdf[v + 1] - cdf[v];
            let escape = cdf[length - 1] - cdf[length - 2];
            &&& length < 2 ==> !can
            &&& 0 <= v < length - 2 ==> (can <==> v + 1 < cdf.len() && i32::MIN <= own <= i32::MAX
                && own as u16 != 0)
            &&& length >= 2 && (v < 0 || length - 2 <= v) ==> (can <==> length <= cdf.len()
                && i32::MIN <= escape <= i32::MAX && escape as u16 != 0 && distance < 0x1000_0000
                && i32::MIN <= v <= i32::MAX)
        }),
{
}

/// Symbols can be coded together where there is an index for each, each of these indexes
/// is a place in all three lists, and each symbol can be coded by the table at its place.
pub proof fn symbols_can_be_coded_where_each_can(symbols: Seq<i32>, indexes: Seq<i32>, t: Tables)
    ensures
        encodable(symbols, indexes, t) <==> symbols.len() <= indexes.len() && forall|i: int|
            #![trigger indexes[i]]
            0 <= i < symbols.len() ==> {
                let j = indexes[i] as int;
                &&& 0 <= j < t.cdfs.len() && j < t.lengths.len() && j < t.offsets.len()
                &&& (Row { cdf: t.cdfs[j], length: t.lengths[j], offset: t.offsets[j] }).encodable(
                    symbols[i],
                )
            },
{
    if symbols.len() <= indexes.len() && (forall|i: int|
        #![trigger indexes[i]]
        0 <= i < symbols.len() ==> {
            let j = indexes[i] as int;
            &&& 0 <= j < t.cdfs.len() && j < t.lengths.len() && j < t.offsets.len()
            &&& (Row { cdf: t.cdfs[j], length: t.lengths[j], offset: t.offsets[j] }).encodable(
                symbols[i],
            )
        }) {
        assert forall|i: int| 0 <= i < symbols.len() implies t.has(#[trigger] indexes[i]) && t.row(
            indexes[i],
        ).encodable(symbols[i]) by {}
    }
}

proof fn lemma_steps_shifted(symbols: Seq<i32>, indexes: Seq<i32>, t: Tables, k: int)
    requires
        0 <= k,
        0 < symbols.len() <= indexes.len(),
    ensures
        steps_from(symbols, indexes, t, k + 1) == steps_from(
            symbols.drop_first(),
            indexes.drop_first(),
            t,
            k,
        ),
    decreases symbols.len() - k,
{
    if k + 1 < symbols.len() {
        lemma_steps_shifted(symbols, indexes, t, k + 1);
        assert(symbols.drop_first()[k] == symbols[k + 1]);
        assert(indexes.drop_first()[k] == indexes[k + 1]);
    }
}

/// Symbols are coded in order: the steps of the first one, by the table whose place its
/// index is, then the steps of the others.
pub proof fn symbols_are_coded_in_order(symbols: Seq<i32>, indexes: Seq<i32>, t: Tables)
    requires
        symbols.len() <= indexes.len(),
    ensures
        symbols.len() == 0 ==> steps_from(symbols, indexes, t, 0) == Seq::<RansSymbol>::empty(),
        symbols.len() > 0 ==> {
            let j = indexes[0] as int;
            steps_from(symbols, indexes, t, 0) == (Row {
                cdf: t.cdfs[j],
                length: t.lengths[j],
                offset: t.offsets[j],
            }).steps(symbols[0]) + steps_from(symbols.drop_first(), indexes.drop_first(), t, 0)
        },
{
    if symbols.len() > 0 {
        lemma_steps_shifted(symbols, indexes, t, 0);
    }
}

/// Whether the entries in use that do not exceed the low sixteen bits of the state are
/// those up to place `v`.
pub open spec fn points_at(s: Stream, cdf: Seq<i32>, length: i32, v: int) -> bool {
    &&& v < length
    &&& forall|i: int| 0 <= i <= v ==> #[trigger] cdf[i] <= s.x % 0x1_0000
    &&& forall|i: int| v < i < length ==> #[trigger] cdf[i] > s.x % 0x1_0000
}

/// The low sixteen bits of the state name the symbol: where they lie from entry `v` on and
/// before entry `v + 1`, and `v` is not the escape, the symbol is `v` plus the offset, and
/// what remains is the stream without that slot.
pub proof fn low_bits_name_the_symbol(
    cdf: Seq<i32>,
    length: i32,
    offset: i32,
    s: Stream,
    v: int,
)
    requires
        0 <= v < length <= cdf.len(),
        v + 1 < cdf.len(),
        v != length - 2,
        forall|i: int| 0 <= i <= v ==> #[trigger] cdf[i] <= s.x % 0x1_0000,
        forall|i: int| v < i < length ==> #[trigger] cdf[i] > s.x % 0x1_0000,
    ensures
        ({
            let width = cdf[v + 1] - cdf[v];
            let rest = without_slot(s, cdf[v] as u64, width as u64);
            let read = symbol_read(s, Row { cdf, length, offset });
            &&& read is Some <==> i32::MIN <= width <= i32::MAX && rest is Some && v + offset
                <= i32::MAX
            &&& read is Some ==> read->Some_0.0 == v + offset && Some(read->Some_0.1) == rest
        }),
{
    let cum = s.x % 0x1_0000;
    assert(splits(cdf, length as int, cum, v + 1));
    lemma_rank(cdf, length as int, cum, v + 1);
}

/// Where the low sixteen bits lie in the escape slot, between the last two entries in use,
/// a distance follows. An odd distance counts downwards from the offset, an even one
/// upwards from the escape.
pub proof fn escape_is_followed_by_a_distance(
    cdf: Seq<i32>,
    length: i32,
    offset: i32,
    s: Stream,
)
    requires
        2 <= length <= cdf.len(),
        forall|i: int| 0 <= i < length - 1 ==> #[trigger] cdf[i] <= s.x % 0x1_0000,
        cdf[length - 1] > s.x % 0x1_0000,
    ensures
        ({
            let start = cdf[length - 2];
            let width = cdf[length - 1] - start;
            let rest = without_slot(s, start as u64, width as u64);
            let read = symbol_read(s, Row { cdf, length, offset });
            &&& rest is None || width > i32::MAX ==> read is None
            &&& width <= i32::MAX && rest is Some ==> match distance_read(rest->Some_0) {
                None => read is None,
                Some((distance, after)) => {
                    let v = if distance % 2 == 1 {
                        -((distance + 1) / 2)
                    } else {
                        distance / 2 + length - 2
                    };
                    &&& read is Some <==> i32::MIN <= v <= i32::MAX && i32::MIN <= v + offset
                        <= i32::MAX
                    &&& read is Some ==> read->Some_0.0 == v + offset && read->Some_0.1 == after
                },
            }
        }),
{
    let cum = s.x % 0x1_0000;
    assert(splits(cdf, length as int, cum, length - 1));
    lemma_rank(cdf, length as int, cum, length - 1);
}

/// No symbol is read by a table with fewer entries than it says, by one that is not ordered
/// around the low sixteen bits, nor where these lie before the first entry or behind the
/// last one there is.
pub proof fn symbol_outside_the_table_is_refused(cdf: Seq<i32>, length: i32, offset: i32, s: Stream)
    ensures
        symbol_read(s, Row { cdf, length, offset }) is Some ==> {
            &&& 0 <= length <= cdf.len()
            &&& exists|v: int| 0 <= v && v + 1 < cdf.len() && points_at(s, cdf, length, v)
        },
{
    let cum = s.x % 0x1_0000;
    if symbol_read(s, Row { cdf, length, offset }) is Some {
        let k = rank(cdf, length as int, cum);
        assert(splits(cdf, length as int, cum, k));
        assert(points_at(s, cdf, length, k - 1));
    }
}

/// A distance is read as the number of its hexadecimal digits, at most eight, and then the
/// digits, the least significant one first.
pub proof fn distance_is_read_digit_by_digit(s: Stream, n: int)
    requires
        0 <= n,
    ensures
        s.x % 16 > 8 ==> distance_read(s) is None,
        s.x % 16 <= 8 ==> match without_bits(s) {
            None => distance_read(s) is None,
            Some(rest) => distance_read(s) == number_read(rest, s.x % 16),
        },
        number_read(s, 0) == Some((0int, s)),
        match without_bits(s) {
            None => number_read(s, n + 1) is None,
            Some(rest) => match number_read(rest, n) {
                None => number_read(s, n + 1) is None,
                Some((high, after)) => number_read(s, n + 1) matches Some((number, behind))
                    && number / 16 == high && number % 16 == s.x % 16 && behind == after,
            },
        },
{
}

proof fn lemma_number_in_state(s: Stream, n: nat)
    requires
        0 <= s.x,
        s.x / pow(16, n) >= 0x8000_0000,
    ensures
        number_read(s, n as int) == Some(
            (s.x % pow(16, n), Stream { x: s.x / pow(16, n), words: s.words }),
        ),
    decreases n,
{
    reveal(pow);
    if n > 0 {
        let p = pow(16, (n - 1) as nat);
        lemma_next_nibble(s.x, n as int);
        let high = s.x / 16;
        assert(high >= 0x8000_0000) by {
            lemma_div_is_ordered_by_denominator(high, 1, p);
        }
        taken_bits_divide_the_state(s);
        lemma_number_in_state(Stream { x: high, words: s.words }, (n - 1) as nat);
        lemma_breakdown(s.x, 16, p);
    }
}

/// A distance that the state holds whole, with `2^31` or more above it, is read off the
/// state: above the lowest digit, which is the number `n` of its digits, it is the lowest
/// `n` digits, and what is above those remains.
pub proof fn distance_stands_in_the_state(s: Stream)
    requires
        0 <= s.x,
        s.x % 16 <= 8,
        (s.x / 16) / pow(16, (s.x % 16) as nat) >= 0x8000_0000,
    ensures
        ({
            let p = pow(16, (s.x % 16) as nat);
            distance_read(s) == Some(
                ((s.x / 16) % p, Stream { x: (s.x / 16) / p, words: s.words }),
            )
        }),
{
    let n = (s.x % 16) as nat;
    lemma_pow_positive(16, n);
    lemma_div_is_ordered_by_denominator(s.x / 16, 1, pow(16, n));
    taken_bits_divide_the_state(s);
    lemma_number_in_state(Stream { x: s.x / 16, words: s.words }, n);
}

} // verus!
