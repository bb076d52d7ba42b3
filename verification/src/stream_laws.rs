//! What an encoding is as bytes: how one more symbol changes the bytes, and how the first
//! symbol is read from them.
use crate::byte_laws::{le_number, lemma_eight_digits, words_are_groups_of_four_bytes};
use crate::bytes::{bytes_of, words_of};
use crate::coder::{
    decoding, encodable, encoding, lemma_nibble_count, nibble_count, nibble_steps, steps_from,
    symbol_read, symbols_read, Row, Tables,
};
use crate::rans::{flushed, lemma_put_bounded, opened, stream_of, RansSymbol, Stream};
use crate::rans_laws::{
    bits_are_put_in_front, finished_stream_begins_with_its_state, slot_is_put_in_front,
    taken_slot_shrinks_the_state,
};
use crate::symbol_laws::{
    lemma_nibbles, lemma_next_nibble, low_bits_name_the_symbol, plain_symbol_is_coded_by_its_slot,
    symbols_are_coded_in_order,
};
use vstd::arithmetic::power::{lemma_pow_strictly_increases, pow};
use vstd::prelude::*;

verus! {

/// Steps that can be absorbed leave a state of 64 bits.
proof fn lemma_stream_bounded(steps: Seq<RansSymbol>)
    requires
        forall|i: int| 0 <= i < steps.len() ==> (#[trigger] steps[i]).valid(),
    ensures
        0 <= stream_of(steps).x <= u64::MAX,
    decreases steps.len(),
{
    if steps.len() > 0 {
        let rest = steps.drop_first();
        assert forall|i: int| 0 <= i < rest.len() implies (#[trigger] rest[i]).valid() by {
            assert(rest[i] == steps[i + 1]);
        }
        lemma_stream_bounded(rest);
        lemma_put_bounded(steps[0], stream_of(rest));
    }
}

proof fn lemma_nibbles_valid(n: int)
    ensures
        forall|i: int| 0 <= i < nibble_steps(n).len() ==> (#[trigger] nibble_steps(n)[i]).valid(),
    decreases n,
{
    if n > 0 {
        lemma_nibbles_valid(n / 16);
        assert forall|i: int| 0 <= i < nibble_steps(n).len() implies (#[trigger] nibble_steps(
            n,
        )[i]).valid() by {
            if i > 0 {
                assert(nibble_steps(n)[i] == nibble_steps(n / 16)[i - 1]);
            }
        }
    }
}

/// The steps of symbols that can be coded can be absorbed.
proof fn lemma_steps_valid(symbols: Seq<i32>, indexes: Seq<i32>, t: Tables, k: int)
    requires
        encodable(symbols, indexes, t),
        0 <= k,
    ensures
        forall|i: int|
            0 <= i < steps_from(symbols, indexes, t, k).len() ==> (#[trigger] steps_from(
                symbols,
                indexes,
                t,
                k,
            )[i]).valid(),
    decreases symbols.len() - k,
{
    if k < symbols.len() {
        lemma_steps_valid(symbols, indexes, t, k + 1);
        let row = t.row(indexes[k]);
        let own = row.steps(symbols[k]);
        let rest = steps_from(symbols, indexes, t, k + 1);
        let distance = row.distance(symbols[k]);
        if row.escapes(symbols[k]) {
            lemma_nibbles_valid(distance);
            lemma_nibble_count(distance);
        }
        assert forall|i: int| 0 <= i < (own + rest).len() implies (#[trigger] (own
            + rest)[i]).valid() by {
            if i < own.len() {
                assert((own + rest)[i] == own[i]);
                if i >= 2 {
                    assert(own[i] == nibble_steps(distance)[i - 2]);
                }
            } else {
                assert((own + rest)[i] == rest[i - own.len()]);
            }
        }
    }
}

/// An encoding is eight bytes that have the final state as their number, then the words
/// that were shed, four bytes each.
pub proof fn encoding_begins_with_the_state(symbols: Seq<i32>, indexes: Seq<i32>, t: Tables)
    requires
        encodable(symbols, indexes, t),
    ensures
        ({
            let s = stream_of(steps_from(symbols, indexes, t, 0));
            let e = encoding(symbols, indexes, t);
            &&& 0 <= s.x <= u64::MAX
            &&& e.len() == 8 + 4 * s.words.len()
            &&& le_number(e.take(8)) == s.x
            &&& e.skip(8) == bytes_of(s.words)
            &&& forall|i: int|
                0 <= i < s.words.len() ==> le_number(e.subrange(8 + 4 * i, 12 + 4 * i))
                    == #[trigger] s.words[i]
        }),
{
    lemma_steps_valid(symbols, indexes, t, 0);
    lemma_stream_bounded(steps_from(symbols, indexes, t, 0));
    finished_stream_begins_with_its_state(stream_of(steps_from(symbols, indexes, t, 0)));
}

/// Coding no symbols gives the eight bytes of the number `2^31`.
pub proof fn no_symbols_are_coded_as_the_least_state(indexes: Seq<i32>, t: Tables)
    ensures
        encoding(Seq::empty(), indexes, t).len() == 8,
        le_number(encoding(Seq::empty(), indexes, t)) == 0x8000_0000,
{
    let none = Seq::<i32>::empty();
    encoding_begins_with_the_state(none, indexes, t);
    assert(encoding(none, indexes, t).take(8) =~= encoding(none, indexes, t));
}

/// One more symbol in front, `v` behind the offset and inside the slots before the escape,
/// changes the bytes of the others thus: the number `x` of the first eight bytes becomes
/// `2^16 * (x / f) + x % f + start`, where the slot begins at entry `v`, the number `start`,
/// and is `f` wide. Where `x` is `2^47 * f` or more, its low four bytes are first moved
/// behind the first eight. All other bytes stay.
pub proof fn plain_symbol_goes_in_front(symbols: Seq<i32>, indexes: Seq<i32>, t: Tables)
    requires
        symbols.len() > 0,
        encodable(symbols, indexes, t),
        ({
            let j = indexes[0] as int;
            let v = symbols[0] - t.offsets[j];
            &&& 0 <= v < t.lengths[j] - 2
            &&& 0 <= t.cdfs[j][v] < t.cdfs[j][v + 1] <= 0x1_0000
            &&& t.cdfs[j][v + 1] - t.cdfs[j][v] < 0x1_0000
        }),
    ensures
        ({
            let j = indexes[0] as int;
            let v = symbols[0] - t.offsets[j];
            let start = t.cdfs[j][v];
            let f = t.cdfs[j][v + 1] - t.cdfs[j][v];
            let before = encoding(symbols.drop_first(), indexes.drop_first(), t);
            let after = encoding(symbols, indexes, t);
            let x = le_number(before.take(8));
            let high = x / 0x1_0000_0000;
            &&& x < 0x8000_0000_0000 * f ==> {
                &&& le_number(after.take(8)) == 0x1_0000 * (x / f) + x % f + start
                &&& after.skip(8) == before.skip(8)
            }
            &&& x >= 0x8000_0000_0000 * f ==> {
                &&& le_number(after.take(8)) == 0x1_0000 * (high / f) + high % f + start
                &&& le_number(after.subrange(8, 12)) == x % 0x1_0000_0000
                &&& after.skip(12) == before.skip(8)
            }
        }),
{
    let rest = symbols.drop_first();
    let names = indexes.drop_first();
    lemma_others_encodable(symbols, indexes, t);
    encoding_begins_with_the_state(symbols, indexes, t);
    encoding_begins_with_the_state(rest, names, t);
    let j = indexes[0] as int;
    assert(t.has(indexes[0]));
    plain_symbol_is_coded_by_its_slot(t.cdfs[j], t.lengths[j], t.offsets[j], symbols[0]);
    symbols_are_coded_in_order(symbols, indexes, t);
    let steps = steps_from(symbols, indexes, t, 0);
    assert(steps.drop_first() =~= steps_from(rest, names, t, 0));
    slot_is_put_in_front(steps);
    let before = stream_of(steps.drop_first());
    if stream_of(steps).words.len() > before.words.len() {
        let low = (before.x % 0x1_0000_0000) as u32;
        lemma_shed_word_in_bytes(stream_of(steps), low, before.words);
    }
}

/// The digits of a number, put in front of a state that has room for them, multiply it by
/// 16 for each digit and add the number.
proof fn lemma_nibbles_put(n: int, rest: Seq<RansSymbol>)
    requires
        0 <= n,
        0 <= stream_of(rest).x,
        pow(16, nibble_count(n) as nat) * stream_of(rest).x + n < 0x800_0000_0000_0000,
    ensures
        stream_of(nibble_steps(n) + rest) == (Stream {
            x: pow(16, nibble_count(n) as nat) * stream_of(rest).x + n,
            words: stream_of(rest).words,
        }),
    decreases n,
{
    let x = stream_of(rest).x;
    let c = nibble_count(n);
    lemma_nibbles(n);
    reveal(pow);
    if n == 0 {
        assert(nibble_steps(n) + rest =~= rest);
        let one = pow(16, c as nat);
        assert(one * x == x) by (nonlinear_arith)
            requires
                one == 1,
        ;
    } else {
        let steps = nibble_steps(n) + rest;
        lemma_next_nibble(n, c);
        let p = pow(16, (c - 1) as nat);
        let all = pow(16, c as nat);
        assert(all * x == 16 * (p * x)) by (nonlinear_arith)
            requires
                all == 16 * p,
        ;
        assert(0 <= p * x) by (nonlinear_arith)
            requires
                0 < p,
                0 <= x,
        ;
        lemma_nibbles_put(n / 16, rest);
        assert(steps.drop_first() =~= nibble_steps(n / 16) + rest);
        bits_are_put_in_front(steps);
    }
}

/// One more symbol in front, without a slot of its own, changes the bytes of the others
/// thus, where the number `x` of the first eight bytes has room for the digits of the
/// distance: `x` becomes `y = 16 * (16^n * x + distance) + n`, where `n` is the number of
/// hexadecimal digits of the distance. Then the slot between the last two entries in use
/// goes in front of `y`, as the slot of any other symbol does. A symbol that lies `v` behind
/// the offset has the distance `2 * (v - (length - 2))` where it lies behind the slots, and
/// `-2 * v - 1` where it lies before them.
pub proof fn escaping_symbol_goes_in_front(symbols: Seq<i32>, indexes: Seq<i32>, t: Tables, n: nat)
    requires
        symbols.len() > 0,
        encodable(symbols, indexes, t),
        ({
            let j = indexes[0] as int;
            let last = t.lengths[j] - 1;
            let v = symbols[0] - t.offsets[j];
            let distance = if v < 0 {
                -2 * v - 1
            } else {
                2 * (v - (last - 1))
            };
            let before = encoding(symbols.drop_first(), indexes.drop_first(), t);
            &&& !(0 <= v < last - 1)
            &&& 0 <= t.cdfs[j][last - 1] < t.cdfs[j][last] <= 0x1_0000
            &&& t.cdfs[j][last] - t.cdfs[j][last - 1] < 0x1_0000
            &&& distance < pow(16, n)
            &&& n > 0 ==> pow(16, (n - 1) as nat) <= distance
            &&& pow(16, n) * le_number(before.take(8)) + distance < 0x800_0000_0000_0000
        }),
    ensures
        ({
            let j = indexes[0] as int;
            let last = t.lengths[j] - 1;
            let v = symbols[0] - t.offsets[j];
            let distance = if v < 0 {
                -2 * v - 1
            } else {
                2 * (v - (last - 1))
            };
            let start = t.cdfs[j][last - 1];
            let f = t.cdfs[j][last] - t.cdfs[j][last - 1];
            let before = encoding(symbols.drop_first(), indexes.drop_first(), t);
            let after = encoding(symbols, indexes, t);
            let y = 16 * (pow(16, n) * le_number(before.take(8)) + distance) + n;
            let high = y / 0x1_0000_0000;
            &&& y < 0x8000_0000_0000 * f ==> {
                &&& le_number(after.take(8)) == 0x1_0000 * (y / f) + y % f + start
                &&& after.skip(8) == before.skip(8)
            }
            &&& y >= 0x8000_0000_0000 * f ==> {
                &&& le_number(after.take(8)) == 0x1_0000 * (high / f) + high % f + start
                &&& le_number(after.subrange(8, 12)) == y % 0x1_0000_0000
                &&& after.skip(12) == before.skip(8)
            }
        }),
{
    let rest = symbols.drop_first();
    let names = indexes.drop_first();
    lemma_others_encodable(symbols, indexes, t);
    encoding_begins_with_the_state(symbols, indexes, t);
    encoding_begins_with_the_state(rest, names, t);
    let j = indexes[0] as int;
    assert(t.has(indexes[0]));
    let row = t.row(indexes[0]);
    let distance = row.distance(symbols[0]);
    symbols_are_coded_in_order(symbols, indexes, t);
    let others = steps_from(rest, names, t, 0);
    lemma_nibbles(distance);
    lemma_nibble_count(distance);
    lemma_digit_count(distance, n, nibble_count(distance) as nat);
    lemma_nibbles_put(distance, others);
    let steps = steps_from(symbols, indexes, t, 0);
    let digits = nibble_steps(distance) + others;
    assert(steps.drop_first().drop_first() =~= digits);
    bits_are_put_in_front(steps.drop_first());
    slot_is_put_in_front(steps);
    let before = stream_of(steps.drop_first());
    if stream_of(steps).words.len() > before.words.len() {
        let low = (before.x % 0x1_0000_0000) as u32;
        lemma_shed_word_in_bytes(stream_of(steps), low, before.words);
    }
}

/// A number has one count of digits.
proof fn lemma_digit_count(value: int, a: nat, b: nat)
    requires
        0 <= value < pow(16, a),
        value < pow(16, b),
        a > 0 ==> pow(16, (a - 1) as nat) <= value,
        b > 0 ==> pow(16, (b - 1) as nat) <= value,
    ensures
        a == b,
{
    if a < b {
        if a < b - 1 {
            lemma_pow_strictly_increases(16, a, (b - 1) as nat);
        }
    } else if b < a {
        if b < a - 1 {
            lemma_pow_strictly_increases(16, b, (a - 1) as nat);
        }
    }
}

/// A word in front of others is four bytes in front of theirs.
proof fn lemma_bytes_behind(word: u32, words: Seq<u32>)
    ensures
        bytes_of(seq![word] + words).skip(4) == bytes_of(words),
{
    let all = seq![word] + words;
    assert forall|i: int| 0 <= i < 4 * words.len() implies #[trigger] bytes_of(all).skip(4)[i]
        == bytes_of(words)[i] by {
        assert((i + 4) / 4 == i / 4 + 1 && (i + 4) % 4 == i % 4);
        assert(all[i / 4 + 1] == words[i / 4]);
    }
    assert(bytes_of(all).skip(4) =~= bytes_of(words));
}

/// What a word in front of the others is in bytes.
proof fn lemma_shed_word_in_bytes(after: Stream, word: u32, words: Seq<u32>)
    requires
        0 <= after.x <= u64::MAX,
        after.words == seq![word] + words,
    ensures
        le_number(bytes_of(flushed(after)).subrange(8, 12)) == word,
        bytes_of(flushed(after)).skip(12) == bytes_of(words),
{
    let e = bytes_of(flushed(after));
    finished_stream_begins_with_its_state(after);
    assert(after.words[0] == word);
    assert(e.subrange(8 + 4 * 0int, 12 + 4 * 0int) =~= e.subrange(8, 12));
    assert(e.skip(12) =~= e.skip(8).skip(4));
    lemma_bytes_behind(word, words);
}

/// The symbols behind the first one can be coded where all can.
proof fn lemma_others_encodable(symbols: Seq<i32>, indexes: Seq<i32>, t: Tables)
    requires
        symbols.len() > 0,
        encodable(symbols, indexes, t),
    ensures
        encodable(symbols.drop_first(), indexes.drop_first(), t),
{
    let rest = symbols.drop_first();
    let names = indexes.drop_first();
    assert forall|i: int| 0 <= i < rest.len() implies t.has(#[trigger] names[i]) && t.row(
        names[i],
    ).encodable(rest[i]) by {
        assert(t.has(indexes[i + 1]));
    }
}

/// The stream that bytes hold: the number of the first eight, and the words behind them.
proof fn lemma_opened_bytes(encoded: Seq<u8>)
    ensures
        encoded.len() < 8 ==> opened(words_of(encoded)) is None,
        encoded.len() >= 8 ==> opened(words_of(encoded)) == Some(
            Stream { x: le_number(encoded.take(8)), words: words_of(encoded.skip(8)) },
        ),
{
    words_are_groups_of_four_bytes(encoded);
    if encoded.len() >= 8 {
        let first = encoded.take(8);
        lemma_eight_digits(first);
        assert(first.take(4) =~= encoded.subrange(4 * 0int, 4 * 0int + 4));
        assert(first.skip(4) =~= encoded.subrange(4 * 1int, 4 * 1int + 4));
        let w = words_of(encoded);
        assert(w[0] == le_number(first.take(4)));
        assert(w[1] == le_number(first.skip(4)));
        assert(w.skip(2) =~= words_of(encoded.skip(8))) by {
            assert(w.len() == words_of(encoded.skip(8)).len() + 2);
            assert forall|i: int| 0 <= i < w.len() - 2 implies w.skip(2)[i] == words_of(
                encoded.skip(8),
            )[i] by {
                assert(w.skip(2)[i] == w[i + 2]);
                words_are_groups_of_four_bytes(encoded.skip(8));
                assert(encoded.skip(8).subrange(4 * i, 4 * i + 4) =~= encoded.subrange(
                    4 * (i + 2),
                    4 * (i + 2) + 4,
                ));
                assert(words_of(encoded.skip(8))[i] == le_number(
                    encoded.skip(8).subrange(4 * i, 4 * i + 4),
                ));
            }
        }
    }
}

/// Reading symbols is reading the first one, and then the others from what remains.
proof fn lemma_symbols_read_front(s: Stream, indexes: Seq<i32>, t: Tables, k: int)
    requires
        0 <= k < indexes.len(),
    ensures
        symbols_read(s, indexes, t, k + 1) == if !t.has(indexes[0]) {
            None
        } else {
            match symbol_read(s, t.row(indexes[0])) {
                None => None,
                Some((symbol, u)) => match symbols_read(u, indexes.drop_first(), t, k) {
                    None => None,
                    Some((others, after)) => Some((seq![symbol] + others, after)),
                },
            }
        },
    decreases k,
{
    reveal_with_fuel(symbols_read, 2);
    let names = indexes.drop_first();
    if k == 0 {
        if let Some((symbol, u)) = symbol_read(s, t.row(indexes[0])) {
            assert(Seq::<i32>::empty().push(symbol) =~= seq![symbol] + Seq::<i32>::empty());
        }
    } else {
        lemma_symbols_read_front(s, indexes, t, k - 1);
        assert(names[k - 1] == indexes[k]);
        if t.has(indexes[0]) {
            if let Some((symbol, u)) = symbol_read(s, t.row(indexes[0])) {
                if let Some((others, w)) = symbols_read(u, names, t, k - 1) {
                    if let Some((last, after)) = symbol_read(w, t.row(indexes[k])) {
                        assert((seq![symbol] + others).push(last) =~= seq![symbol] + others.push(
                            last,
                        ));
                    }
                }
            }
        }
    }
}

/// Fewer than eight bytes are not decoded; no indexes decode no symbols.
pub proof fn decoding_takes_eight_bytes(encoded: Seq<u8>, indexes: Seq<i32>, t: Tables)
    ensures
        encoded.len() < 8 ==> decoding(encoded, indexes, t) is None,
        encoded.len() >= 8 && indexes.len() == 0 ==> decoding(encoded, indexes, t) == Some(
            Seq::<i32>::empty(),
        ),
{
    lemma_opened_bytes(encoded);
}

/// The first symbol is read, from the number of the first eight bytes and the words behind
/// them, by the table whose place the first index is. The others are what any bytes that
/// hold the remaining state and words are decoded to with the other indexes.
pub proof fn first_symbol_is_read_by_its_table(
    encoded: Seq<u8>,
    indexes: Seq<i32>,
    t: Tables,
    rest: Seq<u8>,
)
    requires
        indexes.len() > 0,
        encoded.len() >= 8,
        rest.len() >= 8,
    ensures
        ({
            let j = indexes[0] as int;
            let inside = 0 <= j < t.cdfs.len() && j < t.lengths.len() && j < t.offsets.len();
            let s = Stream { x: le_number(encoded.take(8)), words: words_of(encoded.skip(8)) };
            let row = Row { cdf: t.cdfs[j], length: t.lengths[j], offset: t.offsets[j] };
            let all = decoding(encoded, indexes, t);
            &&& !inside ==> all is None
            &&& inside && symbol_read(s, row) is None ==> all is None
            &&& inside && symbol_read(s, row) is Some ==> {
                let (symbol, u) = symbol_read(s, row)->Some_0;
                u.x == le_number(rest.take(8)) && u.words == words_of(rest.skip(8)) ==> match decoding(
                    rest,
                    indexes.drop_first(),
                    t,
                ) {
                    None => all is None,
                    Some(others) => all == Some(seq![symbol] + others),
                }
            }
        }),
{
    lemma_opened_bytes(encoded);
    lemma_opened_bytes(rest);
    let s = opened(words_of(encoded))->Some_0;
    lemma_symbols_read_front(s, indexes, t, indexes.len() - 1);
}

/// Where the low sixteen bits of the number `x` of the first eight bytes lie from entry `v`
/// on and before entry `v + 1`, and `v` is a slot before the escape, the first symbol is `v`
/// plus the offset. The others are decoded from the same bytes with the number of the first
/// eight made `f * (x / 2^16) + x % 2^16 - start`, where the slot begins at entry `v`, the
/// number `start`, and is `f` wide. Where that is below `2^31`, the next four bytes are
/// taken in below it, and nothing is decoded where there are none.
pub proof fn low_bytes_name_the_first_symbol(
    encoded: Seq<u8>,
    indexes: Seq<i32>,
    t: Tables,
    v: int,
    rest: Seq<u8>,
)
    requires
        indexes.len() > 0,
        encoded.len() >= 8,
        rest.len() >= 8,
        0 <= indexes[0] < t.cdfs.len(),
        indexes[0] < t.lengths.len(),
        indexes[0] < t.offsets.len(),
        ({
            let j = indexes[0] as int;
            let cdf = t.cdfs[j];
            let cum = le_number(encoded.take(8)) % 0x1_0000;
            &&& 0 <= v < t.lengths[j] - 2
            &&& t.lengths[j] <= cdf.len()
            &&& v + t.offsets[j] <= i32::MAX
            &&& 0 <= cdf[v] < cdf[v + 1] <= 0x1_0000
            &&& forall|i: int| 0 <= i <= v ==> #[trigger] cdf[i] <= cum
            &&& forall|i: int| v < i < t.lengths[j] ==> #[trigger] cdf[i] > cum
        }),
    ensures
        ({
            let j = indexes[0] as int;
            let start = t.cdfs[j][v];
            let f = t.cdfs[j][v + 1] - t.cdfs[j][v];
            let x = le_number(encoded.take(8));
            let y = f * (x / 0x1_0000) + x % 0x1_0000 - start;
            let all = decoding(encoded, indexes, t);
            let others = decoding(rest, indexes.drop_first(), t);
            let told = others matches Some(o) ==> all == Some(
                seq![(v + t.offsets[j]) as i32] + o,
            );
            &&& y >= 0x8000_0000 && le_number(rest.take(8)) == y && rest.skip(8) == encoded.skip(8)
                ==> told && (all is None <==> others is None)
            &&& y < 0x8000_0000 && encoded.len() < 12 ==> all is None
            &&& y < 0x8000_0000 && encoded.len() >= 12 && le_number(rest.take(8)) == 0x1_0000_0000
                * y + le_number(encoded.subrange(8, 12)) && rest.skip(8) == encoded.skip(12)
                ==> told && (all is None <==> others is None)
        }),
{
    let j = indexes[0] as int;
    let cdf = t.cdfs[j];
    let start = cdf[v];
    let f = cdf[v + 1] - cdf[v];
    let x = le_number(encoded.take(8));
    lemma_eight_digits(encoded.take(8));
    let q = x / 0x1_0000;
    let y = f * q + x % 0x1_0000 - start;
    assert(0 <= f * q <= 0x1_0000 * q) by (nonlinear_arith)
        requires
            0 <= f <= 0x1_0000,
            0 <= q,
    ;
    let words = words_of(encoded.skip(8));
    let s = Stream { x, words };
    low_bits_name_the_symbol(cdf, t.lengths[j], t.offsets[j], s, v);
    first_symbol_is_read_by_its_table(encoded, indexes, t, rest);
    taken_slot_shrinks_the_state(s, start as u64, f as u64);
    if encoded.len() >= 12 {
        words_are_groups_of_four_bytes(encoded.skip(8));
        assert(encoded.skip(8).subrange(4 * 0int, 4 * 0int + 4) =~= encoded.subrange(8, 12));
        assert(words[0] == le_number(encoded.subrange(8, 12)));
        assert(words.skip(1) =~= words_of(encoded.skip(12))) by {
            words_are_groups_of_four_bytes(encoded.skip(12));
            assert forall|i: int| 0 <= i < words.len() - 1 implies words.skip(1)[i] == words_of(
                encoded.skip(12),
            )[i] by {
                assert(words.skip(1)[i] == words[i + 1]);
                assert(encoded.skip(8).subrange(4 * (i + 1), 4 * (i + 1) + 4)
                    =~= encoded.skip(12).subrange(4 * i, 4 * i + 4));
                assert(words_of(encoded.skip(12))[i] == le_number(
                    encoded.skip(12).subrange(4 * i, 4 * i + 4),
                ));
            }
        }
    } else {
        assert(words.len() == 0);
    }
}

} // verus!
