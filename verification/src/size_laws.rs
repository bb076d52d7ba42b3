//! How long encodings are: what splitting a list of symbols costs.
use crate::chunks::{chunk, chunk_count, chunk_end, chunk_is_coded_apart, lemma_chunk_count, lemma_chunk_inside};
use crate::coder::{
    encodable, encoding, lemma_nibble_count, nibble_steps, steps_from, Row, Tables,
};
use crate::coder_laws::separable;
use crate::rans::{bits_are_undone, put, settled, slot_is_undone, stream_of, RansSymbol, Stream};
use vstd::prelude::*;

verus! {

/// Whether all steps lie inside the sixteen-bit range.
pub open spec fn all_fit(steps: Seq<RansSymbol>) -> bool {
    forall|i: int| 0 <= i < steps.len() ==> (#[trigger] steps[i]).fits()
}

/// Whether `a`, had it `k` words more, has fewer words than `b`, or as many and no greater
/// a state.
spec fn precedes(a: Stream, k: int, b: Stream) -> bool {
    a.words.len() + k < b.words.len() || (a.words.len() + k == b.words.len() && a.x <= b.x)
}

proof fn lemma_absorbed_grows(symbol: RansSymbol, x: int, y: int)
    requires
        symbol.fits(),
        0 <= x <= y,
    ensures
        symbol.absorbed(x) <= symbol.absorbed(y),
{
    if !symbol.bypass {
        let f = symbol.range as int;
        assert(0x1_0000 * (x / f) + x % f <= 0x1_0000 * (y / f) + y % f) by (nonlinear_arith)
            requires
                0 <= x <= y,
                0 < f <= 0x1_0000,
        ;
    }
}

/// Putting a step in front of streams keeps their order.
proof fn lemma_put_keeps_order(symbol: RansSymbol, a: Stream, k: int, b: Stream)
    requires
        symbol.fits(),
        settled(a),
        settled(b),
        precedes(a, k, b),
    ensures
        settled(put(symbol, a)),
        settled(put(symbol, b)),
        precedes(put(symbol, a), k, put(symbol, b)),
{
    if symbol.bypass {
        bits_are_undone(symbol, a);
        bits_are_undone(symbol, b);
    } else {
        slot_is_undone(symbol, a);
        slot_is_undone(symbol, b);
    }
    let x = if a.x >= symbol.limit() {
        a.x / 0x1_0000_0000
    } else {
        a.x
    };
    let y = if b.x >= symbol.limit() {
        b.x / 0x1_0000_0000
    } else {
        b.x
    };
    if x <= y {
        lemma_absorbed_grows(symbol, x, y);
    }
}

/// Steps read one after the other take as many words as the two parts do apart, or one more.
proof fn lemma_words_of_parts(a: Seq<RansSymbol>, b: Seq<RansSymbol>)
    requires
        all_fit(a),
        all_fit(b),
    ensures
        settled(stream_of(a)),
        settled(stream_of(b)),
        settled(stream_of(a + b)),
        precedes(stream_of(a), stream_of(b).words.len() as int, stream_of(a + b)),
        precedes(stream_of(a + b), -(stream_of(b).words.len() + 1), stream_of(a)),
    decreases a.len() + b.len(),
{
    if a.len() == 0 {
        assert(a + b =~= b);
        if b.len() > 0 {
            assert(all_fit(b.drop_first())) by {
                assert forall|i: int| 0 <= i < b.drop_first().len() implies (
                #[trigger] b.drop_first()[i]).fits() by {
                    assert(b.drop_first()[i] == b[i + 1]);
                }
            }
            lemma_words_of_parts(a, b.drop_first());
            lemma_put_keeps_order(b[0], stream_of(b.drop_first()), 0, stream_of(b.drop_first()));
        }
    } else {
        let rest = a.drop_first();
        assert(all_fit(rest)) by {
            assert forall|i: int| 0 <= i < rest.len() implies (#[trigger] rest[i]).fits() by {
                assert(rest[i] == a[i + 1]);
            }
        }
        lemma_words_of_parts(rest, b);
        assert((a + b).drop_first() =~= rest + b);
        let k = stream_of(b).words.len() as int;
        lemma_put_keeps_order(a[0], stream_of(rest), k, stream_of(rest + b));
        lemma_put_keeps_order(a[0], stream_of(rest + b), -(k + 1), stream_of(rest));
    }
}

/// The steps of a symbol whose slot is told from the others lie inside the range.
proof fn lemma_symbol_fits(row: Row, symbol: i32)
    requires
        row.encodable(symbol),
        row.separates(row.slot(symbol)),
    ensures
        all_fit(row.steps(symbol)),
{
    let distance = row.distance(symbol);
    if row.escapes(symbol) {
        lemma_nibble_count(distance);
        lemma_nibbles_fit(distance);
    }
}

proof fn lemma_nibbles_fit(n: int)
    ensures
        all_fit(nibble_steps(n)),
    decreases n,
{
    if n > 0 {
        lemma_nibbles_fit(n / 16);
        assert forall|i: int| 0 <= i < nibble_steps(n).len() implies (#[trigger] nibble_steps(
            n,
        )[i]).fits() by {
            if i > 0 {
                assert(nibble_steps(n)[i] == nibble_steps(n / 16)[i - 1]);
            }
        }
    }
}

proof fn lemma_steps_fit(symbols: Seq<i32>, indexes: Seq<i32>, t: Tables, k: int)
    requires
        encodable(symbols, indexes, t),
        separable(symbols, indexes, t),
        0 <= k,
    ensures
        all_fit(steps_from(symbols, indexes, t, k)),
    decreases symbols.len() - k,
{
    if k < symbols.len() {
        lemma_symbol_fits(t.row(indexes[k]), symbols[k]);
        lemma_steps_fit(symbols, indexes, t, k + 1);
    }
}

/// The steps of the second of two lists put together.
proof fn lemma_steps_of_second(
    a: Seq<i32>,
    a_indexes: Seq<i32>,
    b: Seq<i32>,
    b_indexes: Seq<i32>,
    t: Tables,
    k: int,
)
    requires
        a.len() == a_indexes.len(),
        b.len() <= b_indexes.len(),
        0 <= k <= b.len(),
    ensures
        steps_from(a + b, a_indexes + b_indexes, t, a.len() + k) == steps_from(b, b_indexes, t, k),
    decreases b.len() - k,
{
    if k < b.len() {
        lemma_steps_of_second(a, a_indexes, b, b_indexes, t, k + 1);
        assert((a_indexes + b_indexes)[a.len() + k] == b_indexes[k]);
        assert((a + b)[a.len() + k] == b[k]);
    }
}

/// The steps of two lists put together are the steps of the two.
proof fn lemma_steps_of_parts(
    a: Seq<i32>,
    a_indexes: Seq<i32>,
    b: Seq<i32>,
    b_indexes: Seq<i32>,
    t: Tables,
    k: int,
)
    requires
        a.len() == a_indexes.len(),
        b.len() <= b_indexes.len(),
        0 <= k <= a.len(),
    ensures
        steps_from(a + b, a_indexes + b_indexes, t, k) == steps_from(a, a_indexes, t, k)
            + steps_from(b, b_indexes, t, 0),
    decreases a.len() - k,
{
    let right = steps_from(b, b_indexes, t, 0);
    if k < a.len() {
        lemma_steps_of_parts(a, a_indexes, b, b_indexes, t, k + 1);
        assert((a_indexes + b_indexes)[k] == a_indexes[k]);
        assert((a + b)[k] == a[k]);
        let own = t.row(a_indexes[k]).steps(a[k]);
        assert(own + (steps_from(a, a_indexes, t, k + 1) + right) =~= own + steps_from(
            a,
            a_indexes,
            t,
            k + 1,
        ) + right);
    } else {
        lemma_steps_of_second(a, a_indexes, b, b_indexes, t, 0);
        assert(steps_from(a, a_indexes, t, k) + right =~= right);
    }
}

/// Coding two lists apart instead of together costs four bytes or eight, no matter how
/// long they are.
pub proof fn splitting_costs_at_most_eight_bytes(
    a: Seq<i32>,
    a_indexes: Seq<i32>,
    b: Seq<i32>,
    b_indexes: Seq<i32>,
    t: Tables,
)
    requires
        a.len() == a_indexes.len(),
        encodable(a, a_indexes, t),
        separable(a, a_indexes, t),
        encodable(b, b_indexes, t),
        separable(b, b_indexes, t),
    ensures
        ({
            let apart = encoding(a, a_indexes, t).len() + encoding(b, b_indexes, t).len();
            let together = encoding(a + b, a_indexes + b_indexes, t).len();
            apart == together + 4 || apart == together + 8
        }),
{
    let left = steps_from(a, a_indexes, t, 0);
    let right = steps_from(b, b_indexes, t, 0);
    lemma_steps_fit(a, a_indexes, t, 0);
    lemma_steps_fit(b, b_indexes, t, 0);
    lemma_steps_of_parts(a, a_indexes, b, b_indexes, t, 0);
    lemma_words_of_parts(left, right);
}

/// The number of bytes that the first `k` chunks take, coded apart.
pub open spec fn chunk_bytes(
    symbols: Seq<i32>,
    indexes: Seq<i32>,
    t: Tables,
    size: int,
    k: int,
) -> int
    decreases k,
{
    if k <= 0 {
        0
    } else {
        chunk_bytes(symbols, indexes, t, size, k - 1) + encoding(
            chunk(symbols, size, k - 1),
            chunk(indexes, size, k - 1),
            t,
        ).len()
    }
}

proof fn lemma_chunk_bytes(symbols: Seq<i32>, indexes: Seq<i32>, t: Tables, size: int, k: int)
    requires
        symbols.len() == indexes.len(),
        encodable(symbols, indexes, t),
        separable(symbols, indexes, t),
        0 < size,
        0 < k <= chunk_count(symbols.len() as int, size),
    ensures
        ({
            let end = chunk_end(symbols.len() as int, size, k - 1);
            chunk_bytes(symbols, indexes, t, size, k) <= encoding(
                symbols.take(end),
                indexes.take(end),
                t,
            ).len() + 8 * (k - 1)
        }),
    decreases k,
{
    let n = symbols.len() as int;
    let end = chunk_end(n, size, k - 1);
    let part = chunk(symbols, size, k - 1);
    let names = chunk(indexes, size, k - 1);
    lemma_chunk_inside(n, size, k - 1);
    if k == 1 {
        assert((k - 1) * size == 0) by (nonlinear_arith)
            requires
                k == 1,
        ;
        assert(part =~= symbols.take(end));
        assert(names =~= indexes.take(end));
        reveal_with_fuel(chunk_bytes, 2);
    } else {
        let start = (k - 1) * size;
        lemma_chunk_bytes(symbols, indexes, t, size, k - 1);
        assert((k - 2) * size + size == start) by (nonlinear_arith)
            requires
                start == (k - 1) * size,
        ;
        assert(chunk_end(n, size, k - 2) == start);
        let a = symbols.take(start);
        let a_indexes = indexes.take(start);
        assert(encodable(a, a_indexes, t) && separable(a, a_indexes, t)) by {
            assert forall|j: int| 0 <= j < a.len() implies t.has(#[trigger] a_indexes[j]) && t.row(
                a_indexes[j],
            ).encodable(a[j]) && t.row(a_indexes[j]).separates(t.row(a_indexes[j]).slot(a[j])) by {
                assert(a_indexes[j] == indexes[j]);
            }
        }
        chunk_is_coded_apart(symbols, indexes, t, size, k - 1);
        splitting_costs_at_most_eight_bytes(a, a_indexes, part, names, t);
        assert(a + part =~= symbols.take(end));
        assert(a_indexes + names =~= indexes.take(end));
    }
}

/// Coding symbols in chunks costs at most eight bytes for each chunk after the first.
pub proof fn chunking_costs_at_most_eight_bytes_a_chunk(
    symbols: Seq<i32>,
    indexes: Seq<i32>,
    t: Tables,
    size: int,
)
    requires
        symbols.len() == indexes.len(),
        encodable(symbols, indexes, t),
        separable(symbols, indexes, t),
        0 < size,
        0 < symbols.len(),
    ensures
        ({
            let count = chunk_count(symbols.len() as int, size);
            chunk_bytes(symbols, indexes, t, size, count) <= encoding(symbols, indexes, t).len() + 8
                * (count - 1)
        }),
{
    let n = symbols.len() as int;
    let count = chunk_count(n, size);
    lemma_chunk_count(n, size);
    lemma_chunk_bytes(symbols, indexes, t, size, count);
    assert((count - 1) * size + size == count * size) by (nonlinear_arith);
    assert(symbols.take(n) =~= symbols);
    assert(indexes.take(n) =~= indexes);
}

} // verus!
