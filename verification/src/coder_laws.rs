//! What decoding gives back of what was encoded.
use crate::bytes::{words_of, words_survive_bytes};
use crate::coder::{
    bits, decoding, distance_read, encodable, encoding, lemma_nibble_count, nibble_count,
    lemma_rank, nibble_steps, number_read, partitioned, rank, splits, steps_from, symbol_read, symbols_read, Row, Tables,
};
use crate::rans::{
    bits_are_undone, flushed, flushed_stream_opens, opened, put, refilled, settled, slot_is_undone, stream_of,
    RansSymbol, Stream,
};
use vstd::prelude::*;

verus! {

impl Row {
    /// Whether a slot can be told from the others by any frequency inside it: it lies
    /// inside the sixteen-bit range, no earlier entry in use exceeds its start, and no
    /// later one is below its end.
    pub open spec fn separates(self, slot: int) -> bool {
        &&& self.length <= self.cdf.len()
        &&& 0 <= self.cdf[slot] <= self.cdf[slot + 1] <= 0x1_0000
        &&& forall|i: int| 0 <= i <= slot ==> #[trigger] self.cdf[i] <= self.cdf[slot]
        &&& forall|i: int|
            slot < i < self.length ==> #[trigger] self.cdf[i] >= self.cdf[slot + 1]
    }

    /// Whether the entries in use are cumulative frequencies: they do not decrease, and
    /// they are sixteen-bit numbers or the first number after those.
    pub open spec fn is_cumulative(self) -> bool {
        &&& self.length <= self.cdf.len()
        &&& self.ordered()
        &&& forall|i: int| 0 <= i < self.length ==> 0 <= #[trigger] self.cdf[i] <= 0x1_0000
    }
}

/// Cumulative frequencies separate the slot of every symbol that can be coded.
pub proof fn cumulative_table_separates(row: Row, symbol: i32)
    requires
        row.is_cumulative(),
        row.encodable(symbol),
    ensures
        row.separates(row.slot(symbol)),
{
}

/// Putting one step in front of others puts it in front of their stream.
proof fn lemma_stream_cons(first: RansSymbol, rest: Seq<RansSymbol>)
    ensures
        stream_of(seq![first] + rest) == put(first, stream_of(rest)),
{
    assert((seq![first] + rest).drop_first() =~= rest);
}

/// The digits of a number are read back as the number.
proof fn lemma_number_read(n: int, rest: Seq<RansSymbol>)
    requires
        0 <= n,
        settled(stream_of(rest)),
    ensures
        settled(stream_of(nibble_steps(n) + rest)),
        number_read(stream_of(nibble_steps(n) + rest), nibble_count(n)) == Some(
            (n, stream_of(rest)),
        ),
        0 <= nibble_count(n),
    decreases n,
{
    if n == 0 {
        assert(nibble_steps(n) + rest =~= rest);
    } else {
        let high = nibble_steps(n / 16) + rest;
        lemma_number_read(n / 16, rest);
        assert(nibble_steps(n) + rest =~= seq![bits(n % 16)] + high);
        lemma_stream_cons(bits(n % 16), high);
        bits_are_undone(bits(n % 16), stream_of(high));
    }
}

/// A symbol is read back from the stream in front of which it was put, and the stream
/// behind it is what remains.
pub proof fn symbol_is_read_back(row: Row, symbol: i32, rest: Seq<RansSymbol>)
    requires
        row.encodable(symbol),
        row.separates(row.slot(symbol)),
        settled(stream_of(rest)),
    ensures
        settled(stream_of(row.steps(symbol) + rest)),
        symbol_read(stream_of(row.steps(symbol) + rest), row) == Some((symbol, stream_of(rest))),
{
    let slot = row.slot(symbol);
    let first = RansSymbol {
        start: row.cdf[slot] as u16,
        range: row.width(slot) as u16,
        bypass: false,
    };
    let distance = row.distance(symbol);
    let behind = if row.escapes(symbol) {
        seq![bits(nibble_count(distance))] + (nibble_steps(distance) + rest)
    } else {
        rest
    };
    if row.escapes(symbol) {
        lemma_nibble_count(distance);
        lemma_number_read(distance, rest);
        lemma_stream_cons(bits(nibble_count(distance)), nibble_steps(distance) + rest);
        bits_are_undone(bits(nibble_count(distance)), stream_of(nibble_steps(distance) + rest));
        assert(distance_read(stream_of(behind)) == Some((distance, stream_of(rest))));
        assert(row.value_at(distance) == symbol - row.offset);
    }
    assert(row.steps(symbol) + rest =~= seq![first] + behind);
    lemma_stream_cons(first, behind);
    assert(row.width(slot) != 0x1_0000) by {
        assert(0x1_0000u32 as u16 == 0) by (bit_vector);
        if row.width(slot) == 0x1_0000 {
            assert(row.width(slot) as u16 == 0x1_0000u32 as u16);
        }
    }
    slot_is_undone(first, stream_of(behind));
    let s = stream_of(row.steps(symbol) + rest);
    let cum = s.x % 0x1_0000;
    assert(splits(row.cdf, row.length as int, cum, slot + 1));
    lemma_rank(row.cdf, row.length as int, cum, slot + 1);
}

/// Whether every symbol has a table that separates its slot from the others.
pub open spec fn separable(symbols: Seq<i32>, indexes: Seq<i32>, t: Tables) -> bool {
    forall|i: int|
        0 <= i < symbols.len() ==> t.row(#[trigger] indexes[i]).separates(
            t.row(indexes[i]).slot(symbols[i]),
        )
}

/// The stream of the symbols from any position on is settled.
proof fn lemma_settled(symbols: Seq<i32>, indexes: Seq<i32>, t: Tables, k: int)
    requires
        encodable(symbols, indexes, t),
        separable(symbols, indexes, t),
        0 <= k,
    ensures
        settled(stream_of(steps_from(symbols, indexes, t, k))),
    decreases symbols.len() - k,
{
    if k < symbols.len() {
        lemma_settled(symbols, indexes, t, k + 1);
        symbol_is_read_back(
            t.row(indexes[k]),
            symbols[k],
            steps_from(symbols, indexes, t, k + 1),
        );
    }
}

/// The first `k` symbols are read back.
proof fn lemma_prefix_read_back(symbols: Seq<i32>, indexes: Seq<i32>, t: Tables, k: int)
    requires
        encodable(symbols, indexes, t),
        separable(symbols, indexes, t),
        0 <= k <= symbols.len(),
    ensures
        symbols_read(
            stream_of(steps_from(symbols, indexes, t, 0)),
            indexes.take(symbols.len() as int),
            t,
            k,
        ) == Some((symbols.take(k), stream_of(steps_from(symbols, indexes, t, k)))),
    decreases k,
{
    if k == 0 {
        assert(symbols.take(0) =~= Seq::empty());
    } else {
        lemma_prefix_read_back(symbols, indexes, t, k - 1);
        lemma_settled(symbols, indexes, t, k);
        symbol_is_read_back(
            t.row(indexes[k - 1]),
            symbols[k - 1],
            steps_from(symbols, indexes, t, k),
        );
        assert(indexes.take(symbols.len() as int)[k - 1] == indexes[k - 1]);
        assert(symbols.take(k - 1).push(symbols[k - 1]) =~= symbols.take(k));
    }
}

/// Decoding what was encoded gives the symbols back: by the same tables, with the indexes
/// of the symbols, wherever the tables separate the slots in use.
pub proof fn decoding_undoes_encoding(symbols: Seq<i32>, indexes: Seq<i32>, t: Tables)
    requires
        encodable(symbols, indexes, t),
        separable(symbols, indexes, t),
    ensures
        decoding(encoding(symbols, indexes, t), indexes.take(symbols.len() as int), t) == Some(
            symbols,
        ),
{
    let s = stream_of(steps_from(symbols, indexes, t, 0));
    let bytes = encoding(symbols, indexes, t);
    words_survive_bytes(flushed(s), Seq::empty());
    assert(bytes + Seq::<u8>::empty() =~= bytes);
    lemma_settled(symbols, indexes, t, 0);
    flushed_stream_opens(s);
    lemma_prefix_read_back(symbols, indexes, t, symbols.len() as int);
    assert(symbols.take(symbols.len() as int) =~= symbols);
}

/// Decoding undoes encoding by tables of cumulative frequencies.
pub proof fn cumulative_tables_give_symbols_back(symbols: Seq<i32>, indexes: Seq<i32>, t: Tables)
    requires
        encodable(symbols, indexes, t),
        forall|i: int| 0 <= i < symbols.len() ==> t.row(#[trigger] indexes[i]).is_cumulative(),
    ensures
        decoding(encoding(symbols, indexes, t), indexes.take(symbols.len() as int), t) == Some(
            symbols,
        ),
{
    assert forall|i: int| 0 <= i < symbols.len() implies t.row(#[trigger] indexes[i]).separates(
        t.row(indexes[i]).slot(symbols[i]),
    ) by {
        cumulative_table_separates(t.row(indexes[i]), symbols[i]);
    }
    decoding_undoes_encoding(symbols, indexes, t);
}

/// The stream that goes on with `more` where `s` ends.
spec fn extended(s: Stream, more: Seq<u32>) -> Stream {
    Stream { x: s.x, words: s.words + more }
}

proof fn lemma_refilled_extended(x: int, words: Seq<u32>, more: Seq<u32>)
    ensures
        refilled(x, words) matches Some(u) ==> refilled(x, words + more) == Some(extended(u, more)),
{
    if words.len() > 0 {
        assert((words + more).drop_first() =~= words.drop_first() + more);
    }
}

proof fn lemma_number_read_extended(s: Stream, n: int, more: Seq<u32>)
    ensures
        number_read(s, n) matches Some((v, u)) ==> number_read(extended(s, more), n) == Some(
            (v, extended(u, more)),
        ),
    decreases n,
{
    if n > 0 {
        lemma_refilled_extended(s.x / 16, s.words, more);
        if let Some(t) = refilled(s.x / 16, s.words) {
            lemma_number_read_extended(t, n - 1, more);
        }
    }
}

/// A symbol that is read from a stream is read from any stream that goes on behind it.
proof fn lemma_symbol_read_extended(s: Stream, row: Row, more: Seq<u32>)
    ensures
        symbol_read(s, row) matches Some((v, u)) ==> symbol_read(extended(s, more), row) == Some(
            (v, extended(u, more)),
        ),
{
    if symbol_read(s, row) is Some {
        let slot = rank(row.cdf, row.length as int, s.x % 0x1_0000) - 1;
        let start = row.cdf[slot] as u64;
        let freq = row.width(slot) as u64;
        let y = freq * (s.x / 0x1_0000) + s.x % 0x1_0000;
        lemma_refilled_extended(y - start, s.words, more);
        let t = refilled(y - start, s.words)->Some_0;
        if slot == row.max_value() {
            lemma_refilled_extended(t.x / 16, t.words, more);
            let u = refilled(t.x / 16, t.words)->Some_0;
            lemma_number_read_extended(u, t.x % 16, more);
        }
    }
}

proof fn lemma_symbols_read_extended(
    s: Stream,
    indexes: Seq<i32>,
    t: Tables,
    k: int,
    more: Seq<u32>,
)
    ensures
        symbols_read(s, indexes, t, k) matches Some((v, u)) ==> symbols_read(
            extended(s, more),
            indexes,
            t,
            k,
        ) == Some((v, extended(u, more))),
    decreases k,
{
    if k > 0 {
        lemma_symbols_read_extended(s, indexes, t, k - 1, more);
        if let Some((_, u)) = symbols_read(s, indexes, t, k - 1) {
            lemma_symbol_read_extended(u, t.row(indexes[k - 1]), more);
        }
    }
}

/// The words of bytes are the first words of any bytes that they begin.
proof fn lemma_words_of_prefix(bytes: Seq<u8>, tail: Seq<u8>)
    ensures
        words_of(bytes + tail).take(words_of(bytes).len() as int) == words_of(bytes),
        words_of(bytes).len() <= words_of(bytes + tail).len(),
{
    assert(words_of(bytes + tail).take(words_of(bytes).len() as int) =~= words_of(bytes));
}

/// Streams of which one has the first words of the other.
proof fn lemma_opened_prefix(words: Seq<u32>, k: int)
    requires
        2 <= k <= words.len(),
    ensures
        opened(words.take(k)) is Some,
        opened(words) == Some(extended(opened(words.take(k))->Some_0, words.skip(k))),
{
    assert(words.take(k).skip(2) + words.skip(k) =~= words.skip(2));
}

/// Bytes that follow an encoding are ignored.
pub proof fn trailing_bytes_are_ignored(
    encoded: Seq<u8>,
    tail: Seq<u8>,
    indexes: Seq<i32>,
    t: Tables,
)
    requires
        decoding(encoded, indexes, t) is Some,
    ensures
        decoding(encoded + tail, indexes, t) == decoding(encoded, indexes, t),
{
    let words = words_of(encoded + tail);
    let k = words_of(encoded).len() as int;
    lemma_words_of_prefix(encoded, tail);
    lemma_opened_prefix(words, k);
    let s = opened(words_of(encoded))->Some_0;
    lemma_symbols_read_extended(s, indexes, t, indexes.len() as int, words.skip(k));
}

proof fn lemma_symbols_read_prefix(s: Stream, indexes: Seq<i32>, t: Tables, k: int, n: int)
    requires
        0 <= k <= n <= indexes.len(),
    ensures
        symbols_read(s, indexes.take(n), t, k) == symbols_read(s, indexes, t, k),
    decreases k,
{
    if k > 0 {
        lemma_symbols_read_prefix(s, indexes, t, k - 1, n);
        assert(indexes.take(n)[k - 1] == indexes[k - 1]);
    }
}

proof fn lemma_symbols_read_take(s: Stream, indexes: Seq<i32>, t: Tables, k: int, n: int)
    requires
        0 <= k <= n,
        symbols_read(s, indexes, t, n) is Some,
    ensures
        symbols_read(s, indexes, t, k) is Some,
        symbols_read(s, indexes, t, n)->Some_0.0.len() == n,
        symbols_read(s, indexes, t, k)->Some_0.0 == symbols_read(
            s,
            indexes,
            t,
            n,
        )->Some_0.0.take(k),
    decreases n,
{
    let all = symbols_read(s, indexes, t, n)->Some_0.0;
    if n == 0 {
        assert(all.take(0) =~= all);
    } else {
        let shorter = symbols_read(s, indexes, t, n - 1)->Some_0.0;
        if k < n {
            lemma_symbols_read_take(s, indexes, t, k, n - 1);
            assert(shorter.take(k) =~= all.take(k));
        } else {
            lemma_symbols_read_take(s, indexes, t, n - 1, n - 1);
            assert(all.take(n) =~= all);
        }
    }
}

/// The first indexes alone decode the first symbols.
pub proof fn first_symbols_are_decoded_alone(
    encoded: Seq<u8>,
    indexes: Seq<i32>,
    t: Tables,
    k: int,
)
    requires
        decoding(encoded, indexes, t) is Some,
        0 <= k <= indexes.len(),
    ensures
        decoding(encoded, indexes, t)->Some_0.len() == indexes.len(),
        decoding(encoded, indexes.take(k), t) == Some(decoding(encoded, indexes, t)->Some_0.take(k)),
{
    let s = opened(words_of(encoded))->Some_0;
    lemma_symbols_read_take(s, indexes, t, k, indexes.len() as int);
    lemma_symbols_read_prefix(s, indexes, t, k, k);
}

/// An encoding that was cut short is not decoded.
pub proof fn truncated_encoding_is_refused(
    symbols: Seq<i32>,
    indexes: Seq<i32>,
    t: Tables,
    len: int,
)
    requires
        encodable(symbols, indexes, t),
        separable(symbols, indexes, t),
        0 <= len < encoding(symbols, indexes, t).len(),
    ensures
        decoding(
            encoding(symbols, indexes, t).take(len),
            indexes.take(symbols.len() as int),
            t,
        ) is None,
{
    let n = symbols.len() as int;
    let names = indexes.take(n);
    let bytes = encoding(symbols, indexes, t);
    let cut = bytes.take(len);
    let s = stream_of(steps_from(symbols, indexes, t, 0));
    words_survive_bytes(flushed(s), Seq::empty());
    assert(bytes + Seq::<u8>::empty() =~= bytes);
    lemma_settled(symbols, indexes, t, 0);
    flushed_stream_opens(s);
    lemma_prefix_read_back(symbols, indexes, t, n);
    if decoding(cut, names, t) is Some {
        let words = words_of(bytes);
        let k = words_of(cut).len() as int;
        assert(cut + bytes.skip(len) =~= bytes);
        lemma_words_of_prefix(cut, bytes.skip(len));
        lemma_opened_prefix(words, k);
        // Reading the cut words leaves the others behind, but reading all leaves none.
        let first = opened(words_of(cut))->Some_0;
        lemma_symbols_read_extended(first, names, t, n, words.skip(k));
        let behind = symbols_read(first, names, t, n)->Some_0.1;
        assert(extended(behind, words.skip(k)).words.len() > 0);
        assert(false);
    }
}

/// Each step sheds at most one word.
proof fn lemma_words_shed(steps: Seq<RansSymbol>)
    ensures
        stream_of(steps).words.len() <= steps.len(),
    decreases steps.len(),
{
    if steps.len() > 0 {
        lemma_words_shed(steps.drop_first());
    }
}

/// An encoding is a whole number of words: two for the state, and at most one for each
/// step. Coding no symbols takes eight bytes.
pub proof fn encoding_is_whole_words(symbols: Seq<i32>, indexes: Seq<i32>, t: Tables)
    ensures
        encoding(symbols, indexes, t).len() % 4 == 0,
        8 <= encoding(symbols, indexes, t).len() <= 8 + 4 * steps_from(symbols, indexes, t, 0).len(),
        symbols.len() == 0 ==> encoding(symbols, indexes, t).len() == 8,
{
    lemma_words_shed(steps_from(symbols, indexes, t, 0));
}

/// Entries behind those in use are padding: tables that agree on the entries in use, the
/// last of which closes the sixteen-bit range, code and read every symbol alike.
pub proof fn padding_is_not_read(a: Row, b: Row, symbol: i32, s: Stream)
    requires
        a.length == b.length,
        a.offset == b.offset,
        2 <= a.length <= a.cdf.len(),
        b.length <= b.cdf.len(),
        forall|i: int| 0 <= i < a.length ==> #[trigger] a.cdf[i] == b.cdf[i],
        a.cdf[a.length - 1] == 0x1_0000,
    ensures
        a.encodable(symbol) <==> b.encodable(symbol),
        a.encodable(symbol) ==> a.steps(symbol) == b.steps(symbol),
        symbol_read(s, a) == symbol_read(s, b),
{
    let slot = a.slot(symbol);
    assert(0 <= slot && slot + 1 < a.length);
    assert(a.cdf[slot] == b.cdf[slot] && a.cdf[slot + 1] == b.cdf[slot + 1]);
    let cum = s.x % 0x1_0000;
    let n = a.length as int;
    assert forall|k: int| splits(a.cdf, n, cum, k) == splits(b.cdf, n, cum, k) by {
        if splits(a.cdf, n, cum, k) {
            assert forall|i: int| 0 <= i < k implies #[trigger] b.cdf[i] <= cum by {
                assert(a.cdf[i] <= cum);
            }
            assert forall|i: int| k <= i < n implies #[trigger] b.cdf[i] > cum by {
                assert(a.cdf[i] > cum);
            }
        }
        if splits(b.cdf, n, cum, k) {
            assert forall|i: int| 0 <= i < k implies #[trigger] a.cdf[i] <= cum by {
                assert(b.cdf[i] <= cum);
            }
            assert forall|i: int| k <= i < n implies #[trigger] a.cdf[i] > cum by {
                assert(b.cdf[i] > cum);
            }
        }
    }
    if partitioned(a.cdf, n, cum) {
        let k = rank(a.cdf, n, cum);
        assert(splits(b.cdf, n, cum, k));
        lemma_rank(b.cdf, n, cum, k);
        assert(k < n) by {
            assert(a.cdf[n - 1] > cum);
        }
        if k > 0 {
            assert(a.cdf[k] == b.cdf[k] && a.cdf[k - 1] == b.cdf[k - 1]);
        }
    } else if partitioned(b.cdf, n, cum) {
        assert(splits(a.cdf, n, cum, rank(b.cdf, n, cum)));
    }
}

} // verus!
