//! Which table codes which symbol, and where the tables come from.
use crate::bytes::words_of;
use crate::coder::{decoding, encodable, encoding, steps_from, symbols_read, tables, Tables};
use crate::rans::{opened, Stream};
use crate::tables::{flat_rows, lemma_row_inside, rectangular};
use vstd::prelude::*;

verus! {

/// Entries fill rows of a width where the width is not zero and divides their number.
pub proof fn rows_are_filled_where_the_width_divides(len: int, row_width: int)
    ensures
        rectangular(len, row_width) <==> row_width != 0 && len % row_width == 0,
{
}

/// Rows of one width, put one after the other, are the entries that they were made of: row
/// `r` holds the entries from `r` times the width on, and entry `p` stands in the row and at
/// the place that dividing `p` by the width gives.
pub proof fn rows_are_stretches_of_the_entries(flat: Seq<i32>, row_width: int)
    requires
        0 < row_width,
        flat.len() as int % row_width == 0,
    ensures
        flat_rows(flat, row_width).len() == flat.len() as int / row_width,
        flat_rows(flat, row_width).len() * row_width == flat.len(),
        forall|r: int|
            0 <= r < flat_rows(flat, row_width).len() ==> (#[trigger] flat_rows(
                flat,
                row_width,
            )[r]).len() == row_width,
        forall|r: int, i: int|
            0 <= r < flat_rows(flat, row_width).len() && 0 <= i < row_width
                ==> #[trigger] flat_rows(flat, row_width)[r][i] == flat[r * row_width + i],
        forall|p: int|
            0 <= p < flat.len() ==> #[trigger] flat[p] == flat_rows(flat, row_width)[p
                / row_width][p % row_width],
{
    let rows = flat_rows(flat, row_width);
    let len = flat.len() as int;
    assert(0 <= len / row_width && (len / row_width) * row_width == len) by (nonlinear_arith)
        requires
            0 < row_width,
            0 <= len,
            len % row_width == 0,
    ;
    assert forall|r: int| 0 <= r < rows.len() implies (#[trigger] rows[r]).len() == row_width by {
        lemma_row_inside(len, row_width, r);
    }
    assert forall|r: int, i: int|
        0 <= r < rows.len() && 0 <= i < row_width implies #[trigger] rows[r][i] == flat[r
        * row_width + i] by {
        lemma_row_inside(len, row_width, r);
    }
    assert forall|p: int| 0 <= p < flat.len() implies #[trigger] flat[p] == rows[p / row_width][p
        % row_width] by {
        let r = p / row_width;
        let i = p % row_width;
        assert(0 <= r < len / row_width && 0 <= i < row_width && p == r * row_width + i)
            by (nonlinear_arith)
            requires
                0 < row_width,
                0 <= p < len,
                len % row_width == 0,
                r == p / row_width,
                i == p % row_width,
        ;
        assert(rows[r][i] == flat[r * row_width + i]);
    }
}

proof fn lemma_steps_by_named_tables(
    symbols: Seq<i32>,
    indexes: Seq<i32>,
    t: Tables,
    names: Seq<i32>,
    u: Tables,
    k: int,
)
    requires
        0 <= k,
        forall|i: int| 0 <= i < symbols.len() ==> t.row(#[trigger] indexes[i]) == u.row(names[i]),
    ensures
        steps_from(symbols, indexes, t, k) == steps_from(symbols, names, u, k),
    decreases symbols.len() - k,
{
    if k < symbols.len() {
        lemma_steps_by_named_tables(symbols, indexes, t, names, u, k + 1);
        assert(t.row(indexes[k]) == u.row(names[k]));
    }
}

proof fn lemma_read_by_named_tables(
    s: Stream,
    indexes: Seq<i32>,
    t: Tables,
    names: Seq<i32>,
    u: Tables,
    k: int,
)
    requires
        k <= indexes.len(),
        forall|i: int|
            0 <= i < indexes.len() ==> t.has(#[trigger] indexes[i]) && u.has(names[i]) && t.row(
                indexes[i],
            ) == u.row(names[i]),
    ensures
        symbols_read(s, indexes, t, k) == symbols_read(s, names, u, k),
    decreases k,
{
    if k > 0 {
        lemma_read_by_named_tables(s, indexes, t, names, u, k - 1);
        assert(t.has(indexes[k - 1]));
    }
}

/// Coding depends on the tables at the places that the indexes are, and on nothing else of
/// the lists: other lists and other indexes code and decode alike, where the entries, the
/// length and the offset at the place of each index are the same.
pub proof fn coding_depends_on_the_named_tables_alone(
    symbols: Seq<i32>,
    encoded: Seq<u8>,
    indexes: Seq<i32>,
    t: Tables,
    names: Seq<i32>,
    u: Tables,
)
    requires
        symbols.len() <= indexes.len(),
        indexes.len() == names.len(),
        forall|i: int|
            #![trigger indexes[i]]
            0 <= i < indexes.len() ==> {
                let (a, b) = (indexes[i] as int, names[i] as int);
                &&& 0 <= a < t.cdfs.len() && a < t.lengths.len() && a < t.offsets.len()
                &&& 0 <= b < u.cdfs.len() && b < u.lengths.len() && b < u.offsets.len()
                &&& t.cdfs[a] == u.cdfs[b]
                &&& t.lengths[a] == u.lengths[b]
                &&& t.offsets[a] == u.offsets[b]
            },
    ensures
        encodable(symbols, indexes, t) <==> encodable(symbols, names, u),
        encoding(symbols, indexes, t) == encoding(symbols, names, u),
        decoding(encoded, indexes, t) == decoding(encoded, names, u),
{
    assert forall|i: int| 0 <= i < indexes.len() implies t.has(#[trigger] indexes[i]) && u.has(
        names[i],
    ) && t.row(indexes[i]) == u.row(names[i]) by {}
    assert forall|i: int| 0 <= i < names.len() implies u.has(#[trigger] names[i]) && t.row(
        indexes[i],
    ) == u.row(names[i]) by {
        assert(t.has(indexes[i]));
    }
    if encodable(symbols, indexes, t) {
        assert(encodable(symbols, names, u)) by {
            assert forall|i: int| 0 <= i < symbols.len() implies u.has(#[trigger] names[i])
                && u.row(names[i]).encodable(symbols[i]) by {
                assert(t.row(indexes[i]).encodable(symbols[i]));
            }
        }
    }
    if encodable(symbols, names, u) {
        assert(encodable(symbols, indexes, t)) by {
            assert forall|i: int| 0 <= i < symbols.len() implies t.has(#[trigger] indexes[i])
                && t.row(indexes[i]).encodable(symbols[i]) by {
                assert(u.row(names[i]).encodable(symbols[i]));
            }
        }
    }
    lemma_steps_by_named_tables(symbols, indexes, t, names, u, 0);
    if let Some(s) = opened(words_of(encoded)) {
        lemma_read_by_named_tables(s, indexes, t, names, u, indexes.len() as int);
    }
}

/// A table codes and decodes alike wherever it stands: with the index `j` throughout, the
/// lists are used as lists of one table would be, which holds the entries, the length and
/// the offset at place `j`, with the index 0 throughout.
pub proof fn table_can_stand_alone(
    symbols: Seq<i32>,
    encoded: Seq<u8>,
    cdfs: Seq<Vec<i32>>,
    lengths: Seq<i32>,
    offsets: Seq<i32>,
    j: i32,
    n: nat,
)
    requires
        symbols.len() <= n,
        0 <= j < cdfs.len(),
        j < lengths.len(),
        j < offsets.len(),
    ensures
        ({
            let all = tables(cdfs, lengths, offsets);
            let one = Tables {
                cdfs: seq![cdfs[j as int]@],
                lengths: seq![lengths[j as int]],
                offsets: seq![offsets[j as int]],
            };
            let indexes = Seq::new(n, |i: int| j);
            let zeros = Seq::new(n, |i: int| 0i32);
            &&& encodable(symbols, indexes, all) <==> encodable(symbols, zeros, one)
            &&& encoding(symbols, indexes, all) == encoding(symbols, zeros, one)
            &&& decoding(encoded, indexes, all) == decoding(encoded, zeros, one)
        }),
{
    let all = tables(cdfs, lengths, offsets);
    let one = Tables {
        cdfs: seq![cdfs[j as int]@],
        lengths: seq![lengths[j as int]],
        offsets: seq![offsets[j as int]],
    };
    coding_depends_on_the_named_tables_alone(
        symbols,
        encoded,
        Seq::new(n, |i: int| j),
        all,
        Seq::new(n, |i: int| 0i32),
        one,
    );
}

} // verus!
