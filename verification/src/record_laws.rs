//! What a record is as bytes.
use crate::byte_laws::{
    le_number, lemma_four_digits, signed_number_is_read_in_twos_complement,
    word_has_its_bytes_as_digits,
};
use crate::bytes::{i32_at, word_at};
use crate::records::{
    bytes_at, case_at, cases_at, cases_of, cases_view, cdfs_at, count_at, differences,
    first_differences, i32s_at, recording_at, rows_at, rows_view, string_at, Case, Data,
    NamedRecording, Recording,
};
use vstd::prelude::*;
use vstd::utf8::{
    decode_utf8, decode_utf8_encode_utf8, encode_utf8, encode_utf8_decode_utf8,
    encode_utf8_valid_utf8, valid_utf8,
};

verus! {

/// The four base-256 digits of `n`, the least significant one first.
pub open spec fn four_digits(n: int) -> Seq<u8> {
    seq![
        (n % 0x100) as u8,
        ((n / 0x100) % 0x100) as u8,
        ((n / 0x1_0000) % 0x100) as u8,
        ((n / 0x100_0000) % 0x100) as u8,
    ]
}

/// A list of numbers in a file: how many there are, then each in four bytes, a negative
/// one as the number plus `2^32`.
pub open spec fn list_written(values: Seq<i32>) -> Seq<u8> {
    four_digits(values.len() as int) + numbers_written(values)
}

/// Numbers in a file, one after the other.
pub open spec fn numbers_written(values: Seq<i32>) -> Seq<u8>
    decreases values.len(),
{
    if values.len() == 0 {
        Seq::empty()
    } else {
        let last = values.last();
        numbers_written(values.drop_last()) + four_digits(
            if last >= 0 {
                last as int
            } else {
                last + 0x1_0000_0000
            },
        )
    }
}

/// Lists of numbers in a file, one after the other.
pub open spec fn rows_written(rows: Seq<Seq<i32>>) -> Seq<u8>
    decreases rows.len(),
{
    if rows.len() == 0 {
        Seq::empty()
    } else {
        rows_written(rows.drop_last()) + list_written(rows.last())
    }
}

/// Bytes in a file: how many there are, then the bytes.
pub open spec fn bytes_written(bytes: Seq<u8>) -> Seq<u8> {
    four_digits(bytes.len() as int) + bytes
}

/// A recording in a file: the symbols, the indexes, how many tables there are, the entries
/// of each, the lengths, the offsets, and the reference bytes.
pub open spec fn recording_written(r: Recording) -> Seq<u8> {
    list_written(r.symbols) + list_written(r.indexes) + four_digits(r.tables.cdfs.len() as int)
        + rows_written(r.tables.cdfs) + list_written(r.tables.lengths) + list_written(
        r.tables.offsets,
    ) + bytes_written(r.ref_bytes)
}

/// A test case in a file: the name as UTF-8 bytes, the recording, and the reference symbols.
pub open spec fn case_written(c: NamedRecording) -> Seq<u8> {
    bytes_written(encode_utf8(c.name)) + recording_written(c.data) + list_written(c.ref_symbols)
}

/// Test cases in a file, one after the other.
pub open spec fn cases_written(cases: Seq<NamedRecording>) -> Seq<u8>
    decreases cases.len(),
{
    if cases.len() == 0 {
        Seq::empty()
    } else {
        cases_written(cases.drop_last()) + case_written(cases.last())
    }
}

/// Whether the lists of a recording are so short that 32 bits count them.
pub open spec fn countable(r: Recording) -> bool {
    &&& r.symbols.len() < 0x1_0000_0000
    &&& r.indexes.len() < 0x1_0000_0000
    &&& rows_countable(r.tables.cdfs)
    &&& r.tables.lengths.len() < 0x1_0000_0000
    &&& r.tables.offsets.len() < 0x1_0000_0000
    &&& r.ref_bytes.len() < 0x1_0000_0000
}

/// Whether lists, and how many there are, can be counted in 32 bits.
pub open spec fn rows_countable(rows: Seq<Seq<i32>>) -> bool {
    &&& rows.len() < 0x1_0000_0000
    &&& forall|k: int| 0 <= k < rows.len() ==> (#[trigger] rows[k]).len() < 0x1_0000_0000
}

/// Whether the lists of a test case are so short that 32 bits count them.
pub open spec fn case_countable(c: NamedRecording) -> bool {
    &&& encode_utf8(c.name).len() < 0x1_0000_0000
    &&& countable(c.data)
    &&& c.ref_symbols.len() < 0x1_0000_0000
}

/// Whether the bytes from `pos` on begin with `part`.
pub open spec fn stands_at(buf: Seq<u8>, pos: int, part: Seq<u8>) -> bool {
    &&& 0 <= pos
    &&& pos + part.len() <= buf.len()
    &&& buf.subrange(pos, pos + part.len()) == part
}

/// Two parts stand one after the other.
proof fn lemma_stands(buf: Seq<u8>, pos: int, a: Seq<u8>, b: Seq<u8>)
    ensures
        stands_at(buf, pos, a + b) <==> stands_at(buf, pos, a) && stands_at(
            buf,
            pos + a.len(),
            b,
        ),
{
    let (n, m) = (a.len() as int, b.len() as int);
    if stands_at(buf, pos, a + b) {
        let all = buf.subrange(pos, pos + n + m);
        assert(buf.subrange(pos, pos + n) =~= a) by {
            assert(all.subrange(0, n) =~= a);
            assert(all.subrange(0, n) =~= buf.subrange(pos, pos + n));
        }
        assert(buf.subrange(pos + n, pos + n + m) =~= b) by {
            assert(all.subrange(n, n + m) =~= b);
            assert(all.subrange(n, n + m) =~= buf.subrange(pos + n, pos + n + m));
        }
    }
    if stands_at(buf, pos, a) && stands_at(buf, pos + a.len(), b) {
        assert(buf.subrange(pos, pos + n) + buf.subrange(pos + n, pos + n + m)
            =~= buf.subrange(pos, pos + n + m));
    }
}

/// A number of 32 bits is made up of its digits.
proof fn lemma_digits_make_up(n: int)
    requires
        0 <= n < 0x1_0000_0000,
    ensures
        n == n % 0x100 + 0x100 * ((n / 0x100) % 0x100) + 0x1_0000 * ((n / 0x1_0000) % 0x100)
            + 0x100_0000 * ((n / 0x100_0000) % 0x100),
{
    let q1 = n / 0x100;
    let q2 = q1 / 0x100;
    let q3 = q2 / 0x100;
    assert(q2 == n / 0x1_0000);
    assert(q3 == n / 0x100_0000);
    assert(q3 == q3 % 0x100);
}

/// Four bytes are the digits of the number that they make up.
proof fn lemma_made_up_digits(b0: u8, b1: u8, b2: u8, b3: u8)
    ensures
        ({
            let n = b0 + 0x100 * b1 + 0x1_0000 * b2 + 0x100_0000 * b3;
            &&& n % 0x100 == b0
            &&& (n / 0x100) % 0x100 == b1
            &&& (n / 0x1_0000) % 0x100 == b2
            &&& (n / 0x100_0000) % 0x100 == b3
        }),
{
    let n = b0 + 0x100 * b1 + 0x1_0000 * b2 + 0x100_0000 * b3;
    let q1 = b1 + 0x100 * b2 + 0x1_0000 * b3;
    let q2 = b2 + 0x100 * b3;
    assert(n == b0 + 0x100 * q1 && q1 == b1 + 0x100 * q2);
    assert(n / 0x100 == q1);
    assert(q1 / 0x100 == q2);
    assert(n / 0x1_0000 == q2) by {
        assert(n / 0x1_0000 == (n / 0x100) / 0x100);
    }
    assert(n / 0x100_0000 == b3) by {
        assert(n / 0x100_0000 == (n / 0x1_0000) / 0x100);
    }
}

/// Four bytes are the digits of the word that they are read as.
proof fn lemma_digits_stand(buf: Seq<u8>, pos: int, n: int)
    requires
        0 <= n < 0x1_0000_0000,
        0 <= pos,
        pos + 4 <= buf.len(),
    ensures
        stands_at(buf, pos, four_digits(n)) <==> word_at(buf, pos) == n,
{
    let b = buf.subrange(pos, pos + 4);
    lemma_made_up_digits(b[0], b[1], b[2], b[3]);
    word_has_its_bytes_as_digits(buf, pos);
    lemma_four_digits(b);
    if word_at(buf, pos) == n {
        assert(b =~= four_digits(n));
    }
    if stands_at(buf, pos, four_digits(n)) {
        lemma_digits_make_up(n);
        let d = four_digits(n);
        assert(b[0] == d[0] && b[1] == d[1] && b[2] == d[2] && b[3] == d[3]);
    }
}

proof fn lemma_numbers_len(values: Seq<i32>)
    ensures
        numbers_written(values).len() == 4 * values.len(),
    decreases values.len(),
{
    if values.len() > 0 {
        lemma_numbers_len(values.drop_last());
    }
}

/// Numbers stand where each of them does.
#[verifier::rlimit(40)]
proof fn lemma_numbers_stand(buf: Seq<u8>, pos: int, values: Seq<i32>)
    requires
        0 <= pos,
        pos + 4 * values.len() <= buf.len(),
    ensures
        stands_at(buf, pos, numbers_written(values)) <==> forall|i: int|
            0 <= i < values.len() ==> i32_at(buf, pos + 4 * i) == #[trigger] values[i],
    decreases values.len(),
{
    if values.len() == 0 {
        assert(buf.subrange(pos, pos) =~= Seq::<u8>::empty());
    } else {
        let front = values.drop_last();
        let last = values.last();
        let n = front.len() as int;
        let at = pos + 4 * n;
        let unsigned = if last >= 0 { last as int } else { last + 0x1_0000_0000 };
        lemma_numbers_len(front);
        lemma_numbers_stand(buf, pos, front);
        lemma_stands(buf, pos, numbers_written(front), four_digits(unsigned));
        lemma_digits_stand(buf, at, unsigned);
        signed_number_is_read_in_twos_complement(buf, at);
        word_has_its_bytes_as_digits(buf, at);
        lemma_four_digits(buf.subrange(at, at + 4));
        assert(stands_at(buf, at, four_digits(unsigned)) <==> i32_at(buf, at) == last);
        if forall|i: int| 0 <= i < values.len() ==> i32_at(buf, pos + 4 * i) == #[trigger] values[i] {
            assert forall|i: int| 0 <= i < front.len() implies i32_at(buf, pos + 4 * i)
                == #[trigger] front[i] by {
                assert(values[i] == front[i]);
            }
            assert(values[n] == last);
        }
        if stands_at(buf, pos, numbers_written(values)) {
            assert forall|i: int| 0 <= i < values.len() implies i32_at(buf, pos + 4 * i)
                == #[trigger] values[i] by {
                if i < n {
                    assert(front[i] == values[i]);
                }
            }
        }
    }
}

/// A list of numbers is read exactly where it stands as it is written.
#[verifier::rlimit(40)]
proof fn lemma_list(buf: Seq<u8>, pos: int, values: Seq<i32>)
    requires
        0 <= pos,
    ensures
        values.len() < 0x1_0000_0000 && stands_at(buf, pos, list_written(values)) ==> i32s_at(
            buf,
            pos,
        ) == Some((values, pos + list_written(values).len())),
        i32s_at(buf, pos) matches Some((v, next)) ==> v == values ==> values.len() < 0x1_0000_0000
            && stands_at(buf, pos, list_written(values)) && next == pos + list_written(values).len(),
{
    let n = values.len() as int;
    lemma_numbers_len(values);
    lemma_stands(buf, pos, four_digits(n), numbers_written(values));
    if n < 0x1_0000_0000 && stands_at(buf, pos, list_written(values)) {
        lemma_digits_stand(buf, pos, n);
        lemma_numbers_stand(buf, pos + 4, values);
        assert(Seq::new(n as nat, |i: int| i32_at(buf, pos + 4 + 4 * i)) =~= values);
    }
    if let Some((v, next)) = i32s_at(buf, pos) {
        if v == values {
            lemma_digits_stand(buf, pos, n);
            assert forall|i: int| 0 <= i < values.len() implies i32_at(buf, pos + 4 + 4 * i)
                == #[trigger] values[i] by {
                assert(v[i] == values[i]);
            }
            lemma_numbers_stand(buf, pos + 4, values);
        }
    }
}

/// A list of bytes is read exactly where it stands as it is written.
proof fn lemma_bytes(buf: Seq<u8>, pos: int, bytes: Seq<u8>)
    requires
        0 <= pos,
    ensures
        bytes.len() < 0x1_0000_0000 && stands_at(buf, pos, bytes_written(bytes)) ==> bytes_at(
            buf,
            pos,
        ) == Some((bytes, pos + bytes_written(bytes).len())),
        bytes_at(buf, pos) matches Some((v, next)) ==> v == bytes ==> bytes.len() < 0x1_0000_0000
            && stands_at(buf, pos, bytes_written(bytes)) && next == pos + bytes_written(bytes).len(),
{
    let n = bytes.len() as int;
    lemma_stands(buf, pos, four_digits(n), bytes);
    if n < 0x1_0000_0000 && pos + 4 <= buf.len() {
        lemma_digits_stand(buf, pos, n);
    }
}

/// Lists are read exactly where they stand as they are written.
#[verifier::rlimit(40)]
proof fn lemma_rows(buf: Seq<u8>, pos: int, rows: Seq<Seq<i32>>)
    requires
        0 <= pos,
    ensures
        (forall|k: int| 0 <= k < rows.len() ==> (#[trigger] rows[k]).len() < 0x1_0000_0000)
            && stands_at(buf, pos, rows_written(rows)) ==> rows_at(buf, pos, rows.len() as int)
            == Some((rows, pos + rows_written(rows).len())),
        rows_at(buf, pos, rows.len() as int) matches Some((v, next)) ==> v == rows ==> (forall|k: int|
            0 <= k < rows.len() ==> (#[trigger] rows[k]).len() < 0x1_0000_0000) && next == pos
            + rows_written(rows).len() && (pos <= buf.len() ==> stands_at(
            buf,
            pos,
            rows_written(rows),
        )),
    decreases rows.len(),
{
    if rows.len() == 0 {
        assert(rows =~= Seq::empty());
        if pos <= buf.len() {
            assert(buf.subrange(pos, pos) =~= Seq::<u8>::empty());
        }
    } else {
        let front = rows.drop_last();
        let last = rows.last();
        let n = rows.len() as int;
        let at = pos + rows_written(front).len();
        lemma_rows(buf, pos, front);
        lemma_list(buf, at, last);
        lemma_stands(buf, pos, rows_written(front), list_written(last));
        assert(front.push(last) =~= rows);
        if forall|k: int| 0 <= k < rows.len() ==> (#[trigger] rows[k]).len() < 0x1_0000_0000 {
            assert forall|k: int| 0 <= k < front.len() implies (#[trigger] front[k]).len()
                < 0x1_0000_0000 by {
                assert(front[k] == rows[k]);
            }
            assert(rows[n - 1].len() < 0x1_0000_0000);
        }
        if let Some((v, next)) = rows_at(buf, pos, n) {
            if v == rows {
                let (w, mid) = rows_at(buf, pos, n - 1)->Some_0;
                let row = i32s_at(buf, mid)->Some_0.0;
                lemma_rows_count(buf, pos, n - 1);
                assert(v == w.push(row));
                assert(w.push(row).drop_last() =~= w);
                assert(w == front && row == last);
                assert forall|k: int| 0 <= k < rows.len() implies (#[trigger] rows[k]).len()
                    < 0x1_0000_0000 by {
                    if k < n - 1 {
                        assert(front[k] == rows[k]);
                    }
                }
            }
        }
    }
}

proof fn lemma_rows_count(buf: Seq<u8>, pos: int, n: int)
    requires
        0 <= n,
    ensures
        rows_at(buf, pos, n) matches Some((rows, next)) ==> rows.len() == n && pos <= next,
    decreases n,
{
    if n > 0 {
        lemma_rows_count(buf, pos, n - 1);
    }
}

/// Where the lists stand that are read one after the other: the first where reading starts,
/// and each of the others where the one before it ends. The place behind the last one is
/// where reading goes on.
pub proof fn each_list_starts_where_the_one_before_ends(buf: Seq<u8>, pos: int, n: int) -> (starts:
    Seq<int>)
    requires
        0 <= n,
        rows_at(buf, pos, n) is Some,
    ensures
        ({
            let (rows, end) = rows_at(buf, pos, n)->Some_0;
            &&& rows.len() == n
            &&& starts.len() == n + 1
            &&& starts[0] == pos
            &&& starts[n] == end
            &&& forall|k: int|
                0 <= k < n ==> i32s_at(buf, #[trigger] starts[k]) == Some(
                    (rows[k], starts[k + 1]),
                )
        }),
    decreases n,
{
    if n == 0 {
        seq![pos]
    } else {
        let before = each_list_starts_where_the_one_before_ends(buf, pos, n - 1);
        let (front, at) = rows_at(buf, pos, n - 1)->Some_0;
        let (rows, end) = rows_at(buf, pos, n)->Some_0;
        let starts = before.push(end);
        assert forall|k: int| 0 <= k < n implies i32s_at(buf, #[trigger] starts[k]) == Some(
            (rows[k], starts[k + 1]),
        ) by {
            if k < n - 1 {
                assert(before[k] == starts[k] && before[k + 1] == starts[k + 1]);
                assert(front[k] == rows[k]);
            } else {
                assert(starts[k] == at);
            }
        }
        starts
    }
}

/// Tables are the lists behind their number: row 0 starts behind the four bytes of the
/// number, and row `k` where row `k - 1` ends.
pub proof fn rows_of_tables_stand_in_order(buf: Seq<u8>, pos: int) -> (starts: Seq<int>)
    requires
        cdfs_at(buf, pos) is Some,
    ensures
        ({
            let (rows, end) = cdfs_at(buf, pos)->Some_0;
            &&& 0 <= pos && pos + 4 <= buf.len()
            &&& rows.len() == le_number(buf.subrange(pos, pos + 4))
            &&& starts.len() == rows.len() + 1
            &&& starts[0] == pos + 4
            &&& starts[rows.len() as int] == end
            &&& forall|k: int|
                0 <= k < rows.len() ==> i32s_at(buf, #[trigger] starts[k]) == Some(
                    (rows[k], starts[k + 1]),
                )
        }),
{
    let (n, first) = count_at(buf, pos)->Some_0;
    word_has_its_bytes_as_digits(buf, pos);
    each_list_starts_where_the_one_before_ends(buf, first, n)
}

/// A list of numbers is four bytes whose number is the count, then four bytes for each
/// number, in order, a negative one being `2^32` less than its bytes say. It is read exactly
/// where the count and all the numbers stand inside the buffer.
pub proof fn list_is_its_count_and_its_numbers(buf: Seq<u8>, pos: int)
    requires
        0 <= pos,
    ensures
        ({
            let n = le_number(buf.subrange(pos, pos + 4));
            &&& i32s_at(buf, pos) is Some <==> pos + 4 <= buf.len() && pos + 4 + 4 * n
                <= buf.len()
            &&& i32s_at(buf, pos) matches Some((values, next)) ==> {
                &&& values.len() == n
                &&& next == pos + 4 + 4 * n
                &&& forall|i: int|
                    0 <= i < n ==> le_number(buf.subrange(pos + 4 + 4 * i, pos + 8 + 4 * i)) == if (
                    #[trigger] values[i]) >= 0 {
                        values[i] as int
                    } else {
                        values[i] + 0x1_0000_0000
                    }
            }
        }),
{
    if pos + 4 <= buf.len() {
        word_has_its_bytes_as_digits(buf, pos);
        if let Some((values, next)) = i32s_at(buf, pos) {
            let n = values.len() as int;
            assert forall|i: int| 0 <= i < n implies le_number(
                buf.subrange(pos + 4 + 4 * i, pos + 8 + 4 * i),
            ) == if (#[trigger] values[i]) >= 0 {
                values[i] as int
            } else {
                values[i] + 0x1_0000_0000
            } by {
                signed_number_is_read_in_twos_complement(buf, pos + 4 + 4 * i);
            }
        }
    }
}

/// A list of bytes is four bytes whose number is the count, then the bytes. It is read
/// exactly where the count and all the bytes stand inside the buffer. A text is such a list,
/// read exactly where the bytes are UTF-8.
pub proof fn bytes_are_their_count_and_themselves(buf: Seq<u8>, pos: int)
    requires
        0 <= pos,
    ensures
        ({
            let n = le_number(buf.subrange(pos, pos + 4));
            let inside = pos + 4 <= buf.len() && pos + 4 + n <= buf.len();
            let bytes = buf.subrange(pos + 4, pos + 4 + n);
            &&& bytes_at(buf, pos) is Some <==> inside
            &&& inside ==> bytes_at(buf, pos) == Some((bytes, pos + 4 + n))
            &&& string_at(buf, pos) is Some <==> inside && valid_utf8(bytes)
            &&& inside && valid_utf8(bytes) ==> string_at(buf, pos) == Some(
                (decode_utf8(bytes), pos + 4 + n),
            )
        }),
{
    if pos + 4 <= buf.len() {
        word_has_its_bytes_as_digits(buf, pos);
    }
}

#[verifier::rlimit(40)]
proof fn lemma_cdfs(buf: Seq<u8>, pos: int, rows: Seq<Seq<i32>>)
    requires
        0 <= pos,
    ensures
        rows_countable(rows) && stands_at(
            buf,
            pos,
            four_digits(rows.len() as int) + rows_written(rows),
        ) ==> cdfs_at(buf, pos) == Some((rows, pos + 4 + rows_written(rows).len())),
        cdfs_at(buf, pos) matches Some((v, next)) ==> v == rows ==> rows_countable(rows)
            && stands_at(buf, pos, four_digits(rows.len() as int) + rows_written(rows)) && next
            == pos + 4 + rows_written(rows).len(),
{
    let n = rows.len() as int;
    lemma_stands(buf, pos, four_digits(n), rows_written(rows));
    if pos + 4 <= buf.len() {
        lemma_rows(buf, pos + 4, rows);
        if n < 0x1_0000_0000 {
            lemma_digits_stand(buf, pos, n);
        }
        if let Some((v, next)) = cdfs_at(buf, pos) {
            if v == rows {
                lemma_rows_count(buf, pos + 4, word_at(buf, pos) as int);
            }
        }
    }
}

/// The fields of a recording stand in this order, each where the one before it ends: the
/// symbols, the indexes, the entries of the tables, their lengths, their offsets, and the
/// reference bytes. A recording is read exactly where all its fields are.
pub proof fn fields_of_a_recording_stand_in_order(buf: Seq<u8>, pos: int) -> (ends: Seq<int>)
    ensures
        ends.len() == 6,
        recording_at(buf, pos) matches Some((r, next)) ==> {
            &&& i32s_at(buf, pos) == Some((r.symbols, ends[0]))
            &&& i32s_at(buf, ends[0]) == Some((r.indexes, ends[1]))
            &&& cdfs_at(buf, ends[1]) == Some((r.tables.cdfs, ends[2]))
            &&& i32s_at(buf, ends[2]) == Some((r.tables.lengths, ends[3]))
            &&& i32s_at(buf, ends[3]) == Some((r.tables.offsets, ends[4]))
            &&& bytes_at(buf, ends[4]) == Some((r.ref_bytes, ends[5]))
            &&& next == ends[5]
        },
        recording_at(buf, pos) is None ==> {
            ||| i32s_at(buf, pos) is None
            ||| i32s_at(buf, ends[0]) is None
            ||| cdfs_at(buf, ends[1]) is None
            ||| i32s_at(buf, ends[2]) is None
            ||| i32s_at(buf, ends[3]) is None
            ||| bytes_at(buf, ends[4]) is None
        },
{
    let p1 = i32s_at(buf, pos)->Some_0.1;
    let p2 = i32s_at(buf, p1)->Some_0.1;
    let p3 = cdfs_at(buf, p2)->Some_0.1;
    let p4 = i32s_at(buf, p3)->Some_0.1;
    let p5 = i32s_at(buf, p4)->Some_0.1;
    let p6 = bytes_at(buf, p5)->Some_0.1;
    seq![p1, p2, p3, p4, p5, p6]
}

/// The parts of a test case stand in this order, each where the one before it ends: the
/// name, the recording, and the reference symbols. A test case is read exactly where all
/// its parts are.
pub proof fn parts_of_a_case_stand_in_order(buf: Seq<u8>, pos: int) -> (ends: Seq<int>)
    ensures
        ends.len() == 3,
        case_at(buf, pos) matches Some((c, next)) ==> {
            &&& string_at(buf, pos) == Some((c.name, ends[0]))
            &&& recording_at(buf, ends[0]) == Some((c.data, ends[1]))
            &&& i32s_at(buf, ends[1]) == Some((c.ref_symbols, ends[2]))
            &&& next == ends[2]
        },
        case_at(buf, pos) is None ==> {
            ||| string_at(buf, pos) is None
            ||| recording_at(buf, ends[0]) is None
            ||| i32s_at(buf, ends[1]) is None
        },
{
    let p1 = string_at(buf, pos)->Some_0.1;
    let p2 = recording_at(buf, p1)->Some_0.1;
    let p3 = i32s_at(buf, p2)->Some_0.1;
    seq![p1, p2, p3]
}

/// Whether items are read by `read` one after the other, from each of the places on and up
/// to the next.
spec fn chained<T>(read: spec_fn(int) -> Option<(T, int)>, items: Seq<T>, starts: Seq<int>) -> bool {
    &&& starts.len() == items.len() + 1
    &&& forall|k: int|
        0 <= k < items.len() ==> read(#[trigger] starts[k]) == Some((items[k], starts[k + 1]))
}

proof fn lemma_chained<T>(
    read: spec_fn(int) -> Option<(T, int)>,
    items: Seq<T>,
    starts: Seq<int>,
    item: T,
    end: int,
)
    requires
        chained(read, items, starts),
        read(starts.last()) == Some((item, end)),
    ensures
        chained(read, items.push(item), starts.push(end)),
{
    let n = items.len() as int;
    assert forall|k: int| 0 <= k < n + 1 implies read(#[trigger] starts.push(end)[k]) == Some(
        (items.push(item)[k], starts.push(end)[k + 1]),
    ) by {
        assert(starts.push(end)[k] == starts[k]);
        if k < n {
            assert(starts.push(end)[k + 1] == starts[k + 1]);
        }
    }
}

proof fn lemma_case_starts(buf: Seq<u8>, pos: int, n: int) -> (starts: Seq<int>)
    requires
        0 <= n,
        cases_at(buf, pos, n) is Some,
    ensures
        cases_at(buf, pos, n)->Some_0.0.len() == n,
        starts.len() == n + 1,
        starts[0] == pos,
        starts[n] == cases_at(buf, pos, n)->Some_0.1,
        chained(|p: int| case_at(buf, p), cases_at(buf, pos, n)->Some_0.0, starts),
    decreases n,
{
    if n == 0 {
        seq![pos]
    } else {
        let before = lemma_case_starts(buf, pos, n - 1);
        let (front, at) = cases_at(buf, pos, n - 1)->Some_0;
        let (case, end) = case_at(buf, at)->Some_0;
        let read = |p: int| case_at(buf, p);
        assert(read(before.last()) == case_at(buf, at));
        lemma_chained(read, front, before, case, end);
        before.push(end)
    }
}

/// A file of test cases begins with four bytes whose number is that of the test cases. The
/// first one starts behind them, and each of the others where the one before it ends.
pub proof fn each_case_starts_where_the_one_before_ends(buf: Seq<u8>) -> (starts: Seq<int>)
    requires
        cases_of(buf) is Some,
    ensures
        ({
            let cases = cases_of(buf)->Some_0;
            &&& buf.len() >= 4
            &&& cases.len() == le_number(buf.subrange(0, 4))
            &&& starts.len() == cases.len() + 1
            &&& starts[0] == 4
            &&& forall|k: int|
                0 <= k < cases.len() ==> case_at(buf, #[trigger] starts[k]) == Some(
                    (cases[k], starts[k + 1]),
                )
        }),
{
    let (n, first) = count_at(buf, 0)->Some_0;
    word_has_its_bytes_as_digits(buf, 0);
    let cases = cases_of(buf)->Some_0;
    let read = |p: int| case_at(buf, p);
    let starts = lemma_case_starts(buf, first, n);
    assert forall|k: int| 0 <= k < cases.len() implies case_at(buf, #[trigger] starts[k]) == Some(
        (cases[k], starts[k + 1]),
    ) by {
        assert(read(starts[k]) == case_at(buf, starts[k]));
    }
    starts
}

/// A recording is read exactly where it stands as it is written.
#[verifier::rlimit(40)]
proof fn lemma_recording(buf: Seq<u8>, pos: int, r: Recording)
    requires
        0 <= pos,
    ensures
        countable(r) && stands_at(buf, pos, recording_written(r)) ==> recording_at(buf, pos)
            == Some((r, pos + recording_written(r).len())),
        recording_at(buf, pos) matches Some((v, next)) ==> v == r ==> countable(r) && stands_at(
            buf,
            pos,
            recording_written(r),
        ) && next == pos + recording_written(r).len(),
{
    let a = list_written(r.symbols);
    let b = list_written(r.indexes);
    let c = four_digits(r.tables.cdfs.len() as int);
    let d = rows_written(r.tables.cdfs);
    let e = list_written(r.tables.lengths);
    let f = list_written(r.tables.offsets);
    let g = bytes_written(r.ref_bytes);
    let p1 = pos + a.len();
    let p2 = p1 + b.len();
    let p3 = p2 + c.len() + d.len();
    let p4 = p3 + e.len();
    let p5 = p4 + f.len();
    lemma_stands(buf, pos, a, b);
    lemma_stands(buf, pos, a + b, c);
    lemma_stands(buf, pos, a + b + c, d);
    lemma_stands(buf, pos, a + b + c + d, e);
    lemma_stands(buf, pos, a + b + c + d + e, f);
    lemma_stands(buf, pos, a + b + c + d + e + f, g);
    lemma_stands(buf, p2, c, d);
    lemma_list(buf, pos, r.symbols);
    lemma_list(buf, p1, r.indexes);
    lemma_cdfs(buf, p2, r.tables.cdfs);
    lemma_list(buf, p3, r.tables.lengths);
    lemma_list(buf, p4, r.tables.offsets);
    lemma_bytes(buf, p5, r.ref_bytes);
}

/// A recording that is written is read back, wherever it stands and whatever follows it.
pub proof fn written_recording_is_read_back(before: Seq<u8>, r: Recording, after: Seq<u8>)
    requires
        countable(r),
    ensures
        recording_at(before + recording_written(r) + after, before.len() as int) == Some(
            (r, (before.len() + recording_written(r).len()) as int),
        ),
{
    let buf = before + recording_written(r) + after;
    let w = recording_written(r);
    assert(buf.subrange(before.len() as int, (before.len() + w.len()) as int) =~= w);
    lemma_recording(buf, before.len() as int, r);
}

/// What is read as a recording is written as the bytes that it was read from.
pub proof fn read_recording_stands_as_it_is_written(buf: Seq<u8>, pos: int)
    requires
        0 <= pos,
        recording_at(buf, pos) is Some,
    ensures
        ({
            let (r, next) = recording_at(buf, pos)->Some_0;
            &&& pos <= next <= buf.len()
            &&& buf.subrange(pos, next) == recording_written(r)
        }),
{
    lemma_recording(buf, pos, recording_at(buf, pos)->Some_0.0);
}

/// A test case is read exactly where it stands as it is written.
#[verifier::rlimit(40)]
proof fn lemma_case(buf: Seq<u8>, pos: int, c: NamedRecording)
    requires
        0 <= pos,
    ensures
        case_countable(c) && stands_at(buf, pos, case_written(c)) ==> case_at(buf, pos) == Some(
            (c, pos + case_written(c).len()),
        ),
        case_at(buf, pos) matches Some((v, next)) ==> v == c ==> case_countable(c) && stands_at(
            buf,
            pos,
            case_written(c),
        ) && next == pos + case_written(c).len(),
{
    let name = encode_utf8(c.name);
    encode_utf8_valid_utf8(c.name);
    encode_utf8_decode_utf8(c.name);
    let a = bytes_written(name);
    let b = recording_written(c.data);
    let d = list_written(c.ref_symbols);
    lemma_stands(buf, pos, a, b);
    lemma_stands(buf, pos, a + b, d);
    lemma_bytes(buf, pos, name);
    lemma_recording(buf, pos + a.len(), c.data);
    lemma_list(buf, pos + a.len() + b.len(), c.ref_symbols);
    if let Some((v, next)) = case_at(buf, pos) {
        if v == c {
            let bytes = bytes_at(buf, pos)->Some_0.0;
            decode_utf8_encode_utf8(bytes);
            assert(bytes == name);
        }
    }
}

/// A test case that is written is read back, wherever it stands and whatever follows it.
pub proof fn written_case_is_read_back(before: Seq<u8>, c: NamedRecording, after: Seq<u8>)
    requires
        case_countable(c),
    ensures
        case_at(before + case_written(c) + after, before.len() as int) == Some(
            (c, (before.len() + case_written(c).len()) as int),
        ),
{
    let buf = before + case_written(c) + after;
    let w = case_written(c);
    assert(buf.subrange(before.len() as int, (before.len() + w.len()) as int) =~= w);
    lemma_case(buf, before.len() as int, c);
}

/// What is read as a test case is written as the bytes that it was read from.
pub proof fn read_case_stands_as_it_is_written(buf: Seq<u8>, pos: int)
    requires
        0 <= pos,
        case_at(buf, pos) is Some,
    ensures
        ({
            let (c, next) = case_at(buf, pos)->Some_0;
            &&& pos <= next <= buf.len()
            &&& buf.subrange(pos, next) == case_written(c)
        }),
{
    lemma_case(buf, pos, case_at(buf, pos)->Some_0.0);
}

proof fn lemma_cases_count(buf: Seq<u8>, pos: int, n: int)
    requires
        0 <= n,
    ensures
        cases_at(buf, pos, n) matches Some((cases, _)) ==> cases.len() == n,
    decreases n,
{
    if n > 0 {
        lemma_cases_count(buf, pos, n - 1);
    }
}

/// Test cases are read where they stand as they are written.
proof fn lemma_cases_read(buf: Seq<u8>, pos: int, cases: Seq<NamedRecording>)
    requires
        forall|k: int| 0 <= k < cases.len() ==> case_countable(#[trigger] cases[k]),
        stands_at(buf, pos, cases_written(cases)),
    ensures
        cases_at(buf, pos, cases.len() as int) == Some((cases, pos + cases_written(cases).len())),
    decreases cases.len(),
{
    if cases.len() == 0 {
        assert(cases =~= Seq::empty());
    } else {
        let front = cases.drop_last();
        let last = cases.last();
        lemma_stands(buf, pos, cases_written(front), case_written(last));
        assert forall|k: int| 0 <= k < front.len() implies case_countable(#[trigger] front[k]) by {
            assert(front[k] == cases[k]);
        }
        lemma_cases_read(buf, pos, front);
        lemma_case(buf, pos + cases_written(front).len(), last);
        assert(front.push(last) =~= cases);
    }
}

/// Test cases that are read stand as they are written.
proof fn lemma_cases_stand(buf: Seq<u8>, pos: int, n: int)
    requires
        0 <= pos <= buf.len(),
        0 <= n,
        cases_at(buf, pos, n) is Some,
    ensures
        ({
            let (cases, next) = cases_at(buf, pos, n)->Some_0;
            stands_at(buf, pos, cases_written(cases)) && next == pos + cases_written(cases).len()
        }),
    decreases n,
{
    let (cases, next) = cases_at(buf, pos, n)->Some_0;
    if n == 0 {
        assert(buf.subrange(pos, pos) =~= Seq::<u8>::empty());
    } else {
        let (front, mid) = cases_at(buf, pos, n - 1)->Some_0;
        let last = case_at(buf, mid)->Some_0.0;
        lemma_cases_stand(buf, pos, n - 1);
        lemma_case(buf, mid, last);
        lemma_stands(buf, pos, cases_written(front), case_written(last));
        assert(cases.drop_last() =~= front);
    }
}

/// A file of test cases is their number in four bytes and then the test cases, in order.
/// Such a file is read as its test cases, whatever follows them.
pub proof fn written_cases_are_read_back(cases: Seq<NamedRecording>, after: Seq<u8>)
    requires
        cases.len() < 0x1_0000_0000,
        forall|k: int| 0 <= k < cases.len() ==> case_countable(#[trigger] cases[k]),
    ensures
        cases_of(four_digits(cases.len() as int) + cases_written(cases) + after) == Some(cases),
{
    let n = cases.len() as int;
    let w = cases_written(cases);
    let buf = four_digits(n) + w + after;
    assert(buf.subrange(0, 4) =~= four_digits(n));
    lemma_digits_stand(buf, 0, n);
    assert(buf.subrange(4, (4 + w.len()) as int) =~= w);
    lemma_cases_read(buf, 4, cases);
}

/// What is read as a file of test cases begins with the test cases as they are written.
pub proof fn read_cases_stand_as_they_are_written(buf: Seq<u8>)
    requires
        cases_of(buf) is Some,
    ensures
        ({
            let cases = cases_of(buf)->Some_0;
            let w = four_digits(cases.len() as int) + cases_written(cases);
            w.len() <= buf.len() && buf.take(w.len() as int) == w
        }),
{
    let cases = cases_of(buf)->Some_0;
    let n = word_at(buf, 0) as int;
    lemma_cases_count(buf, 4, n);
    lemma_digits_stand(buf, 0, n);
    lemma_cases_stand(buf, 4, n);
    lemma_stands(buf, 0, four_digits(n), cases_written(cases));
    let w = four_digits(n) + cases_written(cases);
    assert(buf.take(w.len() as int) =~= buf.subrange(0, w.len() as int));
}

/// The contents of recordings and test cases are those of their fields, row for row and
/// case for case.
pub proof fn contents_are_those_of_the_fields(data: Data, cases: Seq<Case>)
    ensures
        data@.symbols == data.symbols@,
        data@.indexes == data.indexes@,
        data@.tables.cdfs.len() == data.cdfs@.len(),
        forall|k: int|
            0 <= k < data.cdfs@.len() ==> #[trigger] data@.tables.cdfs[k] == data.cdfs@[k]@,
        data@.tables.cdfs == rows_view(data.cdfs@),
        data@.tables.lengths == data.cdf_lengths@,
        data@.tables.offsets == data.offsets@,
        data@.ref_bytes == data.ref_bytes@,
        cases_view(cases).len() == cases.len(),
        forall|k: int|
            0 <= k < cases.len() ==> (#[trigger] cases_view(cases)[k]).name == cases[k].name@
                && cases_view(cases)[k].data == cases[k].data@ && cases_view(cases)[k].ref_symbols
                == cases[k].ref_symbols@,
{
}

proof fn lemma_differences(a: Seq<i32>, b: Seq<i32>, k: int)
    requires
        0 <= k <= a.len(),
        k <= b.len(),
        k <= usize::MAX,
    ensures
        ({
            let all = differences(a, b, k);
            &&& forall|j: int|
                0 <= j < all.len() ==> (#[trigger] all[j]).0 < k && all[j].1 == a[all[j].0 as int]
                    && all[j].2 == b[all[j].0 as int] && all[j].1 != all[j].2
            &&& forall|j: int, l: int|
                0 <= j < l < all.len() ==> (#[trigger] all[j]).0 < (#[trigger] all[l]).0
            &&& forall|i: int|
                0 <= i < k && #[trigger] a[i] != b[i] ==> all.contains((i as usize, a[i], b[i]))
        }),
    decreases k,
{
    if k > 0 {
        lemma_differences(a, b, k - 1);
        let before = differences(a, b, k - 1);
        let all = differences(a, b, k);
        assert forall|i: int| 0 <= i < k && #[trigger] a[i] != b[i] implies all.contains(
            (i as usize, a[i], b[i]),
        ) by {
            let d = (i as usize, a[i], b[i]);
            if i < k - 1 {
                let j = choose|j: int| 0 <= j < before.len() && before[j] == d;
                assert(before.contains(d));
                assert(all[j] == d);
            } else {
                assert(all.last() == d);
                assert(all[all.len() - 1] == d);
            }
        }
    }
}

/// The differences that are listed are places, inside both lists, at which the lists differ,
/// each with what the first and the second list hold there. They are in order, at most as
/// many as asked for, and none is left out: a place that is not listed comes after all that
/// are, and there are then as many as asked for.
pub proof fn listed_differences_are_the_first_ones(a: Seq<i32>, b: Seq<i32>, limit: int)
    requires
        0 <= limit,
        a.len() <= usize::MAX,
        b.len() <= usize::MAX,
    ensures
        ({
            let listed = first_differences(a, b, limit);
            &&& listed.len() <= limit
            &&& forall|j: int|
                0 <= j < listed.len() ==> (#[trigger] listed[j]).0 < a.len() && listed[j].0
                    < b.len() && listed[j].1 == a[listed[j].0 as int] && listed[j].2
                    == b[listed[j].0 as int] && listed[j].1 != listed[j].2
            &&& forall|j: int, l: int|
                0 <= j < l < listed.len() ==> (#[trigger] listed[j]).0 < (#[trigger] listed[l]).0
            &&& forall|i: int|
                0 <= i < a.len() && i < b.len() && #[trigger] a[i] != b[i] ==> listed.contains(
                    (i as usize, a[i], b[i]),
                ) || (listed.len() == limit && forall|j: int|
                    0 <= j < listed.len() ==> (#[trigger] listed[j]).0 < i)
        }),
{
    let both = if a.len() < b.len() { a.len() as int } else { b.len() as int };
    let all = differences(a, b, both);
    let listed = first_differences(a, b, limit);
    lemma_differences(a, b, both);
    assert forall|i: int| 0 <= i < a.len() && i < b.len() && #[trigger] a[i] != b[i] implies listed.contains(
        (i as usize, a[i], b[i]),
    ) || (listed.len() == limit && forall|j: int|
        0 <= j < listed.len() ==> (#[trigger] listed[j]).0 < i) by {
        let d = (i as usize, a[i], b[i]);
        assert(all.contains(d));
        let at = choose|at: int| 0 <= at < all.len() && all[at] == d;
        if at < listed.len() {
            assert(listed[at] == d);
        } else {
            assert forall|j: int| 0 <= j < listed.len() implies (#[trigger] listed[j]).0 < i by {
                assert(listed[j] == all[j]);
            }
        }
    }
}

} // verus!
