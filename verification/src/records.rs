//! Recorded inputs and outputs of a coder.
//!
//! A record is a sequence of fields. A list is a 32-bit count followed by its elements;
//! all numbers are little-endian.
use crate::bytes::{i32_at, read_word, word_at};
use crate::coder::{tables, Tables};
use vstd::prelude::*;
use vstd::utf8::{decode_utf8, valid_utf8};

verus! {

/// What a coder was given, and the bytes that a reference coder made of it.
pub struct Data {
    pub symbols: Vec<i32>,
    pub indexes: Vec<i32>,
    pub cdfs: Vec<Vec<i32>>,
    pub cdf_lengths: Vec<i32>,
    pub offsets: Vec<i32>,
    pub ref_bytes: Vec<u8>,
}

/// A named test case: besides a recording, what the reference coder decodes its own bytes
/// to.
pub struct Case {
    pub name: String,
    pub data: Data,
    pub ref_symbols: Vec<i32>,
}

/// The contents of a `Data`.
pub struct Recording {
    pub symbols: Seq<i32>,
    pub indexes: Seq<i32>,
    pub tables: Tables,
    pub ref_bytes: Seq<u8>,
}

/// The contents of a `Case`.
pub struct NamedRecording {
    pub name: Seq<char>,
    pub data: Recording,
    pub ref_symbols: Seq<i32>,
}

impl View for Data {
    type V = Recording;

    open spec fn view(&self) -> Recording {
        Recording {
            symbols: self.symbols@,
            indexes: self.indexes@,
            tables: tables(self.cdfs@, self.cdf_lengths@, self.offsets@),
            ref_bytes: self.ref_bytes@,
        }
    }
}

impl View for Case {
    type V = NamedRecording;

    open spec fn view(&self) -> NamedRecording {
        NamedRecording {
            name: self.name@,
            data: self.data@,
            ref_symbols: self.ref_symbols@,
        }
    }
}

/// The contents of a vector of rows.
pub open spec fn rows_view(rows: Seq<Vec<i32>>) -> Seq<Seq<i32>> {
    Seq::new(rows.len(), |i: int| rows[i]@)
}

/// The count that stands at `pos`, and the position after it.
pub open spec fn count_at(buf: Seq<u8>, pos: int) -> Option<(int, int)> {
    if 0 <= pos && pos + 4 <= buf.len() {
        Some((word_at(buf, pos) as int, pos + 4))
    } else {
        None
    }
}

/// The list of numbers that stands at `pos`, and the position after it.
pub open spec fn i32s_at(buf: Seq<u8>, pos: int) -> Option<(Seq<i32>, int)> {
    match count_at(buf, pos) {
        None => None,
        Some((n, first)) => if first + 4 * n <= buf.len() {
            Some((Seq::new(n as nat, |i: int| i32_at(buf, first + 4 * i)), first + 4 * n))
        } else {
            None
        },
    }
}

/// The list of bytes that stands at `pos`, and the position after it.
pub open spec fn bytes_at(buf: Seq<u8>, pos: int) -> Option<(Seq<u8>, int)> {
    match count_at(buf, pos) {
        None => None,
        Some((n, first)) => if first + n <= buf.len() {
            Some((buf.subrange(first, first + n), first + n))
        } else {
            None
        },
    }
}

/// The text that stands at `pos`, and the position after it.
pub open spec fn string_at(buf: Seq<u8>, pos: int) -> Option<(Seq<char>, int)> {
    match bytes_at(buf, pos) {
        None => None,
        Some((bytes, next)) => if valid_utf8(bytes) {
            Some((decode_utf8(bytes), next))
        } else {
            None
        },
    }
}

/// The first `n` lists of numbers from `pos` on, and the position after them.
pub open spec fn rows_at(buf: Seq<u8>, pos: int, n: int) -> Option<(Seq<Seq<i32>>, int)>
    decreases n,
{
    if n <= 0 {
        Some((Seq::empty(), pos))
    } else {
        match rows_at(buf, pos, n - 1) {
            None => None,
            Some((rows, at)) => match i32s_at(buf, at) {
                None => None,
                Some((row, next)) => Some((rows.push(row), next)),
            },
        }
    }
}

/// The counted lists of numbers that stand at `pos`, and the position after them.
pub open spec fn cdfs_at(buf: Seq<u8>, pos: int) -> Option<(Seq<Seq<i32>>, int)> {
    match count_at(buf, pos) {
        None => None,
        Some((n, first)) => rows_at(buf, first, n),
    }
}

/// The recording that stands at `pos`, and the position after it.
pub open spec fn recording_at(buf: Seq<u8>, pos: int) -> Option<(Recording, int)> {
    match i32s_at(buf, pos) {
        None => None,
        Some((symbols, p1)) => match i32s_at(buf, p1) {
            None => None,
            Some((indexes, p2)) => match cdfs_at(buf, p2) {
                None => None,
                Some((cdfs, p3)) => match i32s_at(buf, p3) {
                    None => None,
                    Some((lengths, p4)) => match i32s_at(buf, p4) {
                        None => None,
                        Some((offsets, p5)) => match bytes_at(buf, p5) {
                            None => None,
                            Some((ref_bytes, p6)) => Some(
                                (
                                    Recording {
                                        symbols,
                                        indexes,
                                        tables: Tables { cdfs, lengths, offsets },
                                        ref_bytes,
                                    },
                                    p6,
                                ),
                            ),
                        },
                    },
                },
            },
        },
    }
}

/// The test case that stands at `pos`, and the position after it.
pub open spec fn case_at(buf: Seq<u8>, pos: int) -> Option<(NamedRecording, int)> {
    match string_at(buf, pos) {
        None => None,
        Some((name, p1)) => match recording_at(buf, p1) {
            None => None,
            Some((data, p2)) => match i32s_at(buf, p2) {
                None => None,
                Some((ref_symbols, p3)) => Some((NamedRecording { name, data, ref_symbols }, p3)),
            },
        },
    }
}

/// The first `n` test cases from `pos` on, and the position after them.
pub open spec fn cases_at(buf: Seq<u8>, pos: int, n: int) -> Option<(Seq<NamedRecording>, int)>
    decreases n,
{
    if n <= 0 {
        Some((Seq::empty(), pos))
    } else {
        match cases_at(buf, pos, n - 1) {
            None => None,
            Some((cases, at)) => match case_at(buf, at) {
                None => None,
                Some((case, next)) => Some((cases.push(case), next)),
            },
        }
    }
}

/// The counted test cases with which a file begins.
pub open spec fn cases_of(buf: Seq<u8>) -> Option<Seq<NamedRecording>> {
    match count_at(buf, 0) {
        None => None,
        Some((n, first)) => match cases_at(buf, first, n) {
            None => None,
            Some((cases, _)) => Some(cases),
        },
    }
}

/// The contents of a vector of test cases.
pub open spec fn cases_view(cases: Seq<Case>) -> Seq<NamedRecording> {
    Seq::new(cases.len(), |i: int| cases[i]@)
}

/// Reads the count that stands at `pos`, and moves `pos` behind it.
fn read_count(buf: &[u8], pos: &mut usize) -> (count: Option<usize>)
    ensures
        count is Some <==> count_at(buf@, *old(pos) as int) is Some,
        count matches Some(n) ==> count_at(buf@, *old(pos) as int) == Some(
            (n as int, *final(pos) as int),
        ),
        count is None ==> *final(pos) == *old(pos),
{
    if *pos > buf.len() || buf.len() - *pos < 4 {
        return None;
    }
    let count: usize = read_word(buf, *pos) as usize;
    *pos = *pos + 4;
    Some(count)
}

/// Reads the list of numbers that stands at `pos`, and moves `pos` behind it.
pub fn read_i32_vec(buf: &[u8], pos: &mut usize) -> (values: Option<Vec<i32>>)
    ensures
        values is Some <==> i32s_at(buf@, *old(pos) as int) is Some,
        values matches Some(v) ==> i32s_at(buf@, *old(pos) as int) == Some(
            (v@, *final(pos) as int),
        ),
        values is None ==> *final(pos) == *old(pos),
{
    let mut first: usize = *pos;
    let n: usize = match read_count(buf, &mut first) {
        None => {
            return None;
        },
        Some(n) => n,
    };
    if (buf.len() - first) / 4 < n {
        return None;
    }
    let mut values: Vec<i32> = Vec::with_capacity(n);
    let mut i: usize = 0;
    while i < n
        invariant
            i <= n,
            first + 4 * n <= buf.len(),
            values@ =~= Seq::new(i as nat, |k: int| i32_at(buf@, first + 4 * k)),
        decreases n - i,
    {
        values.push(read_word(buf, first + 4 * i) as i32);
        i = i + 1;
    }
    *pos = first + 4 * n;
    Some(values)
}

/// Reads the list of bytes that stands at `pos`, and moves `pos` behind it.
pub fn read_bytes(buf: &[u8], pos: &mut usize) -> (bytes: Option<Vec<u8>>)
    ensures
        bytes is Some <==> bytes_at(buf@, *old(pos) as int) is Some,
        bytes matches Some(v) ==> bytes_at(buf@, *old(pos) as int) == Some(
            (v@, *final(pos) as int),
        ),
        bytes is None ==> *final(pos) == *old(pos),
{
    let mut first: usize = *pos;
    let n: usize = match read_count(buf, &mut first) {
        None => {
            return None;
        },
        Some(n) => n,
    };
    if buf.len() - first < n {
        return None;
    }
    let mut bytes: Vec<u8> = Vec::with_capacity(n);
    let mut i: usize = 0;
    while i < n
        invariant
            i <= n,
            first + n <= buf.len(),
            bytes@ =~= buf@.subrange(first as int, first + i),
        decreases n - i,
    {
        bytes.push(buf[first + i]);
        i = i + 1;
    }
    *pos = first + n;
    Some(bytes)
}

/// The text that `bytes` encode, by `String::from_utf8`: there is one exactly where the
/// bytes are valid UTF-8, and it has the characters that they encode.
#[verifier::external_body]
fn text_of(bytes: Vec<u8>) -> (text: Option<String>)
    ensures
        text is Some <==> valid_utf8(bytes@),
        text matches Some(s) ==> s@ == decode_utf8(bytes@),
{
    String::from_utf8(bytes).ok()
}

/// Reads the text that stands at `pos`, and moves `pos` behind it.
pub fn read_string(buf: &[u8], pos: &mut usize) -> (text: Option<String>)
    ensures
        text is Some <==> string_at(buf@, *old(pos) as int) is Some,
        text matches Some(s) ==> string_at(buf@, *old(pos) as int) == Some(
            (s@, *final(pos) as int),
        ),
        text is None ==> *final(pos) == *old(pos),
{
    let mut next: usize = *pos;
    let bytes: Vec<u8> = match read_bytes(buf, &mut next) {
        None => {
            return None;
        },
        Some(bytes) => bytes,
    };
    match text_of(bytes) {
        None => None,
        Some(text) => {
            *pos = next;
            Some(text)
        },
    }
}

/// Reads the counted lists of numbers that stand at `pos`, and moves `pos` behind them.
fn read_cdfs(buf: &[u8], pos: &mut usize) -> (cdfs: Option<Vec<Vec<i32>>>)
    ensures
        cdfs is Some <==> cdfs_at(buf@, *old(pos) as int) is Some,
        cdfs matches Some(v) ==> cdfs_at(buf@, *old(pos) as int) == Some(
            (rows_view(v@), *final(pos) as int),
        ),
        cdfs is None ==> *final(pos) == *old(pos),
{
    let mut at: usize = *pos;
    let n: usize = match read_count(buf, &mut at) {
        None => {
            return None;
        },
        Some(n) => n,
    };
    let ghost first = at as int;
    let mut cdfs: Vec<Vec<i32>> = Vec::new();
    assert(rows_view(cdfs@) =~= Seq::empty());
    let mut i: usize = 0;
    while i < n
        invariant
            i <= n,
            *pos == *old(pos),
            rows_at(buf@, first, i as int) == Some((rows_view(cdfs@), at as int)),
            cdfs_at(buf@, *old(pos) as int) == rows_at(buf@, first, n as int),
        decreases n - i,
    {
        let ghost before = cdfs@;
        match read_i32_vec(buf, &mut at) {
            None => {
                proof {
                    lemma_rows_unread(buf@, first, i + 1, n as int);
                }
                return None;
            },
            Some(row) => {
                cdfs.push(row);
                assert(rows_view(cdfs@) =~= rows_view(before).push(row@));
            },
        }
        i = i + 1;
    }
    *pos = at;
    Some(cdfs)
}

/// Lists of which the first ones cannot be read cannot all be read.
proof fn lemma_rows_unread(buf: Seq<u8>, pos: int, k: int, n: int)
    requires
        k <= n,
        rows_at(buf, pos, k) is None,
    ensures
        rows_at(buf, pos, n) is None,
    decreases n - k,
{
    if k < n {
        lemma_rows_unread(buf, pos, k, n - 1);
    }
}

/// Reads the recording that stands at `pos`, and moves `pos` behind it.
fn read_data(buf: &[u8], pos: &mut usize) -> (data: Option<Data>)
    ensures
        data is Some <==> recording_at(buf@, *old(pos) as int) is Some,
        data matches Some(d) ==> recording_at(buf@, *old(pos) as int) == Some(
            (d@, *final(pos) as int),
        ),
{
    let symbols: Vec<i32> = match read_i32_vec(buf, pos) {
        None => {
            return None;
        },
        Some(v) => v,
    };
    let indexes: Vec<i32> = match read_i32_vec(buf, pos) {
        None => {
            return None;
        },
        Some(v) => v,
    };
    let cdfs: Vec<Vec<i32>> = match read_cdfs(buf, pos) {
        None => {
            return None;
        },
        Some(v) => v,
    };
    let cdf_lengths: Vec<i32> = match read_i32_vec(buf, pos) {
        None => {
            return None;
        },
        Some(v) => v,
    };
    let offsets: Vec<i32> = match read_i32_vec(buf, pos) {
        None => {
            return None;
        },
        Some(v) => v,
    };
    let ref_bytes: Vec<u8> = match read_bytes(buf, pos) {
        None => {
            return None;
        },
        Some(v) => v,
    };
    Some(Data { symbols, indexes, cdfs, cdf_lengths, offsets, ref_bytes })
}

/// Reads the recording with which a file begins.
pub fn parse_data(buf: &[u8]) -> (data: Option<Data>)
    ensures
        data is Some <==> recording_at(buf@, 0) is Some,
        data matches Some(d) ==> recording_at(buf@, 0)->Some_0.0 == d@,
{
    let mut pos: usize = 0;
    read_data(buf, &mut pos)
}

/// Reads the test case that stands at `pos`, and moves `pos` behind it.
fn read_case(buf: &[u8], pos: &mut usize) -> (case: Option<Case>)
    ensures
        case is Some <==> case_at(buf@, *old(pos) as int) is Some,
        case matches Some(c) ==> case_at(buf@, *old(pos) as int) == Some((c@, *final(pos) as int)),
{
    let name: String = match read_string(buf, pos) {
        None => {
            return None;
        },
        Some(name) => name,
    };
    let data: Data = match read_data(buf, pos) {
        None => {
            return None;
        },
        Some(data) => data,
    };
    let ref_symbols: Vec<i32> = match read_i32_vec(buf, pos) {
        None => {
            return None;
        },
        Some(v) => v,
    };
    Some(Case { name, data, ref_symbols })
}

/// Test cases of which the first ones cannot be read cannot all be read.
proof fn lemma_cases_unread(buf: Seq<u8>, pos: int, k: int, n: int)
    requires
        k <= n,
        cases_at(buf, pos, k) is None,
    ensures
        cases_at(buf, pos, n) is None,
    decreases n - k,
{
    if k < n {
        lemma_cases_unread(buf, pos, k, n - 1);
    }
}

/// Reads the test cases with which a file begins.
pub fn parse_cases(buf: &[u8]) -> (cases: Option<Vec<Case>>)
    ensures
        cases is Some <==> cases_of(buf@) is Some,
        cases matches Some(v) ==> cases_of(buf@) == Some(cases_view(v@)),
{
    let mut pos: usize = 0;
    let n: usize = match read_count(buf, &mut pos) {
        None => {
            return None;
        },
        Some(n) => n,
    };
    let ghost first = pos as int;
    let mut cases: Vec<Case> = Vec::new();
    assert(cases_view(cases@) =~= Seq::empty());
    let mut i: usize = 0;
    while i < n
        invariant
            i <= n,
            count_at(buf@, 0) == Some((n as int, first)),
            cases_at(buf@, first, i as int) == Some((cases_view(cases@), pos as int)),
        decreases n - i,
    {
        let ghost before = cases@;
        match read_case(buf, &mut pos) {
            None => {
                proof {
                    lemma_cases_unread(buf@, first, i + 1, n as int);
                }
                return None;
            },
            Some(case) => {
                cases.push(case);
                assert(cases_view(cases@) =~= cases_view(before).push(case@));
            },
        }
        i = i + 1;
    }
    Some(cases)
}

/// The places among the first `k` at which `a` and `b` differ, with what they hold there.
pub open spec fn differences(a: Seq<i32>, b: Seq<i32>, k: int) -> Seq<(usize, i32, i32)>
    decreases k,
{
    if k <= 0 {
        Seq::empty()
    } else if a[k - 1] != b[k - 1] {
        differences(a, b, k - 1).push(((k - 1) as usize, a[k - 1], b[k - 1]))
    } else {
        differences(a, b, k - 1)
    }
}

/// The first `limit` places at which `a` and `b` differ, as far as both reach.
pub open spec fn first_differences(a: Seq<i32>, b: Seq<i32>, limit: int) -> Seq<
    (usize, i32, i32),
> {
    let both = if a.len() < b.len() {
        a.len() as int
    } else {
        b.len() as int
    };
    let all = differences(a, b, both);
    if all.len() <= limit {
        all
    } else {
        all.take(limit)
    }
}

/// Later differences come after the earlier ones.
proof fn lemma_differences_grow(a: Seq<i32>, b: Seq<i32>, k: int, n: int)
    requires
        k <= n,
    ensures
        differences(a, b, k).len() <= differences(a, b, n).len(),
        differences(a, b, n).take(differences(a, b, k).len() as int) == differences(a, b, k),
    decreases n - k,
{
    if k < n {
        lemma_differences_grow(a, b, k, n - 1);
        let short = differences(a, b, k);
        let mid = differences(a, b, n - 1);
        if n > 0 {
            assert(differences(a, b, n).take(short.len() as int) =~= mid.take(short.len() as int));
        }
    } else {
        assert(differences(a, b, n).take(differences(a, b, k).len() as int) =~= differences(
            a,
            b,
            k,
        ));
    }
}

/// Finds the first `limit` places at which `a` and `b` differ.
pub fn find_differences(a: &[i32], b: &[i32], limit: usize) -> (found: Vec<(usize, i32, i32)>)
    ensures
        found@ == first_differences(a@, b@, limit as int),
{
    let both: usize = if a.len() < b.len() {
        a.len()
    } else {
        b.len()
    };
    let mut found: Vec<(usize, i32, i32)> = Vec::new();
    let mut i: usize = 0;
    while i < both && found.len() < limit
        invariant
            i <= both,
            both <= a@.len() && both <= b@.len(),
            found@.len() <= limit,
            found@ == differences(a@, b@, i as int),
        decreases both - i,
    {
        if a[i] != b[i] {
            found.push((i, a[i], b[i]));
        }
        i = i + 1;
    }
    proof {
        lemma_differences_grow(a@, b@, i as int, both as int);
        if differences(a@, b@, both as int).len() == found@.len() {
            assert(differences(a@, b@, both as int).take(found@.len() as int) =~= differences(
                a@,
                b@,
                both as int,
            ));
        }
    }
    found
}

} // verus!
