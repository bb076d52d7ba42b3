//! Coding of symbols by cumulative frequency tables. Each symbol is coded by the table
//! that its index names, and no symbol depends on another.
use crate::bytes::{bytes_of, read_words, words_of};
use crate::rans::{
    flushed, opened, stream_of, without_bits, without_slot, write_stream, RansSymbol, Reader, Stream,
};
use vstd::prelude::*;

verus! {

/// One table: the cumulative frequencies of the slots, the number of entries in use, and
/// the symbol that the first slot stands for. The last slot in use is the escape: it
/// stands for every symbol that has no slot of its own.
pub struct Row {
    pub cdf: Seq<i32>,
    pub length: i32,
    pub offset: i32,
}

/// The tables that the indexes choose from.
pub struct Tables {
    pub cdfs: Seq<Seq<i32>>,
    pub lengths: Seq<i32>,
    pub offsets: Seq<i32>,
}

impl Tables {
    /// Whether `index` names a table.
    pub open spec fn has(self, index: i32) -> bool {
        0 <= index && index < self.cdfs.len() && index < self.lengths.len() && index
            < self.offsets.len()
    }

    /// The table that `index` names.
    pub open spec fn row(self, index: i32) -> Row {
        Row {
            cdf: self.cdfs[index as int],
            length: self.lengths[index as int],
            offset: self.offsets[index as int],
        }
    }
}

/// The tables that three parallel lists describe.
pub open spec fn tables(cdfs: Seq<Vec<i32>>, lengths: Seq<i32>, offsets: Seq<i32>) -> Tables {
    Tables { cdfs: Seq::new(cdfs.len(), |i: int| cdfs[i]@), lengths, offsets }
}

impl Row {
    /// The number of the escape slot.
    pub open spec fn max_value(self) -> int {
        self.length - 2
    }

    /// Whether `symbol` has no slot of its own.
    pub open spec fn escapes(self, symbol: i32) -> bool {
        !(0 <= symbol - self.offset < self.max_value())
    }

    /// The number of the slot that stands for `symbol`.
    pub open spec fn slot(self, symbol: i32) -> int {
        if self.escapes(symbol) {
            self.max_value()
        } else {
            symbol - self.offset
        }
    }

    /// The distance of an escaping `symbol` from the slots: odd numbers count downwards
    /// from the first slot, even ones upwards from the escape.
    pub open spec fn distance(self, symbol: i32) -> int {
        let value = symbol - self.offset;
        if value < 0 {
            -2 * value - 1
        } else {
            2 * (value - self.max_value())
        }
    }

    /// The symbol at a distance, the inverse of `distance` up to the offset.
    pub open spec fn value_at(self, distance: int) -> int {
        if distance % 2 == 1 {
            -(distance / 2) - 1
        } else {
            distance / 2 + self.max_value()
        }
    }

    /// The difference of the entries `slot` and `slot + 1`.
    pub open spec fn width(self, slot: int) -> int {
        self.cdf[slot + 1] - self.cdf[slot]
    }

    /// Whether `symbol` can be coded: its slot exists and is not empty as a sixteen-bit
    /// number, no difference leaves the 32-bit range, and the distance of an escaping
    /// symbol has at most 28 bits.
    pub open spec fn encodable(self, symbol: i32) -> bool {
        let slot = self.slot(symbol);
        &&& i32::MIN <= symbol - self.offset <= i32::MAX
        &&& 2 <= self.length
        &&& slot + 1 < self.cdf.len()
        &&& i32::MIN <= self.width(slot) <= i32::MAX
        &&& self.width(slot) as u16 != 0
        &&& self.escapes(symbol) ==> self.distance(symbol) < 0x1000_0000
    }

    /// The steps that code `symbol`.
    pub open spec fn steps(self, symbol: i32) -> Seq<RansSymbol> {
        let slot = self.slot(symbol);
        let first = RansSymbol {
            start: self.cdf[slot] as u16,
            range: self.width(slot) as u16,
            bypass: false,
        };
        if self.escapes(symbol) {
            let distance = self.distance(symbol);
            seq![first, bits(nibble_count(distance))] + nibble_steps(distance)
        } else {
            seq![first]
        }
    }
}

/// The bypass step that carries `value`.
pub open spec fn bits(value: int) -> RansSymbol {
    RansSymbol { start: value as u16, range: (value + 1) as u16, bypass: true }
}

/// The number of hexadecimal digits of `n`, none for zero.
pub open spec fn nibble_count(n: int) -> int
    decreases n,
{
    if n <= 0 {
        0
    } else {
        1 + nibble_count(n / 16)
    }
}

/// The hexadecimal digits of `n`, the least significant one first.
pub open spec fn nibble_steps(n: int) -> Seq<RansSymbol>
    decreases n,
{
    if n <= 0 {
        Seq::empty()
    } else {
        seq![bits(n % 16)] + nibble_steps(n / 16)
    }
}

/// Whether every symbol has a table by which it can be coded.
pub open spec fn encodable(symbols: Seq<i32>, indexes: Seq<i32>, t: Tables) -> bool {
    &&& symbols.len() <= indexes.len()
    &&& forall|i: int|
        0 <= i < symbols.len() ==> t.has(#[trigger] indexes[i]) && t.row(indexes[i]).encodable(
            symbols[i],
        )
}

/// The steps that code the symbols from position `k` on.
pub open spec fn steps_from(symbols: Seq<i32>, indexes: Seq<i32>, t: Tables, k: int) -> Seq<
    RansSymbol,
>
    decreases symbols.len() - k,
{
    if k >= symbols.len() {
        Seq::empty()
    } else {
        t.row(indexes[k]).steps(symbols[k]) + steps_from(symbols, indexes, t, k + 1)
    }
}

/// The bytes that code `symbols`.
pub open spec fn encoding(symbols: Seq<i32>, indexes: Seq<i32>, t: Tables) -> Seq<u8> {
    bytes_of(flushed(stream_of(steps_from(symbols, indexes, t, 0))))
}

/// Whether exactly the first `k` of the first `length` entries are at most `cum`.
pub open spec fn splits(cdf: Seq<i32>, length: int, cum: int, k: int) -> bool {
    &&& 0 <= k <= length
    &&& forall|i: int| 0 <= i < k ==> #[trigger] cdf[i] <= cum
    &&& forall|i: int| k <= i < length ==> #[trigger] cdf[i] > cum
}

/// Whether the entries at most `cum` come before the others.
pub open spec fn partitioned(cdf: Seq<i32>, length: int, cum: int) -> bool {
    exists|k: int| splits(cdf, length, cum, k)
}

/// The number of entries at most `cum`.
pub open spec fn rank(cdf: Seq<i32>, length: int, cum: int) -> int {
    choose|k: int| splits(cdf, length, cum, k)
}

/// There is one place at which entries are split.
pub proof fn lemma_rank(cdf: Seq<i32>, length: int, cum: int, k: int)
    requires
        splits(cdf, length, cum, k),
    ensures
        partitioned(cdf, length, cum),
        rank(cdf, length, cum) == k,
{
    let r = rank(cdf, length, cum);
    assert(splits(cdf, length, cum, r));
    if r < k {
        assert(cdf[r] <= cum);
    } else if k < r {
        assert(cdf[k] <= cum);
    }
}

/// Reads a number of `n` hexadecimal digits, the least significant one first.
pub open spec fn number_read(s: Stream, n: int) -> Option<(int, Stream)>
    decreases n,
{
    if n <= 0 {
        Some((0, s))
    } else {
        match without_bits(s) {
            None => None,
            Some(t) => match number_read(t, n - 1) {
                None => None,
                Some((high, u)) => Some((s.x % 16 + 16 * high, u)),
            },
        }
    }
}

/// Reads a distance: the number of its digits, then the digits. A distance has 32 bits, so
/// there is none where more than eight digits are announced.
pub open spec fn distance_read(s: Stream) -> Option<(int, Stream)> {
    match without_bits(s) {
        None => None,
        Some(t) => if s.x % 16 > 8 {
            None
        } else {
            number_read(t, s.x % 16)
        },
    }
}

/// Reads one symbol. There is none where the table has fewer entries than it says, is
/// not ordered around the frequency that the state points at, or has no slot there;
/// where the stream ends too early; and where a number leaves its range.
pub open spec fn symbol_read(s: Stream, row: Row) -> Option<(i32, Stream)> {
    let cum = s.x % 0x1_0000;
    let slot = rank(row.cdf, row.length as int, cum) - 1;
    if !(0 <= row.length <= row.cdf.len()) || !partitioned(row.cdf, row.length as int, cum) {
        None
    } else if slot < 0 || slot + 1 >= row.cdf.len() || !(i32::MIN <= row.width(slot) <= i32::MAX) {
        None
    } else {
        match without_slot(s, row.cdf[slot] as u64, row.width(slot) as u64) {
            None => None,
            Some(t) => if slot == row.max_value() {
                match distance_read(t) {
                    None => None,
                    Some((distance, u)) => shifted(row.value_at(distance), row.offset, u),
                }
            } else {
                shifted(slot, row.offset, t)
            },
        }
    }
}

/// The symbol `value + offset`, where both numbers are in the 32-bit range.
pub open spec fn shifted(value: int, offset: i32, s: Stream) -> Option<(i32, Stream)> {
    if i32::MIN <= value <= i32::MAX && i32::MIN <= value + offset <= i32::MAX {
        Some(((value + offset) as i32, s))
    } else {
        None
    }
}

/// The symbols that the first `k` indexes read, and the stream after them.
pub open spec fn symbols_read(s: Stream, indexes: Seq<i32>, t: Tables, k: int) -> Option<
    (Seq<i32>, Stream),
>
    decreases k,
{
    if k <= 0 {
        Some((Seq::empty(), s))
    } else {
        match symbols_read(s, indexes, t, k - 1) {
            None => None,
            Some((read, u)) => if !t.has(indexes[k - 1]) {
                None
            } else {
                match symbol_read(u, t.row(indexes[k - 1])) {
                    None => None,
                    Some((symbol, v)) => Some((read.push(symbol), v)),
                }
            },
        }
    }
}

/// The symbols that `encoded` holds, one for each index.
pub open spec fn decoding(encoded: Seq<u8>, indexes: Seq<i32>, t: Tables) -> Option<Seq<i32>> {
    match opened(words_of(encoded)) {
        None => None,
        Some(s) => match symbols_read(s, indexes, t, indexes.len() as int) {
            None => None,
            Some((read, _)) => Some(read),
        },
    }
}

/// A number of 28 bits has at most seven hexadecimal digits.
pub proof fn lemma_nibble_count(n: int)
    requires
        n < 0x1000_0000,
    ensures
        0 <= nibble_count(n) <= 7,
{
    reveal_with_fuel(nibble_count, 8);
}

/// Appends the steps that code `symbol`, or leaves `steps` alone where it cannot be coded.
fn push_steps(
    steps: &mut Vec<RansSymbol>,
    symbol: i32,
    cdf: &Vec<i32>,
    length: i32,
    offset: i32,
) -> (done: bool)
    ensures
        done <==> (Row { cdf: cdf@, length, offset }).encodable(symbol),
        done ==> final(steps)@ == old(steps)@ + (Row { cdf: cdf@, length, offset }).steps(symbol),
        !done ==> final(steps)@ == old(steps)@,
{
    let ghost row = Row { cdf: cdf@, length, offset };
    if length < 2 {
        return false;
    }
    let max_value: i32 = length - 2;
    let value: i32 = match symbol.checked_sub(offset) {
        None => {
            return false;
        },
        Some(value) => value,
    };
    let escapes: bool = value < 0 || value >= max_value;
    let mut distance: u32 = 0;
    let mut slot: usize = max_value as usize;
    if value < 0 {
        if value < -0x0800_0000 {
            return false;
        }
        distance = (-2 * value - 1) as u32;
    } else if value >= max_value {
        if value - max_value >= 0x0800_0000 {
            return false;
        }
        distance = (2 * (value - max_value)) as u32;
    } else {
        slot = value as usize;
    }
    if slot >= cdf.len() || slot + 1 >= cdf.len() {
        return false;
    }
    let width: i32 = match cdf[slot + 1].checked_sub(cdf[slot]) {
        None => {
            return false;
        },
        Some(width) => width,
    };
    let range: u16 = width as u16;
    if range == 0 {
        return false;
    }
    let ghost before = steps@;
    let first = RansSymbol { start: cdf[slot] as u16, range, bypass: false };
    steps.push(first);
    if escapes {
        let mut count: u32 = 0;
        let mut rest: u32 = distance;
        while rest != 0
            invariant
                count + nibble_count(rest as int) == nibble_count(distance as int),
                rest <= distance < 0x1000_0000,
            decreases rest,
        {
            proof {
                lemma_nibble_count(distance as int);
                lemma_nibble_count(rest as int / 16);
            }
            rest = rest / 16;
            count = count + 1;
        }
        proof {
            lemma_nibble_count(distance as int);
        }
        steps.push(RansSymbol { start: count as u16, range: (count + 1) as u16, bypass: true });
        rest = distance;
        assert(steps@ =~= before + seq![first, bits(nibble_count(distance as int))]);
        while rest != 0
            invariant
                rest <= distance < 0x1000_0000,
                steps@ + nibble_steps(rest as int) == before + (seq![
                    first,
                    bits(nibble_count(distance as int)),
                ] + nibble_steps(distance as int)),
            decreases rest,
        {
            let ghost taken = steps@;
            let bits: u32 = rest % 16;
            steps.push(RansSymbol { start: bits as u16, range: (bits + 1) as u16, bypass: true });
            assert(steps@ + nibble_steps(rest as int / 16) =~= taken + nibble_steps(rest as int));
            rest = rest / 16;
        }
        assert(steps@ + nibble_steps(0) =~= steps@);
    }
    assert(steps@ =~= before + row.steps(symbol));
    true
}

/// The steps that code a symbol can be absorbed.
proof fn lemma_steps_valid(row: Row, symbol: i32)
    requires
        row.encodable(symbol),
    ensures
        forall|i: int|
            0 <= i < row.steps(symbol).len() ==> (#[trigger] row.steps(symbol)[i]).valid(),
{
    let distance = row.distance(symbol);
    if row.escapes(symbol) {
        lemma_nibble_count(distance);
        lemma_nibble_steps_valid(distance);
    }
}

proof fn lemma_nibble_steps_valid(n: int)
    ensures
        forall|i: int| 0 <= i < nibble_steps(n).len() ==> (#[trigger] nibble_steps(n)[i]).valid(),
    decreases n,
{
    if n > 0 {
        lemma_nibble_steps_valid(n / 16);
        assert forall|i: int| 0 <= i < nibble_steps(n).len() implies (#[trigger] nibble_steps(
            n,
        )[i]).valid() by {
            if i > 0 {
                assert(nibble_steps(n)[i] == nibble_steps(n / 16)[i - 1]);
            }
        }
    }
}

/// The steps that code `symbols`; none where a symbol cannot be coded.
fn collect_steps(
    symbols: &[i32],
    indexes: &[i32],
    cdfs: &[Vec<i32>],
    cdf_lengths: &[i32],
    offsets: &[i32],
) -> (steps: Option<Vec<RansSymbol>>)
    ensures
        steps is Some <==> encodable(
            symbols@,
            indexes@,
            tables(cdfs@, cdf_lengths@, offsets@),
        ),
        steps matches Some(v) ==> {
            &&& v@ == steps_from(symbols@, indexes@, tables(cdfs@, cdf_lengths@, offsets@), 0)
            &&& forall|i: int| 0 <= i < v@.len() ==> (#[trigger] v@[i]).valid()
        },
{
    let ghost t = tables(cdfs@, cdf_lengths@, offsets@);
    if symbols.len() > indexes.len() {
        return None;
    }
    let mut steps: Vec<RansSymbol> = Vec::with_capacity(symbols.len());
    let ghost all = steps_from(symbols@, indexes@, t, 0);
    assert(steps@ + all =~= all);
    let mut i: usize = 0;
    while i < symbols.len()
        invariant
            i <= symbols@.len() <= indexes@.len(),
            t == tables(cdfs@, cdf_lengths@, offsets@),
            forall|j: int|
                0 <= j < i ==> t.has(#[trigger] indexes@[j]) && t.row(indexes@[j]).encodable(
                    symbols@[j],
                ),
            forall|j: int| 0 <= j < steps@.len() ==> (#[trigger] steps@[j]).valid(),
            steps@ + steps_from(symbols@, indexes@, t, i as int) == all,
        decreases symbols@.len() - i,
    {
        let index: i32 = indexes[i];
        if index < 0 || index as usize >= cdfs.len() || index as usize >= cdf_lengths.len()
            || index as usize >= offsets.len() {
            assert(!t.has(indexes@[i as int]));
            return None;
        }
        let r: usize = index as usize;
        let ghost row = t.row(index);
        let ghost before = steps@;
        if !push_steps(&mut steps, symbols[i], &cdfs[r], cdf_lengths[r], offsets[r]) {
            assert(!t.row(indexes@[i as int]).encodable(symbols@[i as int]));
            return None;
        }
        proof {
            lemma_steps_valid(row, symbols@[i as int]);
            let rest = steps_from(symbols@, indexes@, t, i + 1);
            assert(steps@ == before + row.steps(symbols@[i as int]));
            assert(steps@ + rest =~= before + (row.steps(symbols@[i as int]) + rest));
        }
        i = i + 1;
    }
    assert(steps@ + steps_from(symbols@, indexes@, t, i as int) =~= steps@);
    Some(steps)
}

/// Codes `symbols`, each by the table that the index at its position names.
pub fn encode_with_indexes(
    symbols: &[i32],
    indexes: &[i32],
    cdfs: &[Vec<i32>],
    cdf_lengths: &[i32],
    offsets: &[i32],
) -> (encoded: Vec<u8>)
    requires
        encodable(symbols@, indexes@, tables(cdfs@, cdf_lengths@, offsets@)),
    ensures
        encoded@ == encoding(symbols@, indexes@, tables(cdfs@, cdf_lengths@, offsets@)),
{
    match collect_steps(symbols, indexes, cdfs, cdf_lengths, offsets) {
        Some(steps) => write_stream(&steps),
        // Excluded by the precondition.
        None => Vec::new(),
    }
}

/// Codes `symbols` as `encode_with_indexes` does, or returns `None` where a symbol cannot
/// be coded.
pub fn checked_encode_with_indexes(
    symbols: &[i32],
    indexes: &[i32],
    cdfs: &[Vec<i32>],
    cdf_lengths: &[i32],
    offsets: &[i32],
) -> (encoded: Option<Vec<u8>>)
    ensures
        encoded is Some <==> encodable(
            symbols@,
            indexes@,
            tables(cdfs@, cdf_lengths@, offsets@),
        ),
        encoded matches Some(bytes) ==> bytes@ == encoding(
            symbols@,
            indexes@,
            tables(cdfs@, cdf_lengths@, offsets@),
        ),
{
    match collect_steps(symbols, indexes, cdfs, cdf_lengths, offsets) {
        Some(steps) => Some(write_stream(&steps)),
        None => None,
    }
}

/// Finds the number of entries at most `cum` among the first `length`.
fn find_rank(cdf: &Vec<i32>, length: usize, cum: i32) -> (k: usize)
    requires
        length <= cdf@.len(),
        partitioned(cdf@, length as int, cum as int),
    ensures
        k == rank(cdf@, length as int, cum as int),
        splits(cdf@, length as int, cum as int, k as int),
{
    let ghost target = rank(cdf@, length as int, cum as int);
    let mut low: usize = 0;
    let mut high: usize = length;
    while low < high
        invariant
            low <= target <= high <= length <= cdf@.len(),
            splits(cdf@, length as int, cum as int, target),
        decreases high - low,
    {
        let mid: usize = low + (high - low) / 2;
        if cdf[mid] <= cum {
            low = mid + 1;
        } else {
            high = mid;
        }
    }
    low
}

/// Finds the number of entries at most `cum` among the first `length`, or finds that these
/// do not come before the others.
fn scan_rank(cdf: &Vec<i32>, length: usize, cum: i32) -> (found: Option<usize>)
    requires
        length <= cdf@.len(),
    ensures
        found is Some <==> partitioned(cdf@, length as int, cum as int),
        found matches Some(k) ==> k == rank(cdf@, length as int, cum as int) && splits(
            cdf@,
            length as int,
            cum as int,
            k as int,
        ),
{
    let mut k: usize = 0;
    while k < length && cdf[k] <= cum
        invariant
            k <= length <= cdf@.len(),
            forall|i: int| 0 <= i < k ==> #[trigger] cdf@[i] <= cum,
        ensures
            k <= length,
            forall|i: int| 0 <= i < k ==> #[trigger] cdf@[i] <= cum,
            k < length ==> cdf@[k as int] > cum,
        decreases length - k,
    {
        k = k + 1;
    }
    let mut j: usize = k;
    while j < length
        invariant
            k <= j <= length <= cdf@.len(),
            k < length ==> cdf@[k as int] > cum,
            forall|i: int| k <= i < j ==> #[trigger] cdf@[i] > cum,
        decreases length - j,
    {
        if cdf[j] <= cum {
            proof {
                // An entry above `cum` comes before one that is not.
                assert forall|m: int| !splits(cdf@, length as int, cum as int, m) by {
                    assert(cdf@[k as int] > cum && cdf@[j as int] <= cum);
                }
            }
            return None;
        }
        j = j + 1;
    }
    proof {
        assert(splits(cdf@, length as int, cum as int, k as int));
        lemma_rank(cdf@, length as int, cum as int, k as int);
    }
    Some(k)
}

/// Reads a number of `n` hexadecimal digits.
fn read_number(reader: &mut Reader, n: u32) -> (number: Option<u32>)
    requires
        old(reader).wf(),
        n <= 8,
    ensures
        final(reader).wf(),
        number is Some <==> number_read(old(reader)@, n as int) is Some,
        number matches Some(v) ==> number_read(old(reader)@, n as int) == Some(
            (v as int, final(reader)@),
        ) && v < p16(n as int),
    decreases n,
{
    if n == 0 {
        return Some(0);
    }
    match reader.get_bits() {
        None => None,
        Some(low) => match read_number(reader, n - 1) {
            None => None,
            Some(high) => {
                proof {
                    reveal_with_fuel(p16, 9);
                }
                Some(low + 16 * high)
            },
        },
    }
}

/// Sixteen to the power `k`.
spec fn p16(k: int) -> int
    decreases k,
{
    if k <= 0 {
        1
    } else {
        16 * p16(k - 1)
    }
}

/// Reads one symbol by the given table. Where the table is `suspect`, it is tested whether
/// it is ordered around the frequency that the state points at.
fn read_symbol(
    reader: &mut Reader,
    cdf: &Vec<i32>,
    length: i32,
    offset: i32,
    suspect: bool,
) -> (symbol: Option<i32>)
    requires
        old(reader).wf(),
        !suspect && 0 <= length <= cdf@.len() ==> partitioned(
            cdf@,
            length as int,
            old(reader)@.x % 0x1_0000,
        ),
    ensures
        final(reader).wf(),
        symbol is Some <==> symbol_read(
            old(reader)@,
            Row { cdf: cdf@, length, offset },
        ) is Some,
        symbol matches Some(v) ==> symbol_read(old(reader)@, Row { cdf: cdf@, length, offset })
            == Some((v, final(reader)@)),
{
    if length < 0 || length as usize > cdf.len() {
        return None;
    }
    let cum: i32 = reader.cum_freq();
    let k: usize = if suspect {
        match scan_rank(cdf, length as usize, cum) {
            None => {
                return None;
            },
            Some(k) => k,
        }
    } else {
        find_rank(cdf, length as usize, cum)
    };
    if k == 0 || k >= cdf.len() {
        return None;
    }
    let slot: usize = k - 1;
    let width: i32 = match cdf[k].checked_sub(cdf[slot]) {
        None => {
            return None;
        },
        Some(width) => width,
    };
    if !reader.drop_slot(cdf[slot] as u64, width as u64) {
        return None;
    }
    let value: i32 = if slot as i32 == length - 2 {
        let count: u32 = match reader.get_bits() {
            None => {
                return None;
            },
            Some(count) => count,
        };
        if count > 8 {
            return None;
        }
        let distance: u32 = match read_number(reader, count) {
            None => {
                return None;
            },
            Some(distance) => distance,
        };
        let half: i32 = (distance / 2) as i32;
        if distance % 2 == 1 {
            -half - 1
        } else {
            match half.checked_add(length - 2) {
                None => {
                    return None;
                },
                Some(value) => value,
            }
        }
    } else {
        slot as i32
    };
    value.checked_add(offset)
}

/// Whether the table for position `k`, if the symbols before it can be read, is ordered
/// around the frequency that the state points at.
pub open spec fn lookup_ordered(s: Stream, indexes: Seq<i32>, t: Tables, k: int) -> bool {
    symbols_read(s, indexes, t, k) matches Some((_, u)) ==> t.has(indexes[k]) ==> {
        let row = t.row(indexes[k]);
        0 <= row.length <= row.cdf.len() ==> partitioned(
            row.cdf,
            row.length as int,
            u.x % 0x1_0000,
        )
    }
}

/// Symbols that can all be read can be read up to any position.
proof fn lemma_prefix_read(s: Stream, indexes: Seq<i32>, t: Tables, k: int, n: int)
    requires
        0 <= k <= n,
        symbols_read(s, indexes, t, n) is Some,
    ensures
        symbols_read(s, indexes, t, k) is Some,
    decreases n - k,
{
    if k < n {
        lemma_prefix_read(s, indexes, t, k, n - 1);
    }
}

/// Symbols of which one prefix cannot be read cannot all be read.
proof fn lemma_prefix_unread(s: Stream, indexes: Seq<i32>, t: Tables, k: int, n: int)
    requires
        0 <= k <= n,
        symbols_read(s, indexes, t, k) is None,
    ensures
        symbols_read(s, indexes, t, n) is None,
{
    if symbols_read(s, indexes, t, n) is Some {
        lemma_prefix_read(s, indexes, t, k, n);
    }
}

/// Whether `index` names a table that is marked as suspect. A table beyond the marks is not.
spec fn marked(suspects: Seq<bool>, index: i32) -> bool {
    0 <= index < suspects.len() && suspects[index as int]
}

/// Reads one symbol for each index. At each lookup in a table that `suspects` marks, it is
/// tested whether the table is ordered there.
fn read_symbols(
    encoded: &[u8],
    indexes: &[i32],
    cdfs: &[Vec<i32>],
    cdf_lengths: &[i32],
    offsets: &[i32],
    suspects: &Vec<bool>,
) -> (symbols: Option<Vec<i32>>)
    requires
        opened(words_of(encoded@)) matches Some(s) ==> forall|k: int|
            0 <= k < indexes@.len() && !marked(suspects@, indexes@[k])
                ==> #[trigger] lookup_ordered(
                s,
                indexes@,
                tables(cdfs@, cdf_lengths@, offsets@),
                k,
            ),
    ensures
        symbols is Some <==> decoding(
            encoded@,
            indexes@,
            tables(cdfs@, cdf_lengths@, offsets@),
        ) is Some,
        symbols matches Some(v) ==> decoding(
            encoded@,
            indexes@,
            tables(cdfs@, cdf_lengths@, offsets@),
        ) == Some(v@),
{
    let ghost t = tables(cdfs@, cdf_lengths@, offsets@);
    let mut reader = match Reader::open(read_words(encoded)) {
        None => {
            return None;
        },
        Some(reader) => reader,
    };
    let ghost s = reader@;
    let ghost n = indexes@.len() as int;
    let mut symbols: Vec<i32> = Vec::with_capacity(indexes.len());
    let mut i: usize = 0;
    while i < indexes.len()
        invariant
            i <= indexes@.len(),
            n == indexes@.len(),
            reader.wf(),
            t == tables(cdfs@, cdf_lengths@, offsets@),
            opened(words_of(encoded@)) == Some(s),
            forall|k: int|
                0 <= k < n && !marked(suspects@, indexes@[k]) ==> #[trigger] lookup_ordered(
                    s,
                    indexes@,
                    t,
                    k,
                ),
            symbols_read(s, indexes@, t, i as int) == Some((symbols@, reader@)),
        decreases n - i,
    {
        let index: i32 = indexes[i];
        if index < 0 || index as usize >= cdfs.len() || index as usize >= cdf_lengths.len()
            || index as usize >= offsets.len() {
            proof {
                assert(!t.has(index));
                lemma_prefix_unread(s, indexes@, t, i + 1, n);
            }
            return None;
        }
        let r: usize = index as usize;
        let suspect: bool = r < suspects.len() && suspects[r];
        assert(!suspect ==> lookup_ordered(s, indexes@, t, i as int));
        match read_symbol(&mut reader, &cdfs[r], cdf_lengths[r], offsets[r], suspect) {
            None => {
                proof {
                    lemma_prefix_unread(s, indexes@, t, i + 1, n);
                }
                return None;
            },
            Some(symbol) => {
                symbols.push(symbol);
            },
        }
        i = i + 1;
    }
    Some(symbols)
}

/// Decodes the symbols that `encoded` holds, one for each index. The indexes and the
/// tables are those by which the symbols were coded.
pub fn decode_with_indexes(
    encoded: &[u8],
    indexes: &[i32],
    cdfs: &[Vec<i32>],
    cdf_lengths: &[i32],
    offsets: &[i32],
) -> (symbols: Vec<i32>)
    requires
        decoding(encoded@, indexes@, tables(cdfs@, cdf_lengths@, offsets@)) is Some,
    ensures
        decoding(encoded@, indexes@, tables(cdfs@, cdf_lengths@, offsets@)) == Some(symbols@),
{
    proof {
        let t = tables(cdfs@, cdf_lengths@, offsets@);
        let n = indexes@.len() as int;
        let s = opened(words_of(encoded@))->Some_0;
        assert forall|k: int| 0 <= k < n implies #[trigger] lookup_ordered(s, indexes@, t, k) by {
            lemma_prefix_read(s, indexes@, t, k + 1, n);
        }
    }
    let suspects: Vec<bool> = Vec::new();
    match read_symbols(encoded, indexes, cdfs, cdf_lengths, offsets, &suspects) {
        Some(symbols) => symbols,
        // Excluded by the precondition.
        None => Vec::new(),
    }
}

/// Whether the first `length` entries, as far as there are so many, do not decrease.
pub open spec fn ordered(cdf: Seq<i32>, length: int) -> bool {
    forall|i: int, j: int|
        0 <= i <= j < length && j < cdf.len() ==> #[trigger] cdf[i] <= #[trigger] cdf[j]
}

impl Row {
    /// Whether the entries in use do not decrease.
    pub open spec fn ordered(self) -> bool {
        ordered(self.cdf, self.length as int)
    }
}

/// Entries that do not decrease are ordered around any frequency.
pub proof fn lemma_ordered_partitioned(cdf: Seq<i32>, length: int, cum: int)
    requires
        0 <= length <= cdf.len(),
        ordered(cdf, length),
    ensures
        partitioned(cdf, length, cum),
    decreases length,
{
    if length == 0 {
        assert(splits(cdf, length, cum, 0));
    } else if cdf[length - 1] <= cum {
        assert(splits(cdf, length, cum, length));
    } else {
        lemma_ordered_partitioned(cdf, length - 1, cum);
        let k = rank(cdf, length - 1, cum);
        assert(splits(cdf, length, cum, k));
    }
}

/// Tests whether the entries in use do not decrease.
fn is_ordered(cdf: &Vec<i32>, length: i32) -> (result: bool)
    ensures
        result == ordered(cdf@, length as int),
{
    let used: usize = if length < 0 {
        0
    } else if (length as usize) < cdf.len() {
        length as usize
    } else {
        cdf.len()
    };
    let mut i: usize = 1;
    while i < used
        invariant
            1 <= i,
            used <= length || used == 0,
            used <= cdf@.len(),
            ordered(cdf@, i as int),
        decreases used - i,
    {
        if cdf[i - 1] > cdf[i] {
            assert(cdf@[i - 1] > cdf@[i as int]);
            return false;
        }
        i = i + 1;
    }
    true
}

/// Decodes as `decode_with_indexes` does, or returns `None` where `encoded` does not hold a
/// symbol for each index.
pub fn checked_decode_with_indexes(
    encoded: &[u8],
    indexes: &[i32],
    cdfs: &[Vec<i32>],
    cdf_lengths: &[i32],
    offsets: &[i32],
) -> (symbols: Option<Vec<i32>>)
    ensures
        symbols is Some <==> decoding(
            encoded@,
            indexes@,
            tables(cdfs@, cdf_lengths@, offsets@),
        ) is Some,
        symbols matches Some(v) ==> decoding(
            encoded@,
            indexes@,
            tables(cdfs@, cdf_lengths@, offsets@),
        ) == Some(v@),
{
    let ghost t = tables(cdfs@, cdf_lengths@, offsets@);
    let mut suspects: Vec<bool> = Vec::new();
    let mut r: usize = 0;
    while r < cdfs.len() && r < cdf_lengths.len() && r < offsets.len()
        invariant
            r == suspects@.len(),
            r <= cdfs@.len() && r <= cdf_lengths@.len() && r <= offsets@.len(),
            t == tables(cdfs@, cdf_lengths@, offsets@),
            forall|k: i32| 0 <= k < r ==> suspects@[k as int] == !(#[trigger] t.row(k)).ordered(),
        decreases cdfs@.len() - r,
    {
        suspects.push(!is_ordered(&cdfs[r], cdf_lengths[r]));
        r = r + 1;
    }
    proof {
        if opened(words_of(encoded@)) is Some {
            let s = opened(words_of(encoded@))->Some_0;
            assert forall|k: int|
                0 <= k < indexes@.len() && !marked(
                    suspects@,
                    indexes@[k],
                ) implies #[trigger] lookup_ordered(s, indexes@, t, k) by {
                if symbols_read(s, indexes@, t, k) is Some && t.has(indexes@[k]) {
                    let u = symbols_read(s, indexes@, t, k)->Some_0.1;
                    let row = t.row(indexes@[k]);
                    if 0 <= row.length <= row.cdf.len() {
                        lemma_ordered_partitioned(row.cdf, row.length as int, u.x % 0x1_0000);
                    }
                }
            }
        }
    }
    read_symbols(encoded, indexes, cdfs, cdf_lengths, offsets, &suspects)
}

} // verus!
