//! The tables of one model, kept for many encodings and decodings.
use crate::bytes::{i32_bytes, i32_le_bytes};
use crate::coder::{
    checked_decode_with_indexes, checked_encode_with_indexes, decode_with_indexes, decoding,
    encodable, encode_with_indexes, encoding, tables, Tables,
};
use vstd::prelude::*;

verus! {

/// Why lists of numbers are no tables.
#[derive(Clone, Copy, Debug, PartialEq, Eq, Structural)]
pub enum TableError {
    /// The entries do not fill rows of the given width.
    NotRectangular { len: usize, row_width: usize },
    /// There is not one length and one offset for each row.
    RowCount { rows: usize, cdf_lengths: usize, offsets: usize },
}

/// Why symbols were not coded.
#[derive(Clone, Copy, Debug, PartialEq, Eq, Structural)]
pub enum EncodeError {
    /// There is not one index for each symbol.
    LengthMismatch { symbols: usize, indexes: usize },
    /// A symbol has no table by which it can be coded.
    NotEncodable,
}

/// Cumulative frequency tables, with the number of entries in use and the offset of each.
pub struct CodecTables {
    cdfs: Vec<Vec<i32>>,
    cdf_lengths: Vec<i32>,
    offsets: Vec<i32>,
}

impl View for CodecTables {
    type V = Tables;

    closed spec fn view(&self) -> Tables {
        tables(self.cdfs@, self.cdf_lengths@, self.offsets@)
    }
}

/// Whether `len` entries fill rows of the width `row_width`.
pub open spec fn rectangular(len: int, row_width: int) -> bool {
    row_width != 0 && len % row_width == 0
}

/// Row `r` of entries in rows of the width `row_width`.
pub open spec fn flat_row(flat: Seq<i32>, row_width: int, r: int) -> Seq<i32> {
    flat.subrange(r * row_width, r * row_width + row_width)
}

/// Entries in rows of the width `row_width`.
pub open spec fn flat_rows(flat: Seq<i32>, row_width: int) -> Seq<Seq<i32>> {
    Seq::new((flat.len() as int / row_width) as nat, |r: int| flat_row(flat, row_width, r))
}

/// A row that lies before the end of the entries lies inside them.
pub proof fn lemma_row_inside(len: int, row_width: int, r: int)
    requires
        0 < row_width,
        0 <= r < len / row_width,
        0 <= len,
    ensures
        0 <= r * row_width,
        r * row_width + row_width <= len,
{
    assert(0 <= r * row_width && r * row_width + row_width <= len) by (nonlinear_arith)
        requires
            0 < row_width,
            0 <= r < len / row_width,
            0 <= len,
    ;
}

/// Checks that `len` entries fill rows of the width `row_width`.
pub fn check_rectangular(len: usize, row_width: usize) -> (checked: Result<(), TableError>)
    ensures
        checked is Ok <==> rectangular(len as int, row_width as int),
        checked is Ok <==> row_width != 0 && len % row_width == 0,
        checked matches Err(e) ==> e == (TableError::NotRectangular { len, row_width }),
{
    if row_width == 0 || len % row_width != 0 {
        Err(TableError::NotRectangular { len, row_width })
    } else {
        Ok(())
    }
}

impl CodecTables {
    /// Every row has a length and an offset.
    pub open spec fn wf(&self) -> bool {
        self@.lengths.len() == self@.cdfs.len() && self@.offsets.len() == self@.cdfs.len()
    }

    /// Makes tables of entries in rows of the width `row_width`.
    pub fn new(cdf_flat: &[i32], row_width: usize, cdf_lengths: Vec<i32>, offsets: Vec<i32>) -> (made:
        Result<CodecTables, TableError>)
        ensures
            !rectangular(cdf_flat@.len() as int, row_width as int) ==> made == Err::<
                CodecTables,
                TableError,
            >(TableError::NotRectangular { len: cdf_flat.len(), row_width }),
            rectangular(cdf_flat@.len() as int, row_width as int) && !(cdf_lengths@.len()
                == offsets@.len() == flat_rows(cdf_flat@, row_width as int).len()) ==> made
                == Err::<CodecTables, TableError>(
                TableError::RowCount {
                    rows: cdf_flat.len() / row_width,
                    cdf_lengths: cdf_lengths.len(),
                    offsets: offsets.len(),
                },
            ),
            made is Ok <==> rectangular(cdf_flat@.len() as int, row_width as int)
                && cdf_lengths@.len() == offsets@.len() == flat_rows(
                cdf_flat@,
                row_width as int,
            ).len(),
            made matches Ok(t) ==> t.wf() && t@ == (Tables {
                cdfs: flat_rows(cdf_flat@, row_width as int),
                lengths: cdf_lengths@,
                offsets: offsets@,
            }),
            made is Ok <==> row_width != 0 && cdf_flat.len() % row_width == 0 && cdf_lengths.len()
                == offsets.len() == cdf_flat.len() / row_width,
            made matches Ok(t) ==> {
                &&& t@.cdfs.len() == cdf_flat.len() / row_width
                &&& t@.lengths == cdf_lengths@
                &&& t@.offsets == offsets@
                &&& forall|r: int|
                    0 <= r < t@.cdfs.len() ==> (#[trigger] t@.cdfs[r]).len() == row_width
                &&& forall|r: int, i: int|
                    0 <= r < t@.cdfs.len() && 0 <= i < row_width ==> #[trigger] t@.cdfs[r][i]
                        == cdf_flat@[r * row_width + i]
            },
    {
        let len: usize = cdf_flat.len();
        match check_rectangular(len, row_width) {
            Ok(()) => {},
            Err(e) => {
                return Err(e);
            },
        }
        let rows: usize = len / row_width;
        if cdf_lengths.len() != rows || offsets.len() != rows {
            return Err(
                TableError::RowCount {
                    rows,
                    cdf_lengths: cdf_lengths.len(),
                    offsets: offsets.len(),
                },
            );
        }
        let mut cdfs: Vec<Vec<i32>> = Vec::with_capacity(rows);
        let mut r: usize = 0;
        while r < rows
            invariant
                r <= rows,
                0 < row_width,
                rows == len as int / row_width as int,
                len == cdf_flat@.len(),
                cdfs@.len() == r,
                forall|k: int|
                    0 <= k < r ==> (#[trigger] cdfs@[k])@ == flat_row(
                        cdf_flat@,
                        row_width as int,
                        k,
                    ),
            decreases rows - r,
        {
            proof {
                lemma_row_inside(len as int, row_width as int, r as int);
            }
            let first: usize = r * row_width;
            let mut row: Vec<i32> = Vec::with_capacity(row_width);
            let mut i: usize = 0;
            while i < row_width
                invariant
                    i <= row_width,
                    first == r * row_width,
                    first + row_width <= len,
                    len == cdf_flat@.len(),
                    row@ =~= flat_row(cdf_flat@, row_width as int, r as int).take(i as int),
                decreases row_width - i,
            {
                row.push(cdf_flat[first + i]);
                i = i + 1;
            }
            assert(row@ =~= flat_row(cdf_flat@, row_width as int, r as int));
            cdfs.push(row);
            r = r + 1;
        }
        let made = CodecTables { cdfs, cdf_lengths, offsets };
        assert(made@.cdfs =~= flat_rows(cdf_flat@, row_width as int));
        proof {
            let w = row_width as int;
            assert forall|r: int| 0 <= r < rows implies (#[trigger] made@.cdfs[r]).len() == w by {
                lemma_row_inside(len as int, w, r);
            }
            assert forall|r: int, i: int| 0 <= r < rows && 0 <= i < w implies #[trigger] made@.cdfs[r][i]
                == cdf_flat@[r * w + i] by {
                lemma_row_inside(len as int, w, r);
            }
        }
        Ok(made)
    }

    /// Codes `symbols`, of which there are as many as indexes.
    pub fn encode(&self, symbols: &[i32], indexes: &[i32]) -> (encoded: Result<
        Vec<u8>,
        EncodeError,
    >)
        requires
            symbols@.len() == indexes@.len() ==> encodable(symbols@, indexes@, self@),
        ensures
            encoded is Ok <==> symbols@.len() == indexes@.len(),
            encoded matches Ok(bytes) ==> bytes@ == encoding(symbols@, indexes@, self@),
            encoded matches Err(e) ==> e == (EncodeError::LengthMismatch {
                symbols: symbols.len(),
                indexes: indexes.len(),
            }),
    {
        if symbols.len() != indexes.len() {
            return Err(
                EncodeError::LengthMismatch { symbols: symbols.len(), indexes: indexes.len() },
            );
        }
        Ok(
            encode_with_indexes(
                symbols,
                indexes,
                self.cdfs.as_slice(),
                self.cdf_lengths.as_slice(),
                self.offsets.as_slice(),
            ),
        )
    }

    /// Codes `symbols` as `encode` does, or tells that one cannot be coded.
    pub fn checked_encode(&self, symbols: &[i32], indexes: &[i32]) -> (encoded: Result<
        Vec<u8>,
        EncodeError,
    >)
        ensures
            encoded is Ok <==> symbols@.len() == indexes@.len() && encodable(
                symbols@,
                indexes@,
                self@,
            ),
            encoded matches Ok(bytes) ==> bytes@ == encoding(symbols@, indexes@, self@),
            symbols@.len() != indexes@.len() ==> encoded == Err::<Vec<u8>, EncodeError>(
                EncodeError::LengthMismatch { symbols: symbols.len(), indexes: indexes.len() },
            ),
            symbols@.len() == indexes@.len() && !encodable(symbols@, indexes@, self@) ==> encoded
                == Err::<Vec<u8>, EncodeError>(EncodeError::NotEncodable),
    {
        if symbols.len() != indexes.len() {
            return Err(
                EncodeError::LengthMismatch { symbols: symbols.len(), indexes: indexes.len() },
            );
        }
        match checked_encode_with_indexes(
            symbols,
            indexes,
            self.cdfs.as_slice(),
            self.cdf_lengths.as_slice(),
            self.offsets.as_slice(),
        ) {
            Some(encoded) => Ok(encoded),
            None => Err(EncodeError::NotEncodable),
        }
    }

    /// Decodes one symbol for each index, and returns the symbols as little-endian bytes.
    pub fn decode(&self, encoded: &[u8], indexes: &[i32]) -> (symbols: Vec<u8>)
        requires
            decoding(encoded@, indexes@, self@) is Some,
        ensures
            symbols@ == i32_bytes(decoding(encoded@, indexes@, self@)->Some_0),
    {
        let symbols: Vec<i32> = decode_with_indexes(
            encoded,
            indexes,
            self.cdfs.as_slice(),
            self.cdf_lengths.as_slice(),
            self.offsets.as_slice(),
        );
        i32_le_bytes(symbols.as_slice())
    }

    /// Decodes as `decode` does, or returns `None` where `encoded` does not hold a symbol for
    /// each index.
    pub fn checked_decode(&self, encoded: &[u8], indexes: &[i32]) -> (symbols: Option<Vec<u8>>)
        ensures
            symbols is Some <==> decoding(encoded@, indexes@, self@) is Some,
            symbols matches Some(bytes) ==> bytes@ == i32_bytes(
                decoding(encoded@, indexes@, self@)->Some_0,
            ),
    {
        match checked_decode_with_indexes(
            encoded,
            indexes,
            self.cdfs.as_slice(),
            self.cdf_lengths.as_slice(),
            self.offsets.as_slice(),
        ) {
            Some(symbols) => Some(i32_le_bytes(symbols.as_slice())),
            None => None,
        }
    }
}

} // verus!
