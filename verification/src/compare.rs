//! Comparison of this coder with recordings of a reference coder.
use crate::coder::{
    checked_decode_with_indexes, checked_encode_with_indexes, decoding, encodable, encoding,
};
use crate::records::{find_differences, first_differences, Case, Data, NamedRecording, Recording};
use vstd::prelude::*;

verus! {

/// How many differing symbols a report lists.
pub const LISTED: usize = 5;

/// Why a recording is not reproduced.
#[derive(Clone, Copy, Debug, PartialEq, Eq, Structural)]
pub enum DataFault {
    /// A symbol cannot be coded.
    NotEncodable,
    /// The bytes differ from those of the reference coder.
    BytesDiffer,
    /// The bytes cannot be decoded.
    NotDecodable,
    /// The bytes are decoded to other symbols.
    SymbolsDiffer,
}

/// How a test case went.
pub struct CaseReport {
    /// The reference bytes are decoded to the symbols.
    pub decodes_reference: bool,
    /// The reference bytes are decoded as the reference coder decodes them.
    pub agrees_with_reference: bool,
    /// The symbols are coded as the reference bytes.
    pub encodes_identically: bool,
    /// The symbols survive encoding and decoding.
    pub round_trips: bool,
    /// Where `decodes_reference` does not hold: the first places at which the decoded
    /// symbols differ, each with what was decoded there and what was recorded.
    pub mismatches: Vec<(usize, i32, i32)>,
    /// The number of bytes that the symbols are coded as.
    pub encoded_len: usize,
}

impl Recording {
    /// The bytes that the symbols are coded as.
    pub open spec fn encoding(self) -> Seq<u8> {
        encoding(self.symbols, self.indexes, self.tables)
    }

    /// What `bytes` are decoded to.
    pub open spec fn decoding(self, bytes: Seq<u8>) -> Option<Seq<i32>> {
        decoding(bytes, self.indexes, self.tables)
    }

    /// Whether `bytes` can be decoded.
    pub open spec fn decodable(self, bytes: Seq<u8>) -> bool {
        self.decoding(bytes) is Some
    }

    /// Whether the symbols can be coded.
    pub open spec fn encodable(self) -> bool {
        encodable(self.symbols, self.indexes, self.tables)
    }
}

impl NamedRecording {
    /// Whether a test case can be run: its bytes can be decoded, its symbols can be coded,
    /// and what they are coded as can be decoded.
    pub open spec fn runs(self) -> bool {
        &&& self.data.decodable(self.data.ref_bytes)
        &&& self.data.encodable()
        &&& self.data.decodable(self.data.encoding())
    }
}

/// A recording is coded and decoded with its own symbols, indexes and tables, and a test
/// case can be run where its reference bytes, its symbols and what these are coded as all
/// go through.
pub proof fn recording_is_coded_by_its_own_tables(case: NamedRecording, bytes: Seq<u8>)
    ensures
        ({
            let r = case.data;
            let own = encoding(r.symbols, r.indexes, r.tables);
            &&& r.encoding() == own
            &&& r.decoding(bytes) == decoding(bytes, r.indexes, r.tables)
            &&& r.decodable(bytes) <==> decoding(bytes, r.indexes, r.tables) is Some
            &&& r.encodable() <==> encodable(r.symbols, r.indexes, r.tables)
            &&& case.runs() <==> encodable(r.symbols, r.indexes, r.tables) && decoding(
                r.ref_bytes,
                r.indexes,
                r.tables,
            ) is Some && decoding(own, r.indexes, r.tables) is Some
        }),
{
}

/// Tests whether two lists of symbols are the same.
fn same_symbols(a: &Vec<i32>, b: &Vec<i32>) -> (same: bool)
    ensures
        same == (a@ == b@),
{
    let same: bool = *a == *b;
    assert(same ==> a@ =~= b@);
    same
}

/// Tests whether two byte strings are the same.
fn same_bytes(a: &Vec<u8>, b: &Vec<u8>) -> (same: bool)
    ensures
        same == (a@ == b@),
{
    let same: bool = *a == *b;
    assert(same ==> a@ =~= b@);
    same
}

/// Codes the symbols of a recording.
fn encode_data(data: &Data) -> (encoded: Option<Vec<u8>>)
    ensures
        encoded is Some <==> data@.encodable(),
        encoded matches Some(bytes) ==> bytes@ == data@.encoding(),
{
    checked_encode_with_indexes(
        data.symbols.as_slice(),
        data.indexes.as_slice(),
        data.cdfs.as_slice(),
        data.cdf_lengths.as_slice(),
        data.offsets.as_slice(),
    )
}

/// Decodes bytes with the indexes and tables of a recording.
fn decode_data(data: &Data, bytes: &Vec<u8>) -> (symbols: Option<Vec<i32>>)
    ensures
        symbols is Some <==> data@.decodable(bytes@),
        symbols matches Some(v) ==> data@.decoding(bytes@) == Some(v@),
{
    checked_decode_with_indexes(
        bytes.as_slice(),
        data.indexes.as_slice(),
        data.cdfs.as_slice(),
        data.cdf_lengths.as_slice(),
        data.offsets.as_slice(),
    )
}

/// Checks that the symbols of a recording are coded as its bytes and decoded from them.
pub fn check_data(data: &Data) -> (checked: Result<(), DataFault>)
    ensures
        !data@.encodable() ==> checked == Err::<(), DataFault>(DataFault::NotEncodable),
        data@.encodable() && data@.encoding() != data@.ref_bytes ==> checked == Err::<(), DataFault>(
            DataFault::BytesDiffer,
        ),
        data@.encodable() && data@.encoding() == data@.ref_bytes && !data@.decodable(
            data@.ref_bytes,
        ) ==> checked == Err::<(), DataFault>(DataFault::NotDecodable),
        data@.encodable() && data@.encoding() == data@.ref_bytes && data@.decodable(
            data@.ref_bytes,
        ) && data@.decoding(data@.ref_bytes) != Some(data@.symbols) ==> checked == Err::<
            (),
            DataFault,
        >(DataFault::SymbolsDiffer),
        checked is Ok <==> data@.encodable() && data@.encoding() == data@.ref_bytes
            && data@.decodable(data@.ref_bytes) && data@.decoding(data@.ref_bytes) == Some(
            data@.symbols,
        ),
{
    let encoded: Vec<u8> = match encode_data(data) {
        None => {
            return Err(DataFault::NotEncodable);
        },
        Some(encoded) => encoded,
    };
    if !same_bytes(&encoded, &data.ref_bytes) {
        return Err(DataFault::BytesDiffer);
    }
    match decode_data(data, &encoded) {
        None => Err(DataFault::NotDecodable),
        Some(symbols) => if same_symbols(&symbols, &data.symbols) {
            Ok(())
        } else {
            Err(DataFault::SymbolsDiffer)
        },
    }
}

/// Runs a test case, if it can be run.
pub fn check_case(case: &Case) -> (report: Option<CaseReport>)
    ensures
        report is Some <==> case@.runs(),
        report matches Some(r) ==> {
            let data = case@.data;
            let decoded = data.decoding(data.ref_bytes)->Some_0;
            &&& r.decodes_reference == (decoded == data.symbols)
            &&& r.agrees_with_reference == (decoded == case@.ref_symbols)
            &&& r.encodes_identically == (data.encoding() == data.ref_bytes)
            &&& r.round_trips == (data.decoding(data.encoding()) == Some(data.symbols))
            &&& r.encoded_len == data.encoding().len()
            &&& r.decodes_reference ==> r.mismatches@.len() == 0
            &&& !r.decodes_reference ==> r.mismatches@ == first_differences(
                decoded,
                data.symbols,
                LISTED as int,
            )
            &&& !r.decodes_reference ==> r.mismatches@ == first_differences(
                decoded,
                data.symbols,
                5,
            )
        },
{
    let data: &Data = &case.data;
    let decoded: Vec<i32> = match decode_data(data, &data.ref_bytes) {
        None => {
            return None;
        },
        Some(decoded) => decoded,
    };
    let decodes_reference: bool = same_symbols(&decoded, &data.symbols);
    let mismatches: Vec<(usize, i32, i32)> = if decodes_reference {
        Vec::new()
    } else {
        find_differences(decoded.as_slice(), data.symbols.as_slice(), LISTED)
    };
    let agrees_with_reference: bool = same_symbols(&decoded, &case.ref_symbols);
    let encoded: Vec<u8> = match encode_data(data) {
        None => {
            return None;
        },
        Some(encoded) => encoded,
    };
    let encodes_identically: bool = same_bytes(&encoded, &data.ref_bytes);
    let round_trips: bool = match decode_data(data, &encoded) {
        None => {
            return None;
        },
        Some(again) => same_symbols(&again, &data.symbols),
    };
    Some(
        CaseReport {
            decodes_reference,
            agrees_with_reference,
            encodes_identically,
            round_trips,
            mismatches,
            encoded_len: encoded.len(),
        },
    )
}

impl CaseReport {
    /// Whether nothing went wrong.
    pub fn passed(&self) -> (all: bool)
        ensures
            all == (self.decodes_reference && self.agrees_with_reference
                && self.encodes_identically && self.round_trips),
    {
        self.decodes_reference && self.agrees_with_reference && self.encodes_identically
            && self.round_trips
    }
}

} // verus!
