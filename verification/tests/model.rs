use kompressor::bytes::{i32_le_bytes, read_word, read_words};
use kompressor::coder::encode_with_indexes;
use kompressor::compare::{check_case, check_data, DataFault};
use kompressor::records::{
    find_differences, parse_cases, parse_data, read_bytes, read_i32_vec, read_string, Case, Data,
};
use kompressor::tables::{check_rectangular, CodecTables, EncodeError, TableError};

fn list(values: &[i32]) -> Vec<u8> {
    let mut out = (values.len() as u32).to_le_bytes().to_vec();
    for v in values {
        out.extend_from_slice(&v.to_le_bytes());
    }
    out
}

fn counted(bytes: &[u8]) -> Vec<u8> {
    let mut out = (bytes.len() as u32).to_le_bytes().to_vec();
    out.extend_from_slice(bytes);
    out
}

fn data() -> Data {
    let symbols = vec![0, 2, -9, 1, 1000];
    let indexes = vec![0, 0, 0, 0, 0];
    let cdfs = vec![vec![0, 20000, 50000, 65536]];
    let cdf_lengths = vec![4];
    let offsets = vec![0];
    let ref_bytes = encode_with_indexes(&symbols, &indexes, &cdfs, &cdf_lengths, &offsets);
    Data { symbols, indexes, cdfs, cdf_lengths, offsets, ref_bytes }
}

fn case() -> Case {
    let data = data();
    let ref_symbols = data.symbols.clone();
    Case { name: String::from("plain"), data, ref_symbols }
}

fn data_file(d: &Data) -> Vec<u8> {
    let mut out = list(&d.symbols);
    out.extend(list(&d.indexes));
    out.extend_from_slice(&(d.cdfs.len() as u32).to_le_bytes());
    for row in &d.cdfs {
        out.extend(list(row));
    }
    out.extend(list(&d.cdf_lengths));
    out.extend(list(&d.offsets));
    out.extend(counted(&d.ref_bytes));
    out
}

#[test]
fn words_are_little_endian() {
    assert_eq!(read_word(&[9, 1, 2, 3, 4], 1), 0x04030201);
    assert_eq!(read_words(&[1, 0, 0, 0, 0, 0, 0, 255, 7]), [1, 0xff000000]);
    assert_eq!(i32_le_bytes(&[1, -2]), [1, 0, 0, 0, 254, 255, 255, 255]);
    assert_eq!(i32_le_bytes(&[]), []);
}

#[test]
fn signed_numbers_are_read_back() {
    let values = [0, 1, -1, i32::MIN, i32::MAX, 123456789];
    let mut buf = (values.len() as u32).to_le_bytes().to_vec();
    buf.extend(i32_le_bytes(&values));
    let mut pos = 0;
    assert_eq!(read_i32_vec(&buf, &mut pos), Some(values.to_vec()));
    assert_eq!(pos, buf.len());
}

#[test]
fn lists_that_end_early_are_refused() {
    let buf = list(&[5, -6]);
    for end in 0..buf.len() {
        let mut pos = 0;
        assert_eq!(read_i32_vec(&buf[..end], &mut pos), None);
        assert_eq!(pos, 0);
    }
    let mut pos = 99;
    assert_eq!(read_i32_vec(&buf, &mut pos), None);
    let mut pos = 0;
    assert_eq!(read_i32_vec(&[255; 40], &mut pos), None);
}

#[test]
fn bytes_and_texts_are_read() {
    let mut buf = vec![0];
    buf.extend(counted("naïve ✓".as_bytes()));
    buf.push(0);
    let mut pos = 1;
    assert_eq!(read_string(&buf, &mut pos), Some(String::from("naïve ✓")));
    assert_eq!(pos, buf.len() - 1);
    let mut pos = 1;
    assert_eq!(read_bytes(&buf, &mut pos), Some("naïve ✓".as_bytes().to_vec()));
    assert_eq!(pos, buf.len() - 1);
}

#[test]
fn texts_that_are_not_utf8_are_refused() {
    for bytes in [&[0xffu8][..], &[0xc0, 0x80], &[0xed, 0xa0, 0x80], &[0xe2, 0x9c]] {
        let buf = counted(bytes);
        let mut pos = 0;
        assert_eq!(read_string(&buf, &mut pos), None);
        assert_eq!(pos, 0);
    }
    let mut pos = 0;
    assert_eq!(read_string(&[2, 0, 0, 0, 65], &mut pos), None);
    assert_eq!(read_bytes(&[2, 0, 0, 0, 65], &mut pos), None);
}

#[test]
fn recordings_are_parsed() {
    let d = data();
    let mut file = data_file(&d);
    for end in 0..file.len() {
        assert!(parse_data(&file[..end]).is_none());
    }
    file.push(1);
    let parsed = parse_data(&file).unwrap();
    assert_eq!(parsed.symbols, d.symbols);
    assert_eq!(parsed.indexes, d.indexes);
    assert_eq!(parsed.cdfs, d.cdfs);
    assert_eq!(parsed.cdf_lengths, d.cdf_lengths);
    assert_eq!(parsed.offsets, d.offsets);
    assert_eq!(parsed.ref_bytes, d.ref_bytes);
}

#[test]
fn test_cases_are_parsed() {
    let d = data();
    let mut file = vec![2, 0, 0, 0];
    for name in ["first", "second"] {
        file.extend(counted(name.as_bytes()));
        file.extend(data_file(&d));
        file.extend(list(&[7, 8]));
    }
    let cases = parse_cases(&file).unwrap();
    assert_eq!(cases.len(), 2);
    assert_eq!(cases[1].name, "second");
    assert_eq!(cases[1].data.ref_bytes, d.ref_bytes);
    assert_eq!(cases[0].ref_symbols, [7, 8]);
    assert!(parse_cases(&file[..file.len() - 1]).is_none());
    assert!(parse_cases(&[0, 0]).is_none());
    assert_eq!(parse_cases(&[0, 0, 0, 0]).unwrap().len(), 0);
}

#[test]
fn recordings_are_checked() {
    assert_eq!(check_data(&data()), Ok(()));

    let mut d = data();
    d.symbols[0] = 1 << 30;
    assert_eq!(check_data(&d), Err(DataFault::NotEncodable));

    let mut d = data();
    d.ref_bytes[0] ^= 1;
    assert_eq!(check_data(&d), Err(DataFault::BytesDiffer));

    // The surplus index reads a symbol that was never coded.
    let mut d = data();
    d.indexes.push(3);
    assert_eq!(check_data(&d), Err(DataFault::NotDecodable));
    let mut d = data();
    d.symbols.clear();
    d.indexes = vec![0];
    d.ref_bytes =
        encode_with_indexes(&d.symbols, &d.indexes, &d.cdfs, &d.cdf_lengths, &d.offsets);
    d.cdfs = vec![vec![0, 65536]];
    d.cdf_lengths = vec![1];
    assert_eq!(check_data(&d), Err(DataFault::SymbolsDiffer));
}

#[test]
fn recordings_need_order_only_around_the_slots_in_use() {
    let d = Data {
        symbols: vec![0],
        indexes: vec![0],
        cdfs: vec![vec![0, 1, 65536, 65535]],
        cdf_lengths: vec![4],
        offsets: vec![0],
        ref_bytes: vec![0, 0, 0, 0, 0, 128, 0, 0],
    };
    assert_eq!(check_data(&d), Ok(()));
    let c = Case { name: String::from("mixed"), data: d, ref_symbols: vec![0] };
    assert!(check_case(&c).unwrap().passed());

    let tables = CodecTables::new(&[0, 1, 65536, 65535], 4, vec![4], vec![0]).ok().unwrap();
    assert_eq!(tables.checked_decode(&[0, 0, 0, 0, 0, 128, 0, 0], &[0]), Some(vec![0; 4]));
}

#[test]
fn cases_are_checked() {
    let report = check_case(&case()).unwrap();
    assert!(report.passed());
    assert!(report.mismatches.is_empty());
    assert_eq!(report.encoded_len, case().data.ref_bytes.len());

    // Other symbols than those that were coded.
    let mut c = case();
    c.data.symbols[1] = 1;
    c.data.symbols[4] = 999;
    let report = check_case(&c).unwrap();
    assert!(!report.passed());
    assert!(!report.decodes_reference);
    assert!(report.agrees_with_reference);
    assert!(!report.encodes_identically);
    assert!(report.round_trips);
    assert_eq!(report.mismatches, [(1, 2, 1), (4, 1000, 999)]);

    let mut c = case();
    c.ref_symbols.push(0);
    let report = check_case(&c).unwrap();
    assert!(report.decodes_reference && !report.agrees_with_reference && !report.passed());
}

#[test]
fn cases_that_cannot_be_run_are_refused() {
    let mut c = case();
    c.data.ref_bytes.clear();
    assert!(check_case(&c).is_none());
    let mut c = case();
    c.data.symbols[0] = i32::MAX;
    assert!(check_case(&c).is_none());
}

#[test]
fn differences_are_listed_up_to_a_limit() {
    let a = [1, 2, 3, 4, 5];
    let b = [0, 2, 0, 0, 5, 9];
    assert_eq!(find_differences(&a, &b, 5), [(0, 1, 0), (2, 3, 0), (3, 4, 0)]);
    assert_eq!(find_differences(&a, &b, 2), [(0, 1, 0), (2, 3, 0)]);
    assert_eq!(find_differences(&a, &b, 0), []);
    assert_eq!(find_differences(&a, &a, 5), []);
}

#[test]
fn tables_of_a_model() {
    let flat = [0, 20000, 50000, 65536, 0, 1, 65536, 0];
    let tables = CodecTables::new(&flat, 4, vec![4, 3], vec![0, -1]).ok().unwrap();
    let symbols = [0, 1, 2, -1, 50, 1, -1];
    let indexes = [0, 0, 0, 0, 0, 1, 1];
    let encoded = tables.encode(&symbols, &indexes).unwrap();
    assert_eq!(
        encoded,
        encode_with_indexes(
            &symbols,
            &indexes,
            &[flat[..4].to_vec(), flat[4..].to_vec()],
            &[4, 3],
            &[0, -1]
        )
    );
    assert_eq!(tables.checked_encode(&symbols, &indexes), Ok(encoded.clone()));
    assert_eq!(tables.decode(&encoded, &indexes), i32_le_bytes(&symbols));
    assert_eq!(tables.checked_decode(&encoded, &indexes), Some(i32_le_bytes(&symbols)));
    assert_eq!(tables.checked_decode(&encoded[..4], &indexes), None);
}

#[test]
fn unfit_lists_are_no_tables() {
    assert_eq!(check_rectangular(6, 3), Ok(()));
    assert_eq!(
        check_rectangular(6, 4),
        Err(TableError::NotRectangular { len: 6, row_width: 4 })
    );
    assert_eq!(
        CodecTables::new(&[1, 2, 3], 2, vec![], vec![]).err(),
        Some(TableError::NotRectangular { len: 3, row_width: 2 })
    );
    assert_eq!(
        CodecTables::new(&[], 0, vec![], vec![]).err(),
        Some(TableError::NotRectangular { len: 0, row_width: 0 })
    );
    assert_eq!(
        CodecTables::new(&[1, 2], 1, vec![2, 2], vec![0]).err(),
        Some(TableError::RowCount { rows: 2, cdf_lengths: 2, offsets: 1 })
    );
    assert_eq!(
        CodecTables::new(&[1, 2], 2, vec![2, 2], vec![0]).err(),
        Some(TableError::RowCount { rows: 1, cdf_lengths: 2, offsets: 1 })
    );
    assert!(CodecTables::new(&[], 3, vec![], vec![]).is_ok());
}

#[test]
fn unfit_symbols_are_refused_by_tables() {
    let tables = CodecTables::new(&[0, 9, 20], 3, vec![3], vec![0]).ok().unwrap();
    let mismatch = EncodeError::LengthMismatch { symbols: 2, indexes: 1 };
    assert_eq!(tables.encode(&[0, 0], &[0]), Err(mismatch));
    assert_eq!(tables.checked_encode(&[0, 0], &[0]), Err(mismatch));
    assert_eq!(tables.checked_encode(&[0], &[1]), Err(EncodeError::NotEncodable));
}
