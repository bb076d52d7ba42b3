use kompressor::chunks::{chunk_bounds, chunk_size};
use kompressor::coder::{
    checked_decode_with_indexes, checked_encode_with_indexes, decode_with_indexes,
    encode_with_indexes,
};
use kompressor::mask::{decode_mask, encode_mask};

/// Two tables: one with three plain slots, and one with two, padded with a zero entry.
fn tables() -> (Vec<Vec<i32>>, Vec<i32>, Vec<i32>) {
    (
        vec![vec![0, 20000, 50000, 60000, 65536], vec![0, 1, 65535, 65536, 0]],
        vec![5, 4],
        vec![-1, 3],
    )
}

fn encode(symbols: &[i32], indexes: &[i32]) -> Vec<u8> {
    let (cdfs, lengths, offsets) = tables();
    encode_with_indexes(symbols, indexes, &cdfs, &lengths, &offsets)
}

fn try_encode(symbols: &[i32], indexes: &[i32]) -> Option<Vec<u8>> {
    let (cdfs, lengths, offsets) = tables();
    checked_encode_with_indexes(symbols, indexes, &cdfs, &lengths, &offsets)
}

fn decode(encoded: &[u8], indexes: &[i32]) -> Vec<i32> {
    let (cdfs, lengths, offsets) = tables();
    decode_with_indexes(encoded, indexes, &cdfs, &lengths, &offsets)
}

fn try_decode(encoded: &[u8], indexes: &[i32]) -> Option<Vec<i32>> {
    let (cdfs, lengths, offsets) = tables();
    checked_decode_with_indexes(encoded, indexes, &cdfs, &lengths, &offsets)
}

/// A reproducible list of symbols, some far outside the slots, and their indexes.
fn sample(n: usize) -> (Vec<i32>, Vec<i32>) {
    let mut state: u64 = 0x9E3779B97F4A7C15;
    let mut symbols = Vec::new();
    let mut indexes = Vec::new();
    for _ in 0..n {
        state ^= state << 13;
        state ^= state >> 7;
        state ^= state << 17;
        let spread = if state % 10 == 0 { 200_000_000 } else { 6 };
        symbols.push(((state >> 8) % spread) as i32 - spread as i32 / 2);
        indexes.push(((state >> 5) % 2) as i32);
    }
    (symbols, indexes)
}

#[test]
fn plain_symbols_have_exact_bytes() {
    assert_eq!(encode(&[-1, 0, 1], &[0, 0, 0]), [224, 17, 207, 116, 23, 0, 0, 0]);
    assert_eq!(encode(&[3], &[1]), [0, 0, 0, 0, 0, 128, 0, 0]);
    assert_eq!(encode(&[4, 4, 4, 4, 4], &[1; 5]), [35, 0, 5, 128, 0, 0, 0, 0]);
}

#[test]
fn escaped_symbols_have_exact_bytes() {
    assert_eq!(
        encode(&[2, -2, 9, -7], &[0, 0, 0, 0]),
        [96, 253, 30, 190, 101, 2, 0, 0, 17, 97, 244, 27]
    );
    assert_eq!(
        encode(
            &[-1, 0, 1, 2, -2, 100000, -100000, 3, 4, 5],
            &[0, 0, 0, 0, 0, 0, 0, 1, 1, 1]
        ),
        [32, 47, 18, 110, 144, 7, 7, 0, 81, 86, 239, 161, 181, 236, 60, 150, 66, 0, 33, 0]
    );
}

#[test]
fn no_symbols_take_eight_bytes() {
    assert_eq!(encode(&[], &[]), [0, 0, 0, 128, 0, 0, 0, 0]);
    assert_eq!(decode(&[0, 0, 0, 128, 0, 0, 0, 0], &[]), Vec::<i32>::new());
}

#[test]
fn greatest_distances_are_coded() {
    let symbols = [-1 - (1 << 27), 2 + (1 << 27) - 1];
    let encoded = encode(&symbols, &[0, 0]);
    assert_eq!(
        encoded,
        [231, 253, 43, 18, 70, 0, 0, 0, 255, 255, 255, 127, 254, 255, 255, 15]
    );
    assert_eq!(decode(&encoded, &[0, 0]), symbols);
}

#[test]
fn greater_distances_are_refused() {
    assert_eq!(try_encode(&[-2 - (1 << 27)], &[0]), None);
    assert_eq!(try_encode(&[2 + (1 << 27)], &[0]), None);
    assert!(try_encode(&[-1 - (1 << 27)], &[0]).is_some());
    assert!(try_encode(&[1 + (1 << 27)], &[0]).is_some());
}

#[test]
fn indexes_outside_the_tables_are_refused() {
    assert_eq!(try_encode(&[0], &[2]), None);
    assert_eq!(try_encode(&[0], &[-1]), None);
    assert_eq!(try_encode(&[0, 0], &[0]), None);
    let encoded = encode(&[0], &[0]);
    assert_eq!(try_decode(&encoded, &[2]), None);
    assert_eq!(try_decode(&encoded, &[-1]), None);
}

#[test]
fn unfit_tables_are_refused_for_encoding() {
    // An empty slot, one of full width, a missing entry, too short a table, an overflow.
    assert_eq!(checked_encode_with_indexes(&[0], &[0], &[vec![0, 0, 9]], &[3], &[0]), None);
    assert_eq!(checked_encode_with_indexes(&[0], &[0], &[vec![0, 65536]], &[2], &[0]), None);
    assert_eq!(checked_encode_with_indexes(&[1], &[0], &[vec![0, 9]], &[3], &[0]), None);
    assert_eq!(checked_encode_with_indexes(&[0], &[0], &[vec![0, 9]], &[1], &[0]), None);
    assert_eq!(
        checked_encode_with_indexes(&[i32::MIN], &[0], &[vec![0, 9, 12]], &[3], &[1]),
        None
    );
    assert_eq!(
        checked_encode_with_indexes(&[0], &[0], &[vec![i32::MIN, i32::MAX, 0]], &[3], &[0]),
        None
    );
    assert!(checked_encode_with_indexes(&[0], &[0], &[vec![0, 9]], &[3], &[0]).is_some());
}

#[test]
fn surplus_indexes_are_not_read_when_encoding() {
    assert_eq!(encode(&[-1, 0, 1], &[0, 0, 0, 77]), encode(&[-1, 0, 1], &[0, 0, 0]));
}

#[test]
fn streams_that_end_early_are_refused() {
    assert_eq!(try_decode(&[], &[]), None);
    assert_eq!(try_decode(&[0, 0, 0, 128, 0, 0, 0], &[]), None);
    let (symbols, indexes) = sample(40);
    let encoded = encode(&symbols, &indexes);
    assert_eq!(try_decode(&encoded, &indexes), Some(symbols));
    assert_eq!(try_decode(&encoded[..encoded.len() - 4], &indexes), None);
}

#[test]
fn counts_above_eight_are_refused() {
    // The slot of the escape, then a count of nine digits.
    let table = [vec![0, 1, 65536]];
    let stream = |count: u64| {
        let x: u64 = (1 << 40) | count;
        let state = ((x / 65535) << 16) + x % 65535 + 1;
        let mut bytes = state.to_le_bytes().to_vec();
        bytes.extend_from_slice(&[255; 64]);
        bytes
    };
    assert!(checked_decode_with_indexes(&stream(8), &[0], &table, &[3], &[0]).is_some());
    assert_eq!(checked_decode_with_indexes(&stream(9), &[0], &table, &[3], &[0]), None);
    assert_eq!(checked_decode_with_indexes(&stream(15), &[0], &table, &[3], &[0]), None);
}

#[test]
fn unfit_tables_are_refused_for_decoding() {
    let encoded = encode(&[0], &[0]);
    let decode_by = |cdf: Vec<i32>, length: i32, offset: i32| {
        checked_decode_with_indexes(&encoded, &[0], &[cdf], &[length], &[offset])
    };
    let cdf = vec![0, 20000, 50000, 60000, 65536];
    assert_eq!(decode_by(cdf.clone(), 5, -1), Some(vec![0]));
    // More entries in use than there are, a negative number of them, none at all.
    assert_eq!(decode_by(cdf.clone(), 6, -1), None);
    assert_eq!(decode_by(cdf.clone(), -1, -1), None);
    assert_eq!(decode_by(cdf.clone(), 0, -1), None);
    // Entries out of order, and no slot at the frequency that the state points at.
    assert_eq!(decode_by(vec![0, 50000, 20000, 60000, 65536], 5, -1), None);
    assert_eq!(decode_by(vec![60000, 65536], 2, -1), None);
    // A symbol outside the range.
    assert_eq!(decode_by(cdf, 5, i32::MAX), None);
}

#[test]
fn trailing_bytes_of_a_partial_word_are_ignored() {
    let mut encoded = encode(&[-1, 0, 1], &[0, 0, 0]);
    encoded.extend_from_slice(&[1, 2, 3]);
    assert_eq!(decode(&encoded, &[0, 0, 0]), [-1, 0, 1]);
}

#[test]
fn decoding_gives_the_symbols_back() {
    for n in [1, 2, 3, 10, 1000, 5000] {
        let (symbols, indexes) = sample(n);
        let encoded = encode(&symbols, &indexes);
        assert_eq!(encoded.len() % 4, 0);
        assert_eq!(decode(&encoded, &indexes), symbols);
        assert_eq!(try_encode(&symbols, &indexes), Some(encoded.clone()));
        assert_eq!(try_decode(&encoded, &indexes), Some(symbols));
    }
}

#[test]
fn splitting_costs_four_or_eight_bytes() {
    let (symbols, indexes) = sample(300);
    let together = encode(&symbols, &indexes).len();
    for cut in 0..=300 {
        let apart = encode(&symbols[..cut], &indexes[..cut]).len()
            + encode(&symbols[cut..], &indexes[cut..]).len();
        assert!(apart == together + 4 || apart == together + 8);
    }
}

#[test]
fn chunk_sizes_and_bounds() {
    assert_eq!(chunk_size(10, 3), 4);
    assert_eq!(chunk_size(10, 10), 1);
    assert_eq!(chunk_size(9, 3), 3);
    assert_eq!(chunk_size(1, 1), 1);
    assert_eq!(chunk_bounds(10, 4), [(0, 4), (4, 8), (8, 10)]);
    assert_eq!(chunk_bounds(9, 3), [(0, 3), (3, 6), (6, 9)]);
    assert_eq!(chunk_bounds(0, 3), []);
    assert_eq!(chunk_bounds(5, usize::MAX), [(0, 5)]);
}

#[test]
fn chunks_are_coded_apart() {
    let (symbols, indexes) = sample(1001);
    let whole = encode(&symbols, &indexes).len();
    for n_chunks in [1, 2, 4, 8, 16, 24, 32] {
        let bounds = chunk_bounds(symbols.len(), chunk_size(symbols.len(), n_chunks));
        assert!(bounds.len() <= n_chunks);
        let mut joined = Vec::new();
        let mut bytes = 0;
        for &(a, b) in &bounds {
            let encoded = encode(&symbols[a..b], &indexes[a..b]);
            bytes += encoded.len();
            joined.extend(decode(&encoded, &indexes[a..b]));
        }
        assert_eq!(joined, symbols);
        assert!(bytes <= whole + 8 * (bounds.len() - 1));
    }
}

#[test]
fn kept_symbols_return_to_their_positions() {
    let (symbols, indexes) = sample(500);
    let mask: Vec<bool> = (0..500).map(|i| (i / 7) % 3 != 1).collect();
    let keep = |values: &[i32]| -> Vec<i32> {
        values.iter().zip(&mask).filter(|(_, &k)| k).map(|(&v, _)| v).collect()
    };
    let encoded = encode(&keep(&symbols), &keep(&indexes));
    let side = encode_mask(&mask);

    let positions = decode_mask(&side);
    let mut values = decode(&encoded, &keep(&indexes)).into_iter();
    for i in 0..500 {
        if positions[i] {
            assert_eq!(values.next(), Some(symbols[i]));
        }
    }
    assert_eq!(values.next(), None);
}

#[test]
fn padding_entries_are_not_read() {
    let symbols = [0, 1, 2, -30, 99];
    let indexes = [0; 5];
    let plain = [vec![0, 20000, 50000, 65536]];
    let padded = [vec![0, 20000, 50000, 65536, 0, -7, 31]];
    let encoded = encode_with_indexes(&symbols, &indexes, &plain, &[4], &[0]);
    assert_eq!(encode_with_indexes(&symbols, &indexes, &padded, &[4], &[0]), encoded);
    assert_eq!(decode_with_indexes(&encoded, &indexes, &padded, &[4], &[0]), symbols);
    assert_eq!(
        checked_decode_with_indexes(&encoded, &indexes, &padded, &[4], &[0]),
        Some(symbols.to_vec())
    );
}

#[test]
fn tables_need_order_only_around_the_slots_in_use() {
    // The entries are out of order, but every frequency inside the slot of the symbol is
    // told from the others.
    let cdfs = [vec![0, 30000, 65536, 65535, 65536]];
    let encoded = encode_with_indexes(&[0, 0], &[0, 0], &cdfs, &[5], &[0]);
    assert_eq!(decode_with_indexes(&encoded, &[0, 0], &cdfs, &[5], &[0]), [0, 0]);
    assert_eq!(
        checked_decode_with_indexes(&encoded, &[0, 0], &cdfs, &[5], &[0]),
        Some(vec![0, 0])
    );
    // A frequency around which the entries are not ordered.
    let mixed = encode_with_indexes(&[0], &[0], &[vec![0, 1, 65536]], &[3], &[0]);
    assert_eq!(
        checked_decode_with_indexes(&mixed, &[0], &[vec![0, 1, 0, 65536]], &[4], &[0]),
        None
    );
}

#[test]
fn bytes_behind_an_encoding_are_ignored() {
    let (symbols, indexes) = sample(60);
    let encoded = encode(&symbols, &indexes);
    for n in 0..12 {
        let mut longer = encoded.clone();
        longer.extend(vec![171; n]);
        assert_eq!(decode(&longer, &indexes), symbols);
        assert_eq!(try_decode(&longer, &indexes), Some(symbols.clone()));
    }
}

#[test]
fn first_symbols_need_only_their_indexes() {
    let (symbols, indexes) = sample(60);
    let encoded = encode(&symbols, &indexes);
    for k in 0..=60 {
        assert_eq!(decode(&encoded, &indexes[..k]), symbols[..k]);
    }
}

#[test]
fn truncated_encodings_are_refused() {
    let (symbols, indexes) = sample(60);
    let encoded = encode(&symbols, &indexes);
    for len in 0..encoded.len() {
        assert_eq!(try_decode(&encoded[..len], &indexes), None);
    }
}
