use kompressor::mask::{
    checked_decode_mask, decode_mask, decode_mask_bitpacked_body, decode_mask_rle_body, encode_mask,
    encode_mask_bitpacked_body, encode_mask_rle_body, mask_from_bytes, mask_to_bytes, MaskError,
};
use kompressor::varint::{checked_read_uvarint, read_uvarint, write_uvarint};

fn written(value: u64) -> Vec<u8> {
    let mut out = vec![7];
    write_uvarint(&mut out, value);
    out.split_off(1)
}

#[test]
fn uvarints_have_exact_bytes() {
    assert_eq!(written(0), [0]);
    assert_eq!(written(127), [127]);
    assert_eq!(written(128), [128, 1]);
    assert_eq!(written(300), [0xac, 0x02]);
    assert_eq!(written(16383), [255, 127]);
    assert_eq!(written(16384), [128, 128, 1]);
    assert_eq!(written(u64::MAX), [255, 255, 255, 255, 255, 255, 255, 255, 255, 1]);
}

#[test]
fn uvarints_are_read_back() {
    for value in [0, 1, 127, 128, 300, 16383, 16384, 1 << 35, 1 << 63, u64::MAX] {
        let mut buf = vec![200, 9];
        write_uvarint(&mut buf, value);
        let end = buf.len();
        buf.extend_from_slice(&[255, 3]);
        let mut pos = 2;
        assert_eq!(read_uvarint(&buf, &mut pos), value);
        assert_eq!(pos, end);
        assert_eq!(checked_read_uvarint(&buf, 2), Some((value, end)));
    }
}

#[test]
fn uvarints_that_do_not_end_are_refused() {
    assert_eq!(checked_read_uvarint(&[], 0), None);
    assert_eq!(checked_read_uvarint(&[1], 1), None);
    assert_eq!(checked_read_uvarint(&[1], 5), None);
    assert_eq!(checked_read_uvarint(&[128, 128], 0), None);
    assert_eq!(checked_read_uvarint(&[128, 128, 128, 128, 128, 128, 128, 128, 128, 128, 0], 0), None);
}

#[test]
fn bits_past_the_sixty_fourth_are_dropped() {
    let mut bytes = vec![128; 9];
    bytes.push(3);
    assert_eq!(checked_read_uvarint(&bytes, 0), Some((1 << 63, 10)));
    bytes[9] = 2;
    assert_eq!(checked_read_uvarint(&bytes, 0), Some((0, 10)));
}

#[test]
fn coded_masks_have_exact_bytes() {
    assert_eq!(encode_mask(&[]), [0, 0, 0, 0, 0, 0, 0, 0, 0]);
    assert_eq!(encode_mask(&[true]), [1, 1, 0, 0, 0, 0, 0, 0, 0, 1]);
    // A tie goes to the runs.
    assert_eq!(encode_mask(&[true; 9]), [0, 9, 0, 0, 0, 0, 0, 0, 0, 1, 9]);
    let mut mask = vec![false; 300];
    mask[299] = true;
    assert_eq!(encode_mask(&mask), [0, 44, 1, 0, 0, 0, 0, 0, 0, 0, 0xab, 0x02, 1]);
}

#[test]
fn bodies_have_exact_bytes() {
    assert_eq!(encode_mask_rle_body(&[]), []);
    assert_eq!(encode_mask_rle_body(&[false, false, false, true, true, false]), [0, 3, 2, 1]);
    assert_eq!(encode_mask_bitpacked_body(&[]), []);
    assert_eq!(
        encode_mask_bitpacked_body(&[
            true, false, false, false, false, false, false, true, false, true, true
        ]),
        [0b1000_0001, 0b0000_0110]
    );
    for k in 0..8 {
        let mut mask = [false; 8];
        mask[k] = true;
        assert_eq!(encode_mask_bitpacked_body(&mask), [1 << k]);
    }
}

#[test]
fn run_lengths_sum_to_the_entries() {
    let mask: Vec<bool> = (0..5000).map(|i| (i * i / 97) % 5 < 2).collect();
    let body = encode_mask_rle_body(&mask);
    let mut pos = 1;
    let mut total = 0;
    while pos < body.len() {
        let run = read_uvarint(&body, &mut pos);
        assert!(run > 0);
        total += run;
    }
    assert_eq!(total, 5000);
}

#[test]
fn coded_masks_are_never_longer_than_a_bitmap() {
    for n in 0..200usize {
        for step in 1..9 {
            let mask: Vec<bool> = (0..n).map(|i| (i / step) % 2 == 0).collect();
            let encoded = encode_mask(&mask);
            let shorter = encode_mask_rle_body(&mask).len().min(n.div_ceil(8));
            assert_eq!(encoded.len(), 9 + shorter);
            assert_eq!(decode_mask(&encoded), mask);
        }
    }
}

#[test]
fn bytes_after_a_coded_mask_are_ignored() {
    for n in [0, 1, 9, 37, 300] {
        for period in [1, 2, 50] {
            let mask: Vec<bool> = (0..n).map(|i| (i / period) % 2 == 1).collect();
            let mut encoded = encode_mask(&mask);
            encoded.extend_from_slice(&[255, 0, 129]);
            assert_eq!(checked_decode_mask(&encoded), Ok(mask));
        }
    }
}

#[test]
fn padding_bits_are_ignored() {
    assert_eq!(decode_mask_bitpacked_body(&[0b1010_0101], 3), [true, false, true]);
    assert_eq!(decode_mask_bitpacked_body(&[0b0000_0101], 3), [true, false, true]);
    assert_eq!(decode_mask_bitpacked_body(&[], 0), []);
}

#[test]
fn short_strings_are_refused() {
    assert_eq!(checked_decode_mask(&[]), Err(MaskError::TooShort));
    assert_eq!(checked_decode_mask(&[0; 8]), Err(MaskError::TooShort));
    assert_eq!(checked_decode_mask(&[0; 9]), Ok(vec![]));
}

#[test]
fn unknown_tags_are_refused() {
    assert_eq!(checked_decode_mask(&[2, 0, 0, 0, 0, 0, 0, 0, 0]), Err(MaskError::UnknownTag(2)));
    assert_eq!(checked_decode_mask(&[255; 12]), Err(MaskError::UnknownTag(255)));
}

#[test]
fn bad_bodies_are_refused() {
    // No body, runs that end early, an endless number, and runs past any vector.
    assert_eq!(checked_decode_mask(&[0, 1, 0, 0, 0, 0, 0, 0, 0]), Err(MaskError::BadBody));
    assert_eq!(checked_decode_mask(&[0, 4, 0, 0, 0, 0, 0, 0, 0, 1, 3]), Err(MaskError::BadBody));
    assert_eq!(checked_decode_mask(&[0, 4, 0, 0, 0, 0, 0, 0, 0, 1, 128]), Err(MaskError::BadBody));
    assert_eq!(
        checked_decode_mask(&[
            0, 4, 0, 0, 0, 0, 0, 0, 0, 1, 1, 255, 255, 255, 255, 255, 255, 255, 255, 255, 1
        ]),
        Err(MaskError::BadBody)
    );
    // Fewer packed bits than entries.
    assert_eq!(checked_decode_mask(&[1, 1, 0, 0, 0, 0, 0, 0, 0]), Err(MaskError::BadBody));
    assert_eq!(checked_decode_mask(&[1, 9, 0, 0, 0, 0, 0, 0, 0, 255]), Err(MaskError::BadBody));
    assert_eq!(
        checked_decode_mask(&[1, 8, 0, 0, 0, 0, 0, 0, 0, 255]),
        Ok(vec![true; 8])
    );
}

#[test]
fn runs_are_read_to_their_end() {
    // The last run reaches past the count, an empty run only turns the value, and any
    // first byte but zero is a set entry.
    assert_eq!(decode_mask_rle_body(&[1, 3], 2), [true, true, true]);
    assert_eq!(decode_mask_rle_body(&[0, 0, 2, 1], 3), [true, true, false]);
    assert_eq!(decode_mask_rle_body(&[9, 1], 1), [true]);
    assert_eq!(decode_mask_rle_body(&[], 0), []);
}

#[test]
fn masks_survive_bytes() {
    assert_eq!(mask_from_bytes(&[0, 1, 2, 255]), [false, true, true, true]);
    assert_eq!(mask_to_bytes(&[false, true, true]), [0, 1, 1]);
    let mask: Vec<bool> = (0..50).map(|i| i % 3 == 1).collect();
    assert_eq!(mask_from_bytes(&mask_to_bytes(&mask)), mask);
}
