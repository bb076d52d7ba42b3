use kompressor::mask::{
    decode_mask, decode_mask_bitpacked_body, decode_mask_rle_body, encode_mask,
    encode_mask_bitpacked_body, encode_mask_rle_body,
};

fn assert_roundtrip(mask: &[bool]) {
    let encoded = encode_mask(mask);
    let decoded = decode_mask(&encoded);
    assert_eq!(decoded, mask, "round-trip mismatch for mask of len {}", mask.len());
}

#[test]
fn empty_mask() {
    assert_roundtrip(&[]);
}

#[test]
fn all_kept() {
    assert_roundtrip(&vec![true; 4096]);
}

#[test]
fn all_discarded() {
    assert_roundtrip(&vec![false; 4096]);
}

#[test]
fn single_pixel_kept_start() {
    let mut mask = vec![false; 1024];
    mask[0] = true;
    assert_roundtrip(&mask);
}

#[test]
fn single_pixel_kept_middle() {
    let mut mask = vec![false; 1024];
    mask[512] = true;
    assert_roundtrip(&mask);
}

#[test]
fn single_pixel_kept_end() {
    let mut mask = vec![false; 1024];
    mask[1023] = true;
    assert_roundtrip(&mask);
}

#[test]
fn single_pixel_discarded_in_sea_of_kept() {
    // A run of length one between two long runs of the other value.
    let mut mask = vec![true; 1024];
    mask[517] = false;
    assert_roundtrip(&mask);
}

#[test]
fn spatially_clustered() {
    // Two blocks of kept entries inside an otherwise discarded 64x64 grid.
    let (h, w) = (64usize, 64usize);
    let mut mask = vec![false; h * w];
    for y in 10..20 {
        for x in 10..25 {
            mask[y * w + x] = true;
        }
    }
    for y in 40..48 {
        for x in 5..50 {
            mask[y * w + x] = true;
        }
    }
    assert_roundtrip(&mask);

    let encoded = encode_mask(&mask);
    assert_eq!(encoded[0], 0, "expected RLE to win on a spatially clustered mask");
    assert!(
        encoded.len() < 512,
        "RLE encoding ({} bytes) should be well under the {}-byte bit-packed floor for a clustered mask",
        encoded.len(),
        h * w / 8
    );
}

#[test]
fn random_pattern_correctness_regardless_of_efficiency() {
    // A xorshift generator: reproducible, with no structure for runs to exploit.
    let mut state: u64 = 0x2545F4914F6CDD1D;
    let mut next = || {
        state ^= state << 13;
        state ^= state >> 7;
        state ^= state << 17;
        state
    };
    let mask: Vec<bool> = (0..8192).map(|_| next() & 1 == 1).collect();
    assert_roundtrip(&mask);

    let encoded = encode_mask(&mask);
    assert_eq!(encoded[0], 1, "expected bit-packing to win on an unstructured random mask");
    assert_eq!(
        encoded.len(),
        9 + 8192usize.div_ceil(8),
        "bit-packed size must be exactly the fixed floor for a random mask"
    );
}

#[test]
fn non_byte_aligned_length() {
    // The last byte of packed bits has unused high bits.
    let mask: Vec<bool> = (0..37).map(|i| i % 3 == 0).collect();
    assert_roundtrip(&mask);
}

#[test]
fn rle_body_direct_roundtrip() {
    // The body of runs alone, also for masks that are coded as packed bits.
    let patterns: [&[bool]; 4] = [
        &[],
        &[true],
        &[false, false, false, true, true, false],
        &[true, false, true, false, true, false, true, false, true],
    ];
    for mask in patterns {
        let body = encode_mask_rle_body(mask);
        let decoded = decode_mask_rle_body(&body, mask.len());
        assert_eq!(decoded, mask);
    }
}

#[test]
fn bitpacked_body_direct_roundtrip() {
    // The body of packed bits alone, also for masks that are coded as runs.
    let patterns: [&[bool]; 3] =
        [&[], &vec![true; 65][..], &vec![false, true, true, false, false][..]];
    for mask in patterns {
        let body = encode_mask_bitpacked_body(mask);
        let decoded = decode_mask_bitpacked_body(&body, mask.len());
        assert_eq!(decoded, mask);
    }
}
