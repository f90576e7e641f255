use hcomp::{decode, encode, encode_frame, Error, Heightmap};

fn hm(width: u32, height: u32, data: Vec<u16>) -> Heightmap {
    Heightmap { width, height, data }
}

#[test]
fn lib_flat() {
    let values = vec![200; 4 * 4];
    let output = encode(hm(4, 4, values.clone()), 11).unwrap();
    let (decompressed, _) = decode(&output, 4, 4).unwrap();
    assert_eq!(decompressed.data, values);
}

#[test]
fn lib_random() {
    let values = vec![69, 420, 47, 24, 37, 14, 108, 1645, 29, 74, 36, 197, 978, 1000, 999, 1];
    let output = encode(hm(4, 4, values.clone()), 11).unwrap();
    let (decompressed, _) = decode(&output, 4, 4).unwrap();
    assert_eq!(decompressed.data, values);
}

#[test]
fn flat_5x5() {
    let values = vec![200; 5 * 5];
    // All 24 residuals are zero, the minimum delta is zero, and byte
    // narrowing fires, so the frame is exactly the header plus 24 zero
    // bytes. The input is far below the palette threshold.
    let frame = encode_frame(values.clone(), 5, 5).unwrap();
    let mut expected = vec![200u8, 0, 0, 0];
    expected.extend(std::iter::repeat(0u8).take(24));
    assert_eq!(frame, expected);

    let output = encode(hm(5, 5, values.clone()), 11).unwrap();
    let (decompressed, _) = decode(&output, 5, 5).unwrap();
    assert_eq!(decompressed.data, values);
}

#[test]
fn random_5x5() {
    let values = vec![
        69, 420, 47, 24, 37, 14, 108, 1645, 29, 74, 36, 197, 978, 1000, 999, 1, 0, 60, 20, 13, 8,
        4, 265, 76, 23,
    ];
    let output = encode(hm(5, 5, values.clone()), 11).unwrap();
    let (decompressed, _) = decode(&output, 5, 5).unwrap();
    assert_eq!(decompressed.data, values);
}

#[test]
fn checkerboard_3x3_variance() {
    // Residuals of this checkerboard overflow the signed 16-bit range,
    // so the encoder fails and produces no output.
    let values = vec![0, 65535, 0, 65535, 0, 65535, 0, 65535, 0];
    let r = encode(hm(3, 3, values), 11);
    assert!(matches!(r, Err(Error::VarianceTooHigh { .. })));
}

#[test]
fn pattern_100x100() {
    let values: Vec<u16> = (0..10_000).map(|i| (i % 10) as u16).collect();
    // The residual spread fits a byte, so the pre-entropy frame is the
    // header plus one byte per delta.
    let frame = encode_frame(values.clone(), 100, 100).unwrap();
    assert_eq!(frame.len(), 4 + 9_999);

    let output = encode(hm(100, 100, values.clone()), 11).unwrap();
    // The entropy stage must actually compress such a repetitive frame.
    assert!(output.len() < frame.len());
    let (decompressed, consumed) = decode(&output, 100, 100).unwrap();
    assert_eq!(decompressed.data, values);
    assert_eq!(consumed, output.len());
}

#[test]
fn palette_20x20() {
    // Columns alternate between 0 and 1000: the residual spread is
    // 4000 (no narrowing) but only three distinct nonzero deltas
    // remain, so the palette fires: header, count byte, three 16-bit
    // palette entries, one index byte per delta.
    let values: Vec<u16> = (0..400).map(|i| if i % 2 == 0 { 0 } else { 1000 }).collect();
    let frame = encode_frame(values.clone(), 20, 20).unwrap();
    assert_eq!(frame.len(), 4 + 1 + 6 + 399);

    let output = encode(hm(20, 20, values.clone()), 11).unwrap();
    let (decompressed, _) = decode(&output, 20, 20).unwrap();
    assert_eq!(decompressed.data, values);
}

#[test]
fn bytes_consumed_two_frames() {
    let a = vec![200; 4 * 4];
    let b = vec![
        69, 420, 47, 24, 37, 14, 108, 1645, 29, 74, 36, 197, 978, 1000, 999, 1, 0, 60, 20, 13, 8,
        4, 265, 76, 23,
    ];
    let enc_a = encode(hm(4, 4, a.clone()), 11).unwrap();
    let enc_b = encode(hm(5, 5, b.clone()), 11).unwrap();
    let mut both = enc_a.clone();
    both.extend_from_slice(&enc_b);

    let (dec_a, consumed) = decode(&both, 4, 4).unwrap();
    assert_eq!(dec_a.data, a);
    assert_eq!(consumed, enc_a.len());
    let (dec_b, consumed_b) = decode(&both[consumed..], 5, 5).unwrap();
    assert_eq!(dec_b.data, b);
    assert_eq!(consumed_b, enc_b.len());
}

#[test]
fn deterministic_encode() {
    let values = vec![
        69, 420, 47, 24, 37, 14, 108, 1645, 29, 74, 36, 197, 978, 1000, 999, 1, 0, 60, 20, 13, 8,
        4, 265, 76, 23,
    ];
    let one = encode(hm(5, 5, values.clone()), 19).unwrap();
    let two = encode(hm(5, 5, values.clone()), 19).unwrap();
    assert_eq!(one, two);
}

#[test]
fn minimal_3x3() {
    let values = vec![9, 8, 7, 6, 5, 4, 3, 2, 1];
    let output = encode(hm(3, 3, values.clone()), 11).unwrap();
    let (decompressed, _) = decode(&output, 3, 3).unwrap();
    assert_eq!(decompressed.data, values);
}

#[test]
fn wide_3x7_and_tall_7x3() {
    let wide: Vec<u16> = (0..21).map(|i| (i * 37 % 512) as u16).collect();
    let output = encode(hm(7, 3, wide.clone()), 11).unwrap();
    let (decompressed, _) = decode(&output, 7, 3).unwrap();
    assert_eq!(decompressed.data, wide);

    let tall: Vec<u16> = (0..21).map(|i| (i * 91 % 777) as u16).collect();
    let output = encode(hm(3, 7, tall.clone()), 11).unwrap();
    let (decompressed, _) = decode(&output, 3, 7).unwrap();
    assert_eq!(decompressed.data, tall);
}

#[test]
fn level_extremes() {
    let values = vec![200; 4 * 4];
    for level in [-7, 22] {
        let output = encode(hm(4, 4, values.clone()), level).unwrap();
        let (decompressed, _) = decode(&output, 4, 4).unwrap();
        assert_eq!(decompressed.data, values);
    }
}

#[test]
fn decode_garbage_fails() {
    let garbage = vec![0x13u8, 0x37, 0x42, 0x99, 0x00, 0x01];
    assert!(decode(&garbage, 3, 3).is_err());
}

#[test]
fn decode_truncated_fails_upstream() {
    let values = vec![200; 4 * 4];
    let output = encode(hm(4, 4, values), 11).unwrap();
    // Cutting the compressed stream mid-frame must fail in the entropy
    // stage, before any framing is looked at.
    let r = decode(&output[..4], 4, 4);
    assert!(matches!(r, Err(Error::UpstreamIoError)));
}
