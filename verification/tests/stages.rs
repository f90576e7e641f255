use hcomp::byte_compress::{byte_compress, byte_decompress, widen_bytes};
use hcomp::delta::{delta_decode, delta_encode};
use hcomp::stream::{
    decode_stream, generate_stream, max_size_for_pixel_count, ByteCompressResult,
    BytePaletteResult, PaletteResult, PredictionResult,
};
use hcomp::{decode_frame, encode_frame, Error};

#[test]
fn delta_encode_exact() {
    let residuals: Vec<i16> = vec![-5, 3, -7, 10, 0];
    let flat = delta_encode(residuals.clone());
    // First value as bits, then the minimum (-7), then offsets from it.
    assert_eq!(flat, vec![65531, 65529, 10, 0, 17, 7]);
    assert_eq!(delta_decode(flat), residuals);
}

#[test]
fn delta_wraps_like_the_wire() {
    // A full-range spread still round-trips: offsets are 16-bit bit
    // patterns.
    let residuals: Vec<i16> = vec![0, 32767, -32768, 0];
    let flat = delta_encode(residuals.clone());
    assert_eq!(delta_decode(flat), residuals);
}

#[test]
fn byte_compress_narrow_and_back() {
    // Little-endian pairs 3, 200, 255 narrow to their low bytes.
    let mut buf = vec![3u8, 0, 200, 0, 255, 0];
    assert!(byte_compress(&mut buf));
    assert_eq!(&buf[..3], &[3, 200, 255]);

    let mut out = vec![0u8; 6];
    byte_decompress(&vec![3u8, 200, 255], &mut out);
    assert_eq!(out, vec![3, 0, 200, 0, 255, 0]);
    assert_eq!(widen_bytes(&vec![3u8, 200, 255]), vec![3u16, 200, 255]);
}

#[test]
fn byte_compress_refuses_wide_values() {
    // 256 does not fit a byte: the buffer must stay untouched.
    let mut buf = vec![0u8, 1, 7, 0];
    assert!(!byte_compress(&mut buf));
    assert_eq!(buf, vec![0, 1, 7, 0]);
}

#[test]
fn stream_shapes_round_trip() {
    // Plain 16-bit deltas for nine pixels.
    let wide = ByteCompressResult::Uncompressed(PaletteResult::Unpalleted(PredictionResult {
        first: 513,
        min_delta: -4,
        deltas_from_minimum: vec![1, 2, 300, 4, 5, 6, 7, 8],
    }));
    let bytes = generate_stream(wide);
    assert_eq!(bytes.len(), max_size_for_pixel_count(9));
    assert_eq!(&bytes[..4], &[1, 2, 252, 255]);
    match decode_stream(&bytes, 9).unwrap() {
        ByteCompressResult::Uncompressed(PaletteResult::Unpalleted(pr)) => {
            assert_eq!(pr.first, 513);
            assert_eq!(pr.min_delta, -4);
            assert_eq!(pr.deltas_from_minimum, vec![1, 2, 300, 4, 5, 6, 7, 8]);
        },
        _ => panic!("wrong shape"),
    }

    // Narrowed deltas.
    let narrow = ByteCompressResult::Compressed(BytePaletteResult::Unpalleted {
        first: 7,
        min_delta: 3,
        deltas_from_minimum: vec![9, 8, 7, 6, 5, 4, 3, 2],
    });
    let bytes = generate_stream(narrow);
    assert_eq!(bytes.len(), 9 + 3);
    match decode_stream(&bytes, 9).unwrap() {
        ByteCompressResult::Compressed(BytePaletteResult::Unpalleted {
            first,
            min_delta,
            deltas_from_minimum,
        }) => {
            assert_eq!(first, 7);
            assert_eq!(min_delta, 3);
            assert_eq!(deltas_from_minimum, vec![9, 8, 7, 6, 5, 4, 3, 2]);
        },
        _ => panic!("wrong shape"),
    }

    // A 16-bit palette over nine pixels.
    let palleted = ByteCompressResult::Uncompressed(PaletteResult::Palleted {
        first: 1,
        min_delta: 0,
        palette: vec![500, 123],
        data: vec![0, 1, 2, 2, 1, 0, 0, 1],
    });
    let bytes = generate_stream(palleted);
    assert_eq!(bytes.len(), 4 + 1 + 4 + 8);
    match decode_stream(&bytes, 9).unwrap() {
        ByteCompressResult::Uncompressed(PaletteResult::Palleted {
            first,
            min_delta,
            palette,
            data,
        }) => {
            assert_eq!(first, 1);
            assert_eq!(min_delta, 0);
            assert_eq!(palette, vec![500, 123]);
            assert_eq!(data, vec![0, 1, 2, 2, 1, 0, 0, 1]);
        },
        _ => panic!("wrong shape"),
    }

    // An 8-bit palette over nine pixels.
    let palleted = ByteCompressResult::Compressed(BytePaletteResult::Palleted {
        first: 2,
        min_delta: 1,
        palette: vec![10, 20, 30],
        data: vec![3, 2, 1, 0, 0, 1, 2, 3],
    });
    let bytes = generate_stream(palleted);
    assert_eq!(bytes.len(), 4 + 1 + 3 + 8);
    match decode_stream(&bytes, 9).unwrap() {
        ByteCompressResult::Compressed(BytePaletteResult::Palleted {
            first,
            min_delta,
            palette,
            data,
        }) => {
            assert_eq!(first, 2);
            assert_eq!(min_delta, 1);
            assert_eq!(palette, vec![10, 20, 30]);
            assert_eq!(data, vec![3, 2, 1, 0, 0, 1, 2, 3]);
        },
        _ => panic!("wrong shape"),
    }
}

#[test]
fn stream_rejects_odd_lengths() {
    // A zero count byte with one leftover byte fits no palette width.
    let bytes = vec![0u8; 14];
    assert!(decode_stream(&bytes, 9).is_err());
    let bytes = vec![0u8; 3];
    assert!(decode_stream(&bytes, 9).is_err());
}

#[test]
fn frame_exact_ramp() {
    // 3x3 ramp: residuals are [0, 1, 0, 1, 0, 0, 0, 0, 0], the minimum
    // is 0, and narrowing fires.
    let values = vec![0, 1, 2, 1, 2, 3, 2, 3, 4];
    let frame = encode_frame(values.clone(), 3, 3).unwrap();
    assert_eq!(frame, vec![0, 0, 0, 0, 1, 0, 1, 0, 0, 0, 0, 0]);
    let back = decode_frame(&frame, 3, 3).unwrap();
    assert_eq!(back.data, values);
}

#[test]
fn frame_rejects_bad_lengths() {
    let values = vec![0, 1, 2, 1, 2, 3, 2, 3, 4];
    let mut frame = encode_frame(values, 3, 3).unwrap();
    frame.push(0);
    assert!(matches!(decode_frame(&frame, 3, 3), Err(Error::InvalidData)));
}

#[test]
fn narrow_saves_one_byte_per_delta() {
    // Narrowed and plain frames for the same dimensions differ by
    // exactly the delta count.
    let narrow_values = vec![200u16; 5 * 5];
    let narrow_frame = encode_frame(narrow_values, 5, 5).unwrap();
    let wide_values: Vec<u16> = (0..25).map(|i| (i * 1000 % 17_000) as u16).collect();
    let wide_frame = encode_frame(wide_values, 5, 5).unwrap();
    assert_eq!(narrow_frame.len() + 24, wide_frame.len());
}
