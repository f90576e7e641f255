use hcomp::palette::{decode_palette, transform_palette};
use hcomp::prediction::{decode_prediction, transform_prediction};
use hcomp::delta::{delta_decode, delta_encode};
use hcomp::sign::{i16_to_u16, u16_to_i16};
use hcomp::stream::{PaletteResult, PredictionResult};

fn prediction_result(first: u16, min_delta: i16, deltas: Vec<u16>) -> PredictionResult {
    PredictionResult { first, min_delta, deltas_from_minimum: deltas }
}

#[test]
fn flat_palette() {
    // A small all-zero delta stream is below the palette threshold: the
    // stage must pass it through untouched.
    let small = transform_palette(prediction_result(200, 0, vec![0; 24]));
    match small {
        PaletteResult::Unpalleted(pr) => {
            assert_eq!(pr.first, 200);
            assert_eq!(pr.min_delta, 0);
            assert_eq!(pr.deltas_from_minimum, vec![0; 24]);
        },
        PaletteResult::Palleted { .. } => panic!("palette on a small input"),
    }

    // Over the threshold an all-zero stream palettes to an empty
    // palette and all-zero indices.
    let compressed = transform_palette(prediction_result(200, 0, vec![0; 300]));
    match &compressed {
        PaletteResult::Unpalleted(_) => panic!("Expected palette"),
        PaletteResult::Palleted { first, min_delta, palette, data } => {
            assert_eq!(*first, 200);
            assert_eq!(*min_delta, 0);
            assert_eq!(palette, &Vec::<u16>::new());
            assert_eq!(data, &vec![0; 300]);
        },
    }

    let decompressed = decode_palette(compressed);
    assert_eq!(decompressed.first, 200);
    assert_eq!(decompressed.min_delta, 0);
    assert_eq!(decompressed.deltas_from_minimum, vec![0; 300]);
}

#[test]
fn random_palette() {
    let values = vec![
        69, 420, 47, 24, 37, 14, 108, 1645, 29, 74, 36, 197, 978, 1000, 999, 1, 0, 60, 20, 13, 8,
        4, 265, 76, 23,
    ];

    let residuals = transform_prediction(values.clone(), 5, 5).unwrap();
    let flat = delta_encode(residuals);
    let pr = prediction_result(flat[0], u16_to_i16(flat[1]), flat[2..].to_vec());

    let compressed = transform_palette(pr);
    let decompressed = decode_palette(compressed);

    let mut flat_back = vec![decompressed.first, i16_to_u16(decompressed.min_delta)];
    flat_back.extend_from_slice(&decompressed.deltas_from_minimum);
    let residuals_back = delta_decode(flat_back);
    let decoded = decode_prediction(residuals_back, 5, 5);
    assert_eq!(decoded.data, values);
}

#[test]
fn palette_index_mapping() {
    // 0 maps to index 0; the distinct nonzero deltas, sorted ascending,
    // map to indices 1.. and travel delta-compressed.
    let mut deltas = Vec::new();
    for k in 0..300 {
        deltas.push(match k % 4 {
            0 => 0u16,
            1 => 700,
            2 => 300,
            _ => 300,
        });
    }
    let compressed = transform_palette(prediction_result(5, -2, deltas.clone()));
    match &compressed {
        PaletteResult::Unpalleted(_) => panic!("Expected palette"),
        PaletteResult::Palleted { first, min_delta, palette, data } => {
            assert_eq!(*first, 5);
            assert_eq!(*min_delta, -2);
            // Sorted palette [300, 700], delta-compressed to [300, 400].
            assert_eq!(palette, &vec![300, 400]);
            for (k, &h) in data.iter().enumerate() {
                let expected = match k % 4 {
                    0 => 0u8,
                    1 => 2,
                    _ => 1,
                };
                assert_eq!(h, expected);
            }
        },
    }
    let decompressed = decode_palette(compressed);
    assert_eq!(decompressed.deltas_from_minimum, deltas);
}

#[test]
fn palette_skips_wide_value_sets() {
    // More than 255 distinct nonzero deltas: the palette cannot fire.
    let deltas: Vec<u16> = (1..=300).collect();
    let r = transform_palette(prediction_result(1, 0, deltas.clone()));
    match r {
        PaletteResult::Unpalleted(pr) => assert_eq!(pr.deltas_from_minimum, deltas),
        PaletteResult::Palleted { .. } => panic!("palette over 255 distinct values"),
    }
}
