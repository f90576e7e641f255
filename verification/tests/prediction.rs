use hcomp::prediction::{decode_prediction, transform_prediction};

#[test]
fn prediction_flat() {
    let values = vec![200; 5 * 5];

    let compressed = transform_prediction(values.clone(), 5, 5).unwrap();

    assert_eq!(compressed[0], 200);
    assert!(compressed[1..].iter().all(|&x| x == 0));

    let decompressed = decode_prediction(compressed, 5, 5);
    assert_eq!(decompressed.data, values);
}

#[test]
fn prediction_random() {
    let values = vec![
        69, 420, 47, 24, 37, 14, 108, 1645, 29, 74, 36, 197, 978, 1000, 999, 1, 0, 60, 20, 13, 8,
        4, 265, 76, 23,
    ];

    let compressed = transform_prediction(values.clone(), 5, 5).unwrap();
    let decompressed = decode_prediction(compressed, 5, 5);
    assert_eq!(decompressed.data, values);
}

#[test]
fn ramp_fits_linear_prediction() {
    // A monotone ramp is predicted exactly by the linear rule along the
    // first row and column and by the plane rule inside, so only the
    // two pixels predicted by the first sample carry a residual.
    let width = 6usize;
    let height = 4usize;
    let values: Vec<u16> = (0..height)
        .flat_map(|y| (0..width).map(move |x| (10 + x + y) as u16))
        .collect();

    let compressed = transform_prediction(values.clone(), width as u32, height as u32).unwrap();
    assert_eq!(compressed[0], 10);
    for (i, &r) in compressed.iter().enumerate() {
        if i == 1 || i == width {
            assert_eq!(r, 1);
        } else if i > 0 {
            assert_eq!(r, 0);
        }
    }

    let decompressed = decode_prediction(compressed, width as u32, height as u32);
    assert_eq!(decompressed.data, values);
}

#[test]
fn variance_error_reports_extremes() {
    let values = vec![0, 65535, 0, 65535, 0, 65535, 0, 65535, 0];
    match transform_prediction(values, 3, 3) {
        Ok(_) => panic!("expected a variance failure"),
        Err(hcomp::Error::VarianceTooHigh { min_delta, max_delta }) => {
            assert!(min_delta <= max_delta);
            assert!(max_delta > 32767 || min_delta < -32768);
        },
        Err(_) => panic!("wrong error kind"),
    }
}
