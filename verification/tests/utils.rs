use air_rs::cli::DisplayMode;
use air_rs::utils::{
    batch_bounds, floor_root, get_magnitude, magnitude, samples_from_bytes, samples_to_bytes,
    DataError, Sample,
};

#[test]
fn samples_are_read_low_byte_first_and_in_phase_first() {
    let bytes = [0x34, 0x12, 0xFE, 0xFF, 0x00, 0x80, 0xFF, 0x7F];
    assert_eq!(
        samples_from_bytes(&bytes),
        Ok(vec![
            Sample { re: 0x1234, im: -2 },
            Sample { re: -32768, im: 32767 }
        ])
    );
    assert_eq!(samples_from_bytes(&[]), Ok(vec![]));
}

#[test]
fn samples_of_a_broken_length_are_refused() {
    assert_eq!(samples_from_bytes(&[1]), Err(DataError::InvalidLength));
    assert_eq!(samples_from_bytes(&[1, 2]), Err(DataError::InvalidLength));
    assert_eq!(samples_from_bytes(&[1, 2, 3]), Err(DataError::InvalidLength));
    assert_eq!(samples_from_bytes(&[1, 2, 3, 4, 5]), Err(DataError::InvalidLength));
}

#[test]
fn samples_are_written_low_byte_first_and_in_phase_first() {
    let data = [Sample { re: -1000, im: 258 }, Sample { re: 1, im: -1 }];
    assert_eq!(
        samples_to_bytes(&data),
        vec![0x18, 0xFC, 0x02, 0x01, 0x01, 0x00, 0xFF, 0xFF]
    );
    assert_eq!(samples_to_bytes(&[]), Vec::<u8>::new());
}

#[test]
fn written_samples_are_read_back() {
    let mut data = Vec::new();
    let mut value: i32 = -32768;
    while value <= 32767 {
        data.push(Sample { re: value as i16, im: (-(value + 1)) as i16 });
        value += 251;
    }
    assert_eq!(samples_from_bytes(&samples_to_bytes(&data)), Ok(data));
}

#[test]
fn floor_root_rounds_down() {
    assert_eq!(floor_root(0), 0);
    assert_eq!(floor_root(1), 1);
    assert_eq!(floor_root(3), 1);
    assert_eq!(floor_root(4), 2);
    assert_eq!(floor_root(24), 4);
    assert_eq!(floor_root(25), 5);
    assert_eq!(floor_root(2_147_483_648), 46_340);
    assert_eq!(floor_root(u32::MAX), 65_535);
    for root in [0u32, 1, 2, 255, 256, 46_340, 65_535] {
        assert_eq!(floor_root(root * root), root);
        if root > 0 {
            assert_eq!(floor_root(root * root - 1), root - 1);
        }
    }
}

#[test]
fn magnitudes_are_roots_of_the_power() {
    assert_eq!(magnitude(Sample { re: 0, im: 0 }), 0);
    assert_eq!(magnitude(Sample { re: 3, im: 4 }), 5);
    assert_eq!(magnitude(Sample { re: -3, im: -4 }), 5);
    assert_eq!(magnitude(Sample { re: 1, im: 1 }), 1);
    assert_eq!(magnitude(Sample { re: -32768, im: -32768 }), 46_340);
    assert_eq!(magnitude(Sample { re: 32767, im: 0 }), 32_767);
}

#[test]
fn magnitudes_keep_the_order_and_the_number_of_samples() {
    let samples = [
        Sample { re: 100, im: 0 },
        Sample { re: 0, im: -7 },
        Sample { re: 6, im: 8 },
    ];
    assert_eq!(get_magnitude(&samples), vec![100, 7, 10]);
    assert_eq!(get_magnitude(&[]), Vec::<u32>::new());
}

#[test]
fn magnitudes_agree_with_the_floating_point_root() {
    let mut re: i32 = -32768;
    while re <= 32767 {
        let mut im: i32 = -32768;
        while im <= 32767 {
            let expected = ((re as f64).powi(2) + (im as f64).powi(2)).sqrt() as u32;
            assert_eq!(magnitude(Sample { re: re as i16, im: im as i16 }), expected);
            im += 1021;
        }
        re += 509;
    }
}

#[test]
fn a_stronger_sample_never_has_the_lesser_magnitude() {
    let samples = [
        Sample { re: 10, im: 10 },
        Sample { re: 11, im: 9 },
        Sample { re: -200, im: 3 },
        Sample { re: 0, im: 0 },
    ];
    let levels = get_magnitude(&samples);
    for i in 0..samples.len() {
        for j in 0..samples.len() {
            let power = |s: Sample| s.re as i64 * s.re as i64 + s.im as i64 * s.im as i64;
            if power(samples[i]) <= power(samples[j]) {
                assert!(levels[i] <= levels[j]);
            }
        }
    }
}

#[test]
fn batches_cover_a_recording() {
    assert_eq!(batch_bounds(0, 0), None);
    assert_eq!(batch_bounds(1, 0), Some((0, 1)));
    assert_eq!(batch_bounds(1, 1), None);
    assert_eq!(batch_bounds(10_000, 0), Some((0, 10_000)));
    assert_eq!(batch_bounds(10_000, 1), None);
    assert_eq!(batch_bounds(25_000, 0), Some((0, 10_000)));
    assert_eq!(batch_bounds(25_000, 1), Some((10_000, 20_000)));
    assert_eq!(batch_bounds(25_000, 2), Some((20_000, 25_000)));
    assert_eq!(batch_bounds(25_000, 3), None);
    assert_eq!(batch_bounds(25_000, usize::MAX), None);
    assert_eq!(
        batch_bounds(usize::MAX, usize::MAX / 10_000),
        Some((usize::MAX / 10_000 * 10_000, usize::MAX))
    );
}

#[test]
fn display_modes_have_their_names() {
    assert_eq!(DisplayMode::Web.name(), "web");
    assert_eq!(DisplayMode::Interactive.name(), "interactive");
    assert_eq!(DisplayMode::Stream.name(), "stream");
}
