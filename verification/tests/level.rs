use tuners::level::{isqrt, meter, rms, FULL_SCALE};

#[test]
fn rms_of_silence_is_zero() {
    assert_eq!(rms(&[0i16; 1000]), 0);
    assert_eq!(rms(&[0]), 0);
}

#[test]
fn rms_of_nothing_is_zero() {
    assert_eq!(rms(&[]), 0);
}

#[test]
fn rms_of_constant_is_its_magnitude() {
    for &a in [1i16, -1, 5, -5, 1234, -1234, i16::MAX, i16::MIN].iter() {
        let window = vec![a; 777];
        assert_eq!(rms(&window) as i32, (a as i32).abs());
    }
}

#[test]
fn rms_rounds_the_root_of_the_mean_square_down() {
    assert_eq!(rms(&[3, 4]), 3);
    assert_eq!(rms(&[3, 4, 5]), 4);
    assert_eq!(rms(&[1, 0, 0, 0]), 0);
    assert_eq!(rms(&[2, 0, 0, 0]), 1);
    assert_eq!(rms(&[100, -100, 100, -101]), 100);
}

#[test]
fn rms_of_full_scale_square_wave() {
    let window: Vec<i16> = (0..4096).map(|i| if i % 2 == 0 { i16::MAX } else { -i16::MAX }).collect();
    assert_eq!(rms(&window), 32767);
}

#[test]
fn rms_matches_floating_point() {
    let window: Vec<i16> = (0..4096)
        .map(|i| (10000.0 * (i as f64 * 0.05).sin()).round() as i16)
        .collect();
    let mean_square: f64 =
        window.iter().map(|&x| (x as f64) * (x as f64)).sum::<f64>() / window.len() as f64;
    let expected = mean_square.sqrt().floor() as u16;
    let level = rms(&window);
    assert!(level == expected || level + 1 == expected || level == expected + 1);
}

#[test]
fn isqrt_rounds_down() {
    assert_eq!(isqrt(0), 0);
    assert_eq!(isqrt(1), 1);
    assert_eq!(isqrt(3), 1);
    assert_eq!(isqrt(4), 2);
    assert_eq!(isqrt(99), 9);
    assert_eq!(isqrt(100), 10);
    assert_eq!(isqrt(1 << 60), 1 << 30);
    assert_eq!(isqrt((1u128 << 60) - 1), (1 << 30) - 1);
    assert_eq!(isqrt(u128::MAX), u64::MAX);
}

#[test]
fn meter_fills_with_the_share_of_full_scale() {
    assert_eq!(meter(0, 50), 0);
    assert_eq!(meter(FULL_SCALE, 50), 50);
    assert_eq!(meter(FULL_SCALE / 2, 50), 24);
    assert_eq!(meter(16384, 50), 25);
    assert_eq!(meter(32768, 50), 50);
    assert_eq!(meter(1000, 0), 0);
    assert_eq!(meter(u16::MAX, u32::MAX), 8590065666);
}
