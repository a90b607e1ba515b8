use pixdr::gsm::{
    analyze_pgsm900_downlink, measure_tone, nearest_bin, ranked_value, tone_radii, Carrier,
    Gsm900Analysis, ToneRadii,
};
use pixdr::sch_search::SchSync;
use pixdr::spectrum::{
    bin_window, circular_distance, decimate_constellation, fft_shift, fft_size_for,
    power_of_two_above, waterfall_bin, waterfall_columns,
};
use pixdr::tx_image::{
    highest_level, image_row_tones, join_rows, row_layout, RowLayout, Tone, TxImage,
};

#[test]
fn windows_wrap_around() {
    assert_eq!(bin_window(1, 2, 8), vec![7, 0, 1, 2, 3]);
    assert_eq!(bin_window(7, 1, 8), vec![6, 7, 0]);
    assert_eq!(bin_window(0, 2, 3), vec![1, 2, 0, 1, 2]);
    assert_eq!(bin_window(5, -1, 8), Vec::<usize>::new());
    assert_eq!(bin_window(0, 2, 8), vec![6, 7, 0, 1, 2]);
    let most = isize::MAX as usize;
    assert_eq!(bin_window(most - 1, 1, most), vec![most - 2, most - 1, 0]);
}

#[test]
fn rows_are_repeated_and_joined() {
    let blocks = [vec![1, 2], vec![3, 4]];
    assert_eq!(join_rows(&blocks, 2), Some(vec![1, 2, 1, 2, 3, 4, 3, 4]));
    assert_eq!(join_rows(&blocks, 0), None);
    assert_eq!(join_rows::<u8>(&[], 3), None);
    assert_eq!(join_rows(&[Vec::<u8>::new()], 3), None);
}

#[test]
fn dark_rows_have_no_tones() {
    let image = TxImage { width: 3, height: 2, gray: vec![2, 0, 1, 2, 3, 2] };
    assert_eq!(image_row_tones(&image, 0, false, 512).len(), 1);
    assert!(image_row_tones(&image, 1, false, 512).is_empty());
}

#[test]
fn distances_go_the_short_way_round() {
    assert_eq!(circular_distance(1, 7, 8), 2);
    assert_eq!(circular_distance(7, 1, 8), 2);
    assert_eq!(circular_distance(0, 4, 8), 4);
    assert_eq!(circular_distance(3, 3, 8), 0);
}

#[test]
fn shifting_puts_zero_in_the_middle() {
    assert_eq!(fft_shift(&[0, 1, 2, 3]), vec![2, 3, 0, 1]);
    assert_eq!(fft_shift(&fft_shift(&[0, 1, 2, 3])), vec![0, 1, 2, 3]);
    assert_eq!(fft_shift(&[0, 1, 2]), vec![1, 2, 0]);
    assert_eq!(fft_shift::<u8>(&[]), Vec::<u8>::new());
}

#[test]
fn transform_sizes_are_powers_of_two() {
    assert_eq!(power_of_two_above(0), 1);
    assert_eq!(power_of_two_above(1), 1);
    assert_eq!(power_of_two_above(3), 4);
    assert_eq!(power_of_two_above(512), 512);
    assert_eq!(power_of_two_above(513), 1024);
    assert_eq!(fft_size_for(0), 1024);
    assert_eq!(fft_size_for(1025), 2048);
    assert_eq!(fft_size_for(8192), 8192);
    assert_eq!(fft_size_for(100_000), 16384);
}

#[test]
fn constellations_are_thinned_out() {
    let input: Vec<u32> = (0..10).collect();
    assert_eq!(decimate_constellation(&input, 3), vec![0, 3, 6]);
    assert_eq!(decimate_constellation(&input, 4), vec![0, 2, 4, 6]);
    assert_eq!(decimate_constellation(&input, 20), input);
    assert_eq!(decimate_constellation(&input, 0), Vec::<u32>::new());
    assert_eq!(decimate_constellation::<u32>(&[], 3), Vec::<u32>::new());
}

#[test]
fn waterfall_columns_stay_within_limits() {
    assert_eq!(waterfall_columns(100, 8192), 160);
    assert_eq!(waterfall_columns(300, 8192), 300);
    assert_eq!(waterfall_columns(5000, 8192), 768);
    assert_eq!(waterfall_columns(300, 200), 200);
    assert_eq!(waterfall_columns(300, 0), 1);
    assert_eq!(waterfall_bin(0, 300, 8192), 0);
    assert_eq!(waterfall_bin(150, 300, 8192), 4096);
    assert_eq!(waterfall_bin(299, 300, 8192), 8164);
}

#[test]
fn ranked_values_are_order_statistics() {
    let values = [5, -3, 9, 5, 0, 7, 7, -3];
    let mut sorted = values.to_vec();
    sorted.sort();
    for k in 0..values.len() {
        assert_eq!(ranked_value(&values, k), sorted[k]);
    }
}

#[test]
fn radii_keep_their_distance() {
    assert_eq!(tone_radii(0, 0, 0), ToneRadii { peak: 1, noise: 3, exclude: 2 });
    assert_eq!(tone_radii(4, 50, 8), ToneRadii { peak: 4, noise: 50, exclude: 8 });
    assert_eq!(tone_radii(4, 5, 2), ToneRadii { peak: 4, noise: 6, exclude: 5 });
}

#[test]
fn tones_are_measured_against_the_noise_around_them() {
    let mut levels: Vec<i32> = (0..64).map(|i| i % 7).collect();
    levels[20] = 100;
    levels[21] = 90;
    let radii = ToneRadii { peak: 1, noise: 10, exclude: 3 };
    let mut noise: Vec<i32> = (10..=30).filter(|i: &i32| (i - 20).abs() > 3).map(|i| i % 7).collect();
    noise.sort();
    assert_eq!(noise.len(), 14);
    assert_eq!(measure_tone(&levels, 20, radii), Some((100, noise[7])));
    let narrow = ToneRadii { peak: 1, noise: 6, exclude: 3 };
    assert_eq!(measure_tone(&levels, 20, narrow), None);
}

fn carrier(arfcn: i32) -> Carrier<f64> {
    Carrier {
        arfcn,
        carrier_hz: 947.4e6,
        carrier_offset_hz: 0.0,
        fcch_freq_hz: 67_708.0,
        within_bandwidth: true,
        sample_rate_ok: true,
        rate_positive: true,
        fcch_visible: true,
    }
}

#[test]
fn carriers_are_analysed_within_the_band() {
    let mut levels: Vec<i32> = vec![1; 64];
    levels[40] = 50;
    let radii = ToneRadii { peak: 1, noise: 10, exclude: 3 };
    let mut out: Gsm900Analysis<u32, u8, f64, f32> =
        analyze_pgsm900_downlink(carrier(62), &levels, Some(40), radii);
    assert!(out.in_pgsm_downlink && out.carrier_visible);
    assert_eq!(out.arfcn, Some(62));
    assert_eq!(out.fcch_peak_db, Some(50));
    assert_eq!(out.noise_floor_db, Some(1));
    assert!(out.tone_measured());
    assert!(!out.fcch_detected);
    out.record_tone(49.0, true);
    assert_eq!(out.fcch_snr_db, Some(49.0));
    assert!(out.fcch_detected);
    out.record_sch(SchSync {
        best_score: 3,
        correlation: Some(3),
        symbol_offset: Some(-1),
        sample_phase: Some(2),
        detected: true,
        decode: None,
    });
    assert_eq!(out.sch_correlation, Some(3));
    assert_eq!(out.sch_symbol_offset, Some(-1));
    assert_eq!(out.sch_sample_phase, Some(2));
    assert!(out.sch_detected);
}

#[test]
fn tones_out_of_view_are_not_measured() {
    let levels: Vec<i32> = vec![1; 64];
    let radii = ToneRadii { peak: 1, noise: 10, exclude: 3 };
    for arfcn in [0, 125, -5] {
        let out: Gsm900Analysis<u32, u8, f64, f32> =
            analyze_pgsm900_downlink(carrier(arfcn), &levels, Some(40), radii);
        assert!(!out.in_pgsm_downlink && !out.carrier_visible);
        assert_eq!(out.arfcn, None);
        assert!(!out.tone_measured());
    }
    for arfcn in [1, 124] {
        let out: Gsm900Analysis<u32, u8, f64, f32> =
            analyze_pgsm900_downlink(carrier(arfcn), &levels, Some(40), radii);
        assert!(out.tone_measured());
    }
    let none: Gsm900Analysis<u32, u8, f64, f32> =
        analyze_pgsm900_downlink(carrier(62), &levels, None, radii);
    assert!(!none.tone_measured());
    let coarse: Gsm900Analysis<u32, u8, f64, f32> =
        analyze_pgsm900_downlink(carrier(62), &levels[..31], Some(20), radii);
    assert!(!coarse.tone_measured());
}

#[test]
fn positions_fall_into_the_nearest_bin() {
    assert_eq!(nearest_bin(-3, 8), 0);
    assert_eq!(nearest_bin(5, 8), 5);
    assert_eq!(nearest_bin(8, 8), 7);
    assert_eq!(nearest_bin(3, 0), 0);
}

#[test]
fn rows_are_laid_out_in_whole_transforms() {
    assert_eq!(row_layout(100, 0), RowLayout { fft_size: 512, repeats: 1 });
    assert_eq!(row_layout(513, 1025), RowLayout { fft_size: 1024, repeats: 2 });
    assert_eq!(row_layout(512, 1024), RowLayout { fft_size: 512, repeats: 2 });
    assert_eq!(row_layout(512, 1_000_000_000), RowLayout { fft_size: 512, repeats: 256 });
}

#[test]
fn pixels_become_tones() {
    let image = TxImage { width: 4, height: 2, gray: vec![255, 2, 3, 4, 10, 20, 30, 40] };
    let lowest = image_row_tones(&image, 0, false, 512);
    assert_eq!(
        lowest,
        vec![
            Tone { bin: 510, level: 10, phase: 0 },
            Tone { bin: 511, level: 20, phase: 17 },
            Tone { bin: 0, level: 30, phase: 34 },
            Tone { bin: 1, level: 40, phase: 51 },
        ]
    );
    let top = image_row_tones(&image, 1, true, 512);
    assert_eq!(top, vec![Tone { bin: 510, level: 255, phase: 131 }]);
    assert_eq!(highest_level(&lowest), 40);
    assert_eq!(highest_level(&[]), 0);
}
