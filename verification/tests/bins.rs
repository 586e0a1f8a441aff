use spectrum::bins::{BinLayout, BinRange, FrequencyBinner};

/// Lays out `num_bars` bars over the audible range of an FFT of `fft_size`
/// samples at `sample_rate`, the way the analyser does.
fn audible_binner(num_bars: usize, sample_rate: f32, fft_size: usize) -> FrequencyBinner {
    let bin_width = sample_rate / fft_size as f32;
    let min_frequency = 20.0f32;
    let max_frequency = 20_000.0f32.min(sample_rate / 2.0);
    let raw_first = (min_frequency / bin_width).ceil() as usize;
    let raw_end = (max_frequency / bin_width).ceil() as usize;
    let layout = FrequencyBinner::layout(num_bars, fft_size, raw_first, raw_end);
    let min_log = min_frequency.log10();
    let max_log = max_frequency.max(min_frequency).log10();
    let targets: Vec<usize> = (0..layout.bar_count - 1)
        .map(|bar_index| {
            let progress = (bar_index + 1) as f32 / layout.bar_count as f32;
            let target_frequency = 10.0f32.powf(min_log + (max_log - min_log) * progress);
            (target_frequency / bin_width).round() as usize
        })
        .collect();
    FrequencyBinner::new(&layout, &targets)
}

/// The root mean square of the magnitudes in each bar's window.
fn bar_levels(binner: &FrequencyBinner, magnitudes: &[f32]) -> Vec<f32> {
    binner
        .sample_windows(magnitudes.len())
        .iter()
        .map(|w| {
            let slice = &magnitudes[w.start..w.end];
            if slice.is_empty() {
                0.0
            } else {
                (slice.iter().map(|m| m * m).sum::<f32>() / slice.len() as f32).sqrt()
            }
        })
        .collect()
}

#[test]
fn logarithmic_ranges_cover_the_audible_spectrum_without_gaps() {
    let binner = audible_binner(10, 48_000.0, 2_048);
    let ranges = binner.ranges();

    assert_eq!(binner.num_bars(), 10);
    assert!(ranges.windows(2).all(|pair| pair[0].end == pair[1].start));
    assert!(ranges.iter().all(|range| range.start < range.end));
}

#[test]
fn fewer_bars_aggregate_all_input_energy() {
    let binner = audible_binner(10, 48_000.0, 2_048);
    let mut spectrum = vec![0.0f32; 1_024];
    spectrum[1] = 1.0;
    spectrum[800] = 1.0;
    let bins = bar_levels(&binner, &spectrum);

    assert!(bins.first().is_some_and(|value| *value > 0.0));
    assert!(bins.last().is_some_and(|value| *value > 0.0));
}

#[test]
fn layout_clamps_the_bins_into_the_spectrum() {
    let l = FrequencyBinner::layout(40, 2_048, 1, 854);
    assert_eq!(l, BinLayout { spectrum_len: 1_024, first_bin: 1, end_bin: 854, bar_count: 40 });

    let l = FrequencyBinner::layout(40, 2_048, 0, 5_000);
    assert_eq!(l, BinLayout { spectrum_len: 1_024, first_bin: 1, end_bin: 1_024, bar_count: 40 });

    let l = FrequencyBinner::layout(40, 16, 3, 6);
    assert_eq!(l, BinLayout { spectrum_len: 8, first_bin: 3, end_bin: 6, bar_count: 3 });

    let l = FrequencyBinner::layout(0, 16, 3, 6);
    assert_eq!(l.bar_count, 1);

    let l = FrequencyBinner::layout(10, 16, 20, 2);
    assert_eq!(l, BinLayout { spectrum_len: 8, first_bin: 8, end_bin: 8, bar_count: 1 });
}

#[test]
fn targets_are_clamped_to_keep_every_bar_non_empty() {
    let layout = BinLayout { spectrum_len: 16, first_bin: 2, end_bin: 10, bar_count: 4 };
    let binner = FrequencyBinner::new(&layout, &vec![0, 9, 5]);
    assert_eq!(
        binner.ranges(),
        vec![
            BinRange { start: 2, end: 3 },
            BinRange { start: 3, end: 8 },
            BinRange { start: 8, end: 9 },
            BinRange { start: 9, end: 10 },
        ]
    );

    let binner = FrequencyBinner::new(&layout, &vec![4, 6, 8]);
    assert_eq!(
        binner.ranges(),
        vec![
            BinRange { start: 2, end: 4 },
            BinRange { start: 4, end: 6 },
            BinRange { start: 6, end: 8 },
            BinRange { start: 8, end: 10 },
        ]
    );
}

#[test]
fn a_single_bar_spans_everything_even_when_empty() {
    let layout = BinLayout { spectrum_len: 8, first_bin: 8, end_bin: 8, bar_count: 1 };
    let binner = FrequencyBinner::new(&layout, &vec![]);
    assert_eq!(binner.num_bars(), 1);
    assert_eq!(binner.ranges(), vec![BinRange { start: 8, end: 8 }]);
}

#[test]
fn every_audible_bin_lies_in_exactly_one_bar() {
    let binner = audible_binner(40, 48_000.0, 2_048);
    let ranges = binner.ranges();
    assert_eq!(ranges.first().unwrap().start, 1);
    assert_eq!(ranges.last().unwrap().end, 854);
    for bin in 1..854 {
        assert_eq!(ranges.iter().filter(|r| r.start <= bin && bin < r.end).count(), 1);
    }
}

#[test]
fn windows_are_cut_at_the_end_of_a_short_spectrum() {
    let layout = BinLayout { spectrum_len: 16, first_bin: 2, end_bin: 10, bar_count: 4 };
    let binner = FrequencyBinner::new(&layout, &vec![4, 6, 8]);
    assert_eq!(
        binner.sample_windows(7),
        vec![
            BinRange { start: 2, end: 4 },
            BinRange { start: 4, end: 6 },
            BinRange { start: 6, end: 7 },
            BinRange { start: 7, end: 7 },
        ]
    );
    assert_eq!(binner.sample_windows(16), binner.ranges());
}
