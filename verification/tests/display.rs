use spectrum::bins::BinRange;
use spectrum::display::{
    aggregation_window, bar_glyph, bar_span, centered_rect, level_text, place_labels, visualizer_regions, Area,
    BarGlyph,
};

/// The peak of the values that bar `index` of `bar_count` shows.
fn aggregated_value(values: &[f32], index: usize, bar_count: usize) -> f32 {
    let w = aggregation_window(values.len(), index, bar_count);
    values[w.start..w.end].iter().copied().fold(0.0, f32::max)
}

#[test]
fn aggregation_preserves_the_peak_in_each_visible_bar() {
    assert_eq!(aggregated_value(&[0.1, 0.8, 0.3, 0.5], 0, 2), 0.8);
    assert_eq!(aggregated_value(&[0.1, 0.8, 0.3, 0.5], 1, 2), 0.5);
}

#[test]
fn aggregation_windows_give_each_bar_at_least_one_value() {
    assert_eq!(aggregation_window(0, 3, 5), BinRange { start: 0, end: 0 });
    assert_eq!(aggregation_window(3, 0, 5), BinRange { start: 0, end: 1 });
    assert_eq!(aggregation_window(3, 1, 5), BinRange { start: 0, end: 1 });
    assert_eq!(aggregation_window(3, 4, 5), BinRange { start: 2, end: 3 });
    assert_eq!(aggregation_window(10, 2, 3), BinRange { start: 6, end: 10 });
}

#[test]
fn bar_spans_tile_the_area() {
    assert_eq!(bar_span(5, 10, 0, 3), (5, 8));
    assert_eq!(bar_span(5, 10, 1, 3), (8, 11));
    assert_eq!(bar_span(5, 10, 2, 3), (11, 15));
    for index in 0..7u16 {
        let (start, end) = bar_span(2, 30, index, 7);
        assert!(start < end);
        if index + 1 < 7 {
            assert_eq!(end, bar_span(2, 30, index + 1, 7).0);
        }
    }
}

#[test]
fn labels_are_placed_without_overlap() {
    let labels = vec![(4, 0), (5, 15), (4, 26), (5, 35), (5, 39)];
    assert_eq!(place_labels(40, &labels), vec![Some(0), Some(13), Some(24), Some(33), None]);

    assert_eq!(place_labels(3, &vec![(4, 0), (2, 2)]), vec![None, Some(1)]);
    assert_eq!(place_labels(10, &vec![(4, 1), (4, 3)]), vec![Some(0), None]);
}

#[test]
fn glyphs_follow_the_filled_eighths() {
    assert_eq!(bar_glyph(1), BarGlyph::OneEighth);
    assert_eq!(bar_glyph(4), BarGlyph::Half);
    assert_eq!(bar_glyph(7), BarGlyph::SevenEighths);
    assert_eq!(bar_glyph(8), BarGlyph::Full);
    assert_eq!(bar_glyph(0), BarGlyph::Full);
}

#[test]
fn level_text_joins_blocks_and_dots() {
    assert_eq!(level_text(&vec![]), "");
    assert_eq!(level_text(&vec![0]), ".");
    assert_eq!(level_text(&vec![3, 0, 20]), "\u{25a0}\u{25a0}\u{25a0} . \u{25a0}\u{25a0}\u{25a0}\u{25a0}\u{25a0}\u{25a0}\u{25a0}\u{25a0}\u{25a0}\u{25a0}\u{25a0}\u{25a0}");
}

#[test]
fn popup_is_centred_in_the_area() {
    let area = Area { x: 0, y: 0, width: 100, height: 50 };
    assert_eq!(centered_rect(60, 40, area), Area { x: 20, y: 15, width: 60, height: 20 });
}

#[test]
fn spectrum_screen_keeps_a_border_and_an_axis_row() {
    let (inner, bars, axis) = visualizer_regions(Area { x: 0, y: 0, width: 80, height: 24 });
    assert_eq!(inner, Area { x: 1, y: 1, width: 78, height: 22 });
    assert_eq!(bars, Area { x: 1, y: 1, width: 78, height: 21 });
    assert_eq!(axis, Area { x: 1, y: 22, width: 78, height: 1 });

    let (inner, _, _) = visualizer_regions(Area { x: 5, y: 7, width: 1, height: 0 });
    assert_eq!(inner, Area { x: 6, y: 7, width: 0, height: 0 });
}

#[test]
fn frequency_axis_of_forty_columns() {
    // 20Hz, 250Hz, 2kHz, 10kHz and 20kHz centred on a logarithmic scale.
    let min_log = 20.0f32.log10();
    let log_span = 20_000.0f32.log10() - min_log;
    let labels: Vec<(usize, usize)> = [("20Hz", 20.0f32), ("250Hz", 250.0), ("2kHz", 2_000.0), ("10kHz", 10_000.0), ("20kHz", 20_000.0)]
        .iter()
        .map(|(label, frequency)| {
            let position = ((frequency.log10() - min_log) / log_span * 39.0).round() as usize;
            (label.len(), position)
        })
        .collect();
    assert_eq!(labels, vec![(4, 0), (5, 14), (4, 26), (5, 35), (5, 39)]);
    assert_eq!(place_labels(40, &labels), vec![Some(0), Some(12), Some(24), Some(33), None]);
}

#[test]
fn popup_stays_inside_its_area() {
    for (px, py) in [(0u16, 0u16), (60, 40), (100, 100), (33, 77)] {
        let area = Area { x: 3, y: 2, width: 71, height: 29 };
        let c = centered_rect(px, py, area);
        assert!(area.x <= c.x && c.x + c.width <= area.x + area.width);
        assert!(area.y <= c.y && c.y + c.height <= area.y + area.height);
    }
}
