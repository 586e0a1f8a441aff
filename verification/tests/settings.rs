use spectrum::devices::device_entries;
use spectrum::frames::frame_offsets;
use spectrum::state::adjusted_bar_count;

#[test]
fn bar_count_stays_between_four_and_one_hundred_twenty_eight() {
    assert_eq!(adjusted_bar_count(32, 4), 36);
    assert_eq!(adjusted_bar_count(5, -4), 4);
    assert_eq!(adjusted_bar_count(126, 4), 128);
    assert_eq!(adjusted_bar_count(0, 0), 4);
}

#[test]
fn frames_slide_by_the_hop() {
    let (offsets, consumed) = frame_offsets(3_000, 2_048, 512);
    assert_eq!(offsets, vec![0, 512]);
    assert_eq!(consumed, 1_024);

    let (offsets, consumed) = frame_offsets(2_047, 2_048, 512);
    assert!(offsets.is_empty());
    assert_eq!(consumed, 0);

    let (offsets, consumed) = frame_offsets(2_048, 2_048, 512);
    assert_eq!(offsets, vec![0]);
    assert_eq!(consumed, 512);

    let (offsets, _) = frame_offsets(4_096, 2_048, 512);
    assert_eq!(offsets, vec![0, 512, 1_024, 1_536, 2_048]);
}

#[test]
fn devices_are_numbered_in_order() {
    let entries = device_entries(&vec![Some("mic".to_string()), None]);
    assert_eq!(entries, vec![(0, "mic".to_string()), (1, "Unknown Device".to_string())]);
}
