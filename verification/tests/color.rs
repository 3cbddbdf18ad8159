use sdr_waterfall::color::{color_for, interpolate_color_map};

fn anchors() -> Vec<[u8; 3]> {
    vec![[255, 200, 20], [250, 110, 20], [60, 0, 45], [30, 20, 50]]
}

#[test]
fn table_has_the_size_asked_for() {
    assert_eq!(interpolate_color_map(anchors(), 121).len(), 121);
    assert_eq!(interpolate_color_map(anchors(), 0).len(), 0);
    assert_eq!(interpolate_color_map(anchors(), 1), vec![[255, 200, 20]]);
}

#[test]
fn table_begins_at_the_first_anchor() {
    let map = interpolate_color_map(anchors(), 121);
    assert_eq!(map[0], [255, 200, 20]);
}

#[test]
fn table_mixes_neighbouring_anchors() {
    let map = interpolate_color_map(anchors(), 121);
    // Entry 1 lies 3 parts of 121 from the first anchor to the second.
    assert_eq!(map[1], [254, 197, 20]);
    // Entry 40 lies 120 parts of 121 from the first anchor to the second.
    assert_eq!(map[40], [250, 110, 20]);
    // Entry 41 lies 2 parts of 121 from the second anchor to the third.
    assert_eq!(map[41], [246, 108, 20]);
    // Entry 120 lies 118 parts of 121 from the third anchor to the last.
    assert_eq!(map[120], [30, 19, 49]);
}

#[test]
fn table_hits_anchors_where_the_spacing_is_whole() {
    let map = interpolate_color_map(vec![[0, 0, 0], [100, 50, 200], [0, 250, 100]], 4);
    assert_eq!(map, vec![[0, 0, 0], [50, 25, 100], [100, 50, 200], [50, 150, 150]]);
}

#[test]
fn table_of_one_anchor_is_that_colour() {
    let map = interpolate_color_map(vec![[7, 8, 9]], 5);
    assert_eq!(map, vec![[7, 8, 9]; 5]);
}

#[test]
fn table_is_the_same_every_time() {
    assert_eq!(interpolate_color_map(anchors(), 121), interpolate_color_map(anchors(), 121));
}

#[test]
fn colour_goes_by_whole_decibels() {
    let map = interpolate_color_map(anchors(), 121);
    assert_eq!(color_for(&map, 0), map[0]);
    assert_eq!(color_for(&map, -999), map[0]);
    assert_eq!(color_for(&map, -1000), map[1]);
    assert_eq!(color_for(&map, -57_300), map[57]);
    assert_eq!(color_for(&map, -120_000), map[120]);
}

#[test]
fn colour_is_held_inside_the_table() {
    let map = interpolate_color_map(anchors(), 121);
    assert_eq!(color_for(&map, 5), map[0]);
    assert_eq!(color_for(&map, i32::MAX), map[0]);
    assert_eq!(color_for(&map, -121_000), map[120]);
    assert_eq!(color_for(&map, i32::MIN), map[120]);
}
