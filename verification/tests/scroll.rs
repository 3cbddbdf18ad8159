use sdr_waterfall::rotate::shift;
use sdr_waterfall::scroll::roll;

fn ramp(len: usize) -> Vec<u8> {
    (0..len).map(|i| (i % 251 + 1) as u8).collect()
}

#[test]
fn roll_moves_rows_down_and_clears_the_first() {
    let before = ramp(48);
    let mut buf = before.clone();
    roll(&mut buf, vec![4, 4, 3], 1, 1);
    assert_eq!(&buf[0..12], &[0u8; 12]);
    assert_eq!(&buf[12..48], &before[0..36]);
}

#[test]
fn roll_moves_rows_up_and_clears_the_last() {
    let before = ramp(48);
    let mut buf = before.clone();
    roll(&mut buf, vec![4, 4, 3], 1, -1);
    assert_eq!(&buf[0..36], &before[12..48]);
    assert_eq!(&buf[36..48], &[0u8; 12]);
}

#[test]
fn roll_along_columns_works_row_by_row() {
    let before = ramp(48);
    let mut buf = before.clone();
    roll(&mut buf, vec![4, 4, 3], 2, 1);
    for row in 0..4 {
        let start = row * 12;
        assert_eq!(&buf[start..start + 3], &[0u8; 3]);
        assert_eq!(&buf[start + 3..start + 12], &before[start..start + 9]);
    }
    let mut back = before.clone();
    roll(&mut back, vec![4, 4, 3], 2, -2);
    for row in 0..4 {
        let start = row * 12;
        assert_eq!(&back[start..start + 6], &before[start + 6..start + 12]);
        assert_eq!(&back[start + 6..start + 12], &[0u8; 6]);
    }
}

#[test]
fn roll_along_channels_moves_single_bytes() {
    let mut buf: Vec<u8> = vec![1, 2, 3, 4, 5, 6];
    roll(&mut buf, vec![2, 3], 2, 1);
    assert_eq!(buf, vec![0, 1, 2, 0, 4, 5]);
}

#[test]
fn roll_by_nothing_changes_nothing() {
    let before = ramp(48);
    let mut buf = before.clone();
    roll(&mut buf, vec![4, 4, 3], 2, 0);
    assert_eq!(buf, before);
}

#[test]
fn roll_by_the_whole_axis_clears_everything() {
    let mut up = ramp(48);
    roll(&mut up, vec![4, 4, 3], 1, 4);
    assert_eq!(up, vec![0u8; 48]);
    let mut down = ramp(48);
    roll(&mut down, vec![4, 4, 3], 2, -4);
    assert_eq!(down, vec![0u8; 48]);
}

#[test]
fn roll_leaves_what_lies_behind_the_shape() {
    let before = ramp(20);
    let mut buf = before.clone();
    roll(&mut buf, vec![2, 2, 3], 1, 1);
    assert_eq!(&buf[0..6], &[0u8; 6]);
    assert_eq!(&buf[6..12], &before[0..6]);
    assert_eq!(&buf[12..20], &before[12..20]);
}

#[test]
fn roll_of_an_empty_shape_changes_nothing() {
    let before = ramp(10);
    let mut buf = before.clone();
    roll(&mut buf, vec![0, 4, 3], 2, 1);
    assert_eq!(buf, before);
    roll(&mut buf, vec![4, 0], 1, -2);
    assert_eq!(buf, before);
}

#[test]
fn roll_keeps_the_length() {
    let mut buf = ramp(48);
    roll(&mut buf, vec![4, 4, 3], 1, 2);
    assert_eq!(buf.len(), 48);
}

#[test]
fn shift_turns_a_flat_buffer() {
    let mut buf: Vec<u8> = vec![1, 2, 3, 4, 5];
    shift(&mut buf, vec![5], 1, 2);
    assert_eq!(buf, vec![4, 5, 1, 2, 3]);
    shift(&mut buf, vec![5], 1, -1);
    assert_eq!(buf, vec![5, 1, 2, 3, 4]);
}

#[test]
fn shift_and_shift_back_restore_the_buffer() {
    let before = ramp(48);
    for axis in 1..=3usize {
        for d in -3i32..=3 {
            let mut buf = before.clone();
            shift(&mut buf, vec![4, 4, 3], axis, d);
            shift(&mut buf, vec![4, 4, 3], axis, -d);
            assert_eq!(buf, before);
        }
    }
}

#[test]
fn shift_along_columns_turns_every_row() {
    let before = ramp(48);
    let mut buf = before.clone();
    shift(&mut buf, vec![4, 4, 3], 2, 1);
    for row in 0..4 {
        let start = row * 12;
        assert_eq!(&buf[start..start + 3], &before[start + 9..start + 12]);
        assert_eq!(&buf[start + 3..start + 12], &before[start..start + 9]);
    }
}

#[test]
fn shift_by_the_whole_axis_changes_nothing() {
    let before = ramp(48);
    let mut buf = before.clone();
    shift(&mut buf, vec![4, 4, 3], 1, 4);
    assert_eq!(buf, before);
    shift(&mut buf, vec![4, 4, 3], 2, -9);
    let mut once = before.clone();
    shift(&mut once, vec![4, 4, 3], 2, -1);
    assert_eq!(buf, once);
}

#[test]
fn shift_centers_a_spectrum() {
    let mut bins: Vec<i32> = (0..8).collect();
    shift(&mut bins, vec![8], 1, 4);
    assert_eq!(bins, vec![4, 5, 6, 7, 0, 1, 2, 3]);
}

#[test]
fn shift_loses_nothing() {
    let before = ramp(48);
    let mut buf = before.clone();
    shift(&mut buf, vec![4, 4, 3], 1, 3);
    let mut sorted = buf.clone();
    sorted.sort();
    let mut expected = before.clone();
    expected.sort();
    assert_eq!(sorted, expected);
}
