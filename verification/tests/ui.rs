use sdr_waterfall::color::interpolate_color_map;
use sdr_waterfall::dsp::{FftResult, FFT_SIZE};
use sdr_waterfall::ui::{
    retune_shift, Ui, UiEvent, BUF_SIZE, CHANNELS, COLOR_MAP_SIZE, FREQUENCY_STEP, HEIGHT, PITCH,
    SPECTRUM_OFFSET, WATERFALL_OFFSET, WIDTH,
};

const ROW: usize = 3072;

fn result(frequency: u32, levels: Vec<i32>) -> FftResult {
    FftResult { avg: 0, center_frequency: frequency, log_magnitudes: levels, peak: None }
}

fn pixel(ui: &Ui, row: usize, column: usize) -> [u8; 3] {
    let at = row * ROW + column * 3;
    [ui.video_buffer[at], ui.video_buffer[at + 1], ui.video_buffer[at + 2]]
}

#[test]
fn geometry_fits_together() {
    assert_eq!(BUF_SIZE, (WIDTH * HEIGHT * CHANNELS) as usize);
    assert_eq!(PITCH, WIDTH * CHANNELS);
    assert_eq!(WIDTH as usize, FFT_SIZE);
    assert!(SPECTRUM_OFFSET + 240 < WATERFALL_OFFSET);
    assert!(WATERFALL_OFFSET < HEIGHT);
    assert_eq!(FREQUENCY_STEP, 100_000);
}

#[test]
fn lower_frequency_moves_the_picture_right() {
    assert_eq!(retune_shift(100_000_000, 99_900_000, 2_400_000), 43);
}

#[test]
fn higher_frequency_moves_the_picture_left() {
    assert_eq!(retune_shift(99_900_000, 100_000_000, 2_400_000), -43);
}

#[test]
fn there_and_back_is_no_move() {
    for (a, b) in [(100_000_000u32, 99_900_000u32), (0, u32::MAX), (5, 6), (433_000_000, 433_000_001)] {
        assert_eq!(retune_shift(a, b, 2_400_000) + retune_shift(b, a, 2_400_000), 0);
    }
}

#[test]
fn whole_columns_are_exact() {
    // 1024 columns span 2 400 000 Hz: 75 columns span 175 781.25 Hz, so
    // 32 columns span 75 000 Hz.
    assert_eq!(retune_shift(100_075_000, 100_000_000, 2_400_000), 32);
    assert_eq!(retune_shift(100_000_000, 100_075_000, 2_400_000), -32);
    assert_eq!(retune_shift(7, 7, 2_400_000), 0);
    assert_eq!(retune_shift(2_400_000, 0, 2_400_000), 1024);
}

#[test]
fn move_is_rounded_to_the_nearest_column() {
    // A column spans 2343.75 Hz.
    assert_eq!(retune_shift(1_171, 0, 2_400_000), 0);
    assert_eq!(retune_shift(1_172, 0, 2_400_000), 1);
    assert_eq!(retune_shift(0, 1_172, 2_400_000), -1);
    // Half a column is rounded away from zero.
    assert_eq!(retune_shift(1, 0, 2_048), 1);
    assert_eq!(retune_shift(0, 1, 2_048), -1);
    assert_eq!(retune_shift(u32::MAX, 0, 1), 1024 * i64::from(u32::MAX));
}

#[test]
fn new_picture_is_black() {
    let ui = Ui::new(100_000_000, 2_400_000);
    assert_eq!(ui.center_frequency, 100_000_000);
    assert_eq!(ui.current_frequency, 100_000_000);
    assert_eq!(ui.sample_rate, 2_400_000);
    assert_eq!(ui.video_buffer, vec![0u8; BUF_SIZE]);
    assert_eq!(ui.color_map.len(), COLOR_MAP_SIZE);
    assert_eq!(
        ui.color_map,
        interpolate_color_map(
            vec![[255, 200, 20], [250, 110, 20], [60, 0, 45], [30, 20, 50]],
            121
        )
    );
}

#[test]
fn keys_step_the_frequency() {
    let mut ui = Ui::new(100_000_000, 2_400_000);
    assert!(ui.handle_event(UiEvent::TuneUp));
    assert_eq!(ui.center_frequency, 100_100_000);
    assert!(ui.handle_event(UiEvent::TuneDown));
    assert!(ui.handle_event(UiEvent::TuneDown));
    assert_eq!(ui.center_frequency, 99_900_000);
    assert!(ui.handle_event(UiEvent::Other));
    assert_eq!(ui.center_frequency, 99_900_000);
    assert_eq!(ui.current_frequency, 100_000_000);
}

#[test]
fn quit_ends_the_picture() {
    let mut ui = Ui::new(100_000_000, 2_400_000);
    assert!(!ui.handle_event(UiEvent::Quit));
    assert_eq!(ui.center_frequency, 100_000_000);
}

#[test]
fn steps_out_of_range_are_not_accepted() {
    let low = Ui::new(99_999, 2_400_000);
    assert!(!low.accepts(UiEvent::TuneDown));
    assert!(low.accepts(UiEvent::TuneUp));
    assert!(low.accepts(UiEvent::Quit));
    let edge = Ui::new(100_000, 2_400_000);
    assert!(edge.accepts(UiEvent::TuneDown));
    let high = Ui::new(u32::MAX - 99_999, 2_400_000);
    assert!(!high.accepts(UiEvent::TuneUp));
    assert!(high.accepts(UiEvent::TuneDown));
    assert!(high.accepts(UiEvent::Other));
    assert!(Ui::new(u32::MAX - 100_000, 2_400_000).accepts(UiEvent::TuneUp));
}

#[test]
fn spectrum_is_painted_into_the_first_waterfall_row() {
    let mut ui = Ui::new(100_000_000, 2_400_000);
    let levels: Vec<i32> = (0..FFT_SIZE as i32).map(|i| -(i % 121) * 1000 - 500).collect();
    ui.update_video_buffer(result(100_000_000, levels));
    for column in 0..FFT_SIZE {
        assert_eq!(pixel(&ui, 300, column), ui.color_map[column % 121]);
    }
}

#[test]
fn waterfall_moves_down_a_row_at_a_time() {
    let mut ui = Ui::new(100_000_000, 2_400_000);
    ui.update_video_buffer(result(100_000_000, vec![0; FFT_SIZE]));
    ui.update_video_buffer(result(100_000_000, vec![-60_000; FFT_SIZE]));
    ui.update_video_buffer(result(100_000_000, vec![-120_000; FFT_SIZE]));
    for column in [0usize, 1, 500, 1023] {
        assert_eq!(pixel(&ui, 300, column), ui.color_map[120]);
        assert_eq!(pixel(&ui, 301, column), ui.color_map[60]);
        assert_eq!(pixel(&ui, 302, column), ui.color_map[0]);
        assert_eq!(pixel(&ui, 303, column), [0, 0, 0]);
        assert_eq!(pixel(&ui, 799, column), [0, 0, 0]);
    }
}

#[test]
fn last_waterfall_row_is_lost() {
    let mut ui = Ui::new(100_000_000, 2_400_000);
    let last = 799 * ROW;
    for byte in &mut ui.video_buffer[last..last + ROW] {
        *byte = 9;
    }
    for byte in &mut ui.video_buffer[last - ROW..last] {
        *byte = 8;
    }
    ui.update_video_buffer(result(100_000_000, vec![0; FFT_SIZE]));
    assert_eq!(&ui.video_buffer[last..last + ROW], &[8u8; ROW][..]);
    assert_eq!(&ui.video_buffer[last - ROW..last], &[0u8; ROW][..]);
}

#[test]
fn band_shows_gridlines_and_trace() {
    let mut ui = Ui::new(100_000_000, 2_400_000);
    for byte in &mut ui.video_buffer[0..300 * ROW] {
        *byte = 200;
    }
    // Every level at -50 dB: the trace runs 100 rows below the row of full scale.
    ui.update_video_buffer(result(100_000_000, vec![-50_000; FFT_SIZE]));
    for row in 0..300usize {
        for column in [0usize, 3, 4, 510, 1023] {
            let expected = if row == 130 {
                [210, 0, 120]
            } else if [70, 110, 150, 190, 230].contains(&row) {
                [55, 55, 55]
            } else {
                [0, 0, 0]
            };
            assert_eq!(pixel(&ui, row, column), expected);
        }
    }
}

#[test]
fn trace_goes_by_the_mean_of_four_columns() {
    let mut ui = Ui::new(100_000_000, 2_400_000);
    let mut levels = vec![-120_000i32; FFT_SIZE];
    // Mean -10.6 dB: 21 rows down.
    levels[8] = -10_000;
    levels[9] = -11_000;
    levels[10] = -10_400;
    levels[11] = -11_000;
    // Full scale.
    levels[12] = 0;
    levels[13] = 0;
    levels[14] = 0;
    levels[15] = 0;
    // Mean -20 dB: on the first gridline.
    levels[16] = -20_000;
    levels[17] = -20_000;
    levels[18] = -20_000;
    levels[19] = -20_000;
    ui.update_video_buffer(result(100_000_000, levels));
    for column in 8..12 {
        assert_eq!(pixel(&ui, 51, column), [210, 0, 120]);
        assert_eq!(pixel(&ui, 50, column), [0, 0, 0]);
        assert_eq!(pixel(&ui, 52, column), [0, 0, 0]);
    }
    for column in 12..16 {
        assert_eq!(pixel(&ui, 30, column), [210, 0, 120]);
    }
    for column in 16..20 {
        assert_eq!(pixel(&ui, 70, column), [210, 0, 120]);
    }
    assert_eq!(pixel(&ui, 70, 20), [55, 55, 55]);
    for column in [0usize, 7, 20, 1023] {
        assert_eq!(pixel(&ui, 270, column), [210, 0, 120]);
        assert_eq!(pixel(&ui, 30, column), [0, 0, 0]);
    }
}

#[test]
fn update_keeps_the_tuning() {
    let mut ui = Ui::new(100_000_000, 2_400_000);
    ui.update_video_buffer(result(123, vec![0; FFT_SIZE]));
    assert_eq!(ui.center_frequency, 100_000_000);
    assert_eq!(ui.current_frequency, 100_000_000);
    assert_eq!(ui.sample_rate, 2_400_000);
    assert_eq!(ui.video_buffer.len(), BUF_SIZE);
}

#[test]
fn retune_to_a_lower_frequency_reveals_the_left_edge() {
    let mut ui = Ui::new(100_000_000, 2_400_000);
    for (k, byte) in ui.video_buffer.iter_mut().enumerate() {
        *byte = (k % 250 + 1) as u8;
    }
    let before = ui.video_buffer.clone();
    ui.retune(99_900_000);
    assert_eq!(ui.current_frequency, 99_900_000);
    assert_eq!(ui.center_frequency, 100_000_000);
    for row in [0usize, 299, 300, 555, 799] {
        let start = row * ROW;
        assert_eq!(&ui.video_buffer[start..start + 129], &[0u8; 129][..]);
        assert_eq!(&ui.video_buffer[start + 129..start + ROW], &before[start..start + ROW - 129]);
    }
}

#[test]
fn retune_to_a_higher_frequency_reveals_the_right_edge() {
    let mut ui = Ui::new(100_000_000, 2_400_000);
    for (k, byte) in ui.video_buffer.iter_mut().enumerate() {
        *byte = (k % 250 + 1) as u8;
    }
    let before = ui.video_buffer.clone();
    ui.retune(100_100_000);
    for row in [0usize, 300, 799] {
        let start = row * ROW;
        assert_eq!(&ui.video_buffer[start..start + ROW - 129], &before[start + 129..start + ROW]);
        assert_eq!(&ui.video_buffer[start + ROW - 129..start + ROW], &[0u8; 129][..]);
    }
}

#[test]
fn retune_beyond_the_band_clears_the_picture() {
    let mut ui = Ui::new(100_000_000, 2_400_000);
    for byte in ui.video_buffer.iter_mut() {
        *byte = 1;
    }
    ui.retune(96_000_000);
    assert_eq!(ui.video_buffer, vec![0u8; BUF_SIZE]);
    for byte in ui.video_buffer.iter_mut() {
        *byte = 1;
    }
    ui.retune(u32::MAX);
    assert_eq!(ui.video_buffer, vec![0u8; BUF_SIZE]);
    assert_eq!(ui.current_frequency, u32::MAX);
}

#[test]
fn result_of_the_same_frequency_is_only_added() {
    let mut ui = Ui::new(100_000_000, 2_400_000);
    let mut other = Ui::new(100_000_000, 2_400_000);
    ui.update_video_buffer(result(100_000_000, vec![-7_000; FFT_SIZE]));
    other.receive(result(100_000_000, vec![-7_000; FFT_SIZE]));
    ui.update_video_buffer(result(100_000_000, vec![-9_000; FFT_SIZE]));
    other.receive(result(100_000_000, vec![-9_000; FFT_SIZE]));
    assert_eq!(ui.video_buffer, other.video_buffer);
    assert_eq!(other.current_frequency, 100_000_000);
}

#[test]
fn result_of_another_frequency_moves_the_history_first() {
    let mut ui = Ui::new(100_000_000, 2_400_000);
    let mut levels = vec![-120_000i32; FFT_SIZE];
    levels[500] = 0;
    ui.receive(result(100_000_000, levels.clone()));
    assert_eq!(pixel(&ui, 300, 500), ui.color_map[0]);
    ui.receive(result(99_900_000, levels));
    assert_eq!(ui.current_frequency, 99_900_000);
    // The new spectrum stands where it came in, the old one 43 columns to the right.
    assert_eq!(pixel(&ui, 300, 500), ui.color_map[0]);
    assert_eq!(pixel(&ui, 301, 543), ui.color_map[0]);
    assert_eq!(pixel(&ui, 301, 500), ui.color_map[120]);
    assert_eq!(pixel(&ui, 301, 42), [0, 0, 0]);
    assert_eq!(pixel(&ui, 301, 43), ui.color_map[120]);
}
