//! The picture: a waterfall of past spectra below a band that shows the
//! latest spectrum as a trace over gridlines.
//!
//! The frame is `HEIGHT` rows of `WIDTH` pixels of `CHANNELS` bytes, row by
//! row. Rows `0..WATERFALL_OFFSET` are the band, the rows from
//! `WATERFALL_OFFSET` on are the waterfall, newest spectrum first.

use vstd::prelude::*;
use vstd::arithmetic::div_mod::lemma_fundamental_div_mod_converse;
use crate::color::{color_for, color_index, interpolate_color_map, interpolated};
use crate::dsp::{FftResult, FFT_SIZE, FLOOR};
use crate::scroll::{
    chunk_count, chunk_len, element_index, extent, lemma_extent_single, lemma_extent_split,
    lemma_roll_by_nothing, lemma_roll_moves_slices, roll, rolled, slice_len, volume,
};

verus! {

/// Pixels in a row of the frame; one for each bin of a spectrum.
pub const WIDTH: u32 = 1024;

/// Rows of the frame.
pub const HEIGHT: u32 = 800;

/// Bytes of a pixel: red, green, blue.
pub const CHANNELS: u32 = 3;

/// Bytes of the frame.
pub const BUF_SIZE: usize = 2_457_600;

/// Bytes of a row.
pub const PITCH: u32 = 3072;

/// Row of the band at which a level of 0 dBFS is drawn.
pub const SPECTRUM_OFFSET: u32 = 30;

/// First row of the waterfall.
pub const WATERFALL_OFFSET: u32 = 300;

/// Entries of the colour table: one for each whole decibel from full scale
/// down to the floor.
pub const COLOR_MAP_SIZE: usize = 121;

/// By how many Hz a key press moves the frequency asked for.
pub const FREQUENCY_STEP: u32 = 100_000;

/// Value of every byte of a gridline.
pub const GRID_SHADE: u8 = 55;

/// The quotient `n / d` rounded to the nearest integer, a half rounded up.
pub open spec fn rounded_quotient(n: int, d: int) -> int {
    (2 * n + d) / (2 * d)
}

/// By how many columns the waterfall has to move when the receiver goes from
/// frequency `previous` to frequency `current` at `sample_rate`, so that
/// every signal stays in the column of its frequency. A row spans
/// `sample_rate` Hz; a lower frequency moves the picture to the right, which
/// is counted positive.
pub open spec fn retune_columns(previous: int, current: int, sample_rate: int) -> int {
    let df = previous - current;
    if df >= 0 {
        rounded_quotient(WIDTH * df, sample_rate)
    } else {
        -rounded_quotient(WIDTH * (-df), sample_rate)
    }
}

/// By how many columns the waterfall has to move when the receiver goes from
/// frequency `previous` to frequency `current`.
pub fn retune_shift(previous: u32, current: u32, sample_rate: u32) -> (columns: i64)
    requires
        sample_rate > 0,
    ensures
        columns == retune_columns(previous as int, current as int, sample_rate as int),
{
    let down: bool = previous >= current;
    let df: u64 = if down {
        (previous - current) as u64
    } else {
        (current - previous) as u64
    };
    assert(df <= u32::MAX);
    let twice: u64 = 2048u64 * df + sample_rate as u64;
    assert(twice == 2 * (WIDTH * df) + sample_rate);
    let divisor: u64 = 2 * (sample_rate as u64);
    let quotient: u64 = twice / divisor;
    proof {
        assert((twice as int) / (divisor as int) <= twice) by (nonlinear_arith)
            requires
                divisor > 0,
                twice >= 0,
        ;
    }
    if down {
        quotient as i64
    } else {
        -(quotient as i64)
    }
}

/// Going from one frequency to another and back moves the waterfall by as
/// many columns to one side as to the other.
pub proof fn lemma_retune_round_trip(previous: int, current: int, sample_rate: int)
    requires
        sample_rate > 0,
    ensures
        retune_columns(previous, current, sample_rate) + retune_columns(
            current,
            previous,
            sample_rate,
        ) == 0,
{
    if previous == current {
        assert(rounded_quotient(WIDTH * 0, sample_rate) == 0) by {
            lemma_fundamental_div_mod_converse(sample_rate, 2 * sample_rate, 0, sample_rate);
        }
    }
}

/// A change of frequency that spans a whole number of columns moves the
/// waterfall by exactly that number.
pub proof fn lemma_retune_exact(previous: int, current: int, sample_rate: int, columns: int)
    requires
        sample_rate > 0,
        WIDTH * (previous - current) == columns * sample_rate,
    ensures
        retune_columns(previous, current, sample_rate) == columns,
{
    let df = previous - current;
    if df >= 0 {
        assert(columns >= 0) by (nonlinear_arith)
            requires
                columns * sample_rate >= 0,
                sample_rate > 0,
        ;
        assert(2 * (WIDTH * df) + sample_rate == columns * (2 * sample_rate) + sample_rate)
            by (nonlinear_arith)
            requires
                WIDTH * df == columns * sample_rate,
        ;
        lemma_fundamental_div_mod_converse(
            2 * (WIDTH * df) + sample_rate,
            2 * sample_rate,
            columns,
            sample_rate,
        );
    } else {
        assert(WIDTH * (-df) == (-columns) * sample_rate) by (nonlinear_arith)
            requires
                WIDTH * df == columns * sample_rate,
        ;
        assert(2 * (WIDTH * (-df)) + sample_rate == (-columns) * (2 * sample_rate) + sample_rate)
            by (nonlinear_arith)
            requires
                WIDTH * (-df) == (-columns) * sample_rate,
        ;
        lemma_fundamental_div_mod_converse(
            2 * (WIDTH * (-df)) + sample_rate,
            2 * sample_rate,
            -columns,
            sample_rate,
        );
    }
}

/// The rounded quotient is the integer nearest to the exact quotient.
pub proof fn lemma_rounded_quotient_is_nearest(n: int, d: int)
    requires
        n >= 0,
        d > 0,
    ensures
        2 * n - d < 2 * d * rounded_quotient(n, d) <= 2 * n + d,
{
    vstd::arithmetic::div_mod::lemma_fundamental_div_mod(2 * n + d, 2 * d);
    vstd::arithmetic::div_mod::lemma_mod_bound(2 * n + d, 2 * d);
}

/// The shape of `rows` rows of the frame.
pub open spec fn frame_shape(rows: u32) -> Seq<u32> {
    seq![rows, WIDTH, CHANNELS]
}

/// The sizes that the rolls of the frame go by.
pub proof fn lemma_frame_layout(rows: u32)
    ensures
        volume(frame_shape(rows)) == rows * PITCH,
        chunk_len(frame_shape(rows), 1) == rows * PITCH,
        slice_len(frame_shape(rows), 1) == PITCH,
        chunk_len(frame_shape(rows), 2) == PITCH,
        slice_len(frame_shape(rows), 2) == CHANNELS,
{
    let s = frame_shape(rows);
    lemma_extent_single(s, 0);
    lemma_extent_single(s, 1);
    lemma_extent_single(s, 2);
    lemma_extent_split(s, 1, 2, 3);
    lemma_extent_split(s, 0, 1, 3);
    assert(extent(s, 1, 3) == 1024 * 3);
    assert(extent(s, 0, 3) == rows * 3072);
}

/// The anchor colours of the colour table, from full scale to the floor.
pub open spec fn anchors() -> Seq<[u8; 3]> {
    seq![[255u8, 200u8, 20u8], [250u8, 110u8, 20u8], [60u8, 0u8, 45u8], [30u8, 20u8, 50u8]]
}

/// The number of columns `columns` held inside the width of the frame.
pub open spec fn clamp_columns(columns: int) -> int {
    if columns > WIDTH {
        WIDTH as int
    } else if columns < -WIDTH {
        -(WIDTH as int)
    } else {
        columns
    }
}

/// What the operator did.
#[derive(Clone, Copy, Debug, PartialEq, Eq, Structural)]
pub enum UiEvent {
    /// The window was closed, or escape was pressed.
    Quit,
    /// The left key: a lower frequency is asked for.
    TuneDown,
    /// The right key: a higher frequency is asked for.
    TuneUp,
    /// Anything else.
    Other,
}

/// The picture and what it shows.
pub struct Ui {
    /// Frequency in Hz that the operator asks for.
    pub center_frequency: u32,
    /// Frequency in Hz of the spectrum in the first row of the waterfall.
    pub current_frequency: u32,
    /// Width of a spectrum in Hz.
    pub sample_rate: u32,
    /// Colour of each whole decibel from full scale down to the floor.
    pub color_map: Vec<[u8; 3]>,
    /// The frame, row by row.
    pub video_buffer: Vec<u8>,
}

impl Ui {
    /// Whether the frame and the colour table have their sizes and the
    /// sample rate is not zero.
    pub open spec fn wf(&self) -> bool {
        &&& self.sample_rate > 0
        &&& self.color_map@.len() == COLOR_MAP_SIZE
        &&& self.video_buffer@.len() == BUF_SIZE
    }

    /// A black picture for a receiver tuned to `center_frequency`.
    pub fn new(center_frequency: u32, sample_rate: u32) -> (ui: Ui)
        requires
            sample_rate > 0,
        ensures
            ui.wf(),
            ui.center_frequency == center_frequency,
            ui.current_frequency == center_frequency,
            ui.sample_rate == sample_rate,
            forall|k: int| 0 <= k < BUF_SIZE ==> #[trigger] ui.video_buffer@[k] == 0,
            forall|i: int, ch: int|
                0 <= i < COLOR_MAP_SIZE && 0 <= ch < 3 ==> #[trigger] ui.color_map@[i][ch]
                    == interpolated(anchors(), COLOR_MAP_SIZE as int, i, ch),
    {
        let colors: Vec<[u8; 3]> = vec![[255, 200, 20], [250, 110, 20], [60, 0, 45], [30, 20, 50]];
        assert(colors@ =~= anchors());
        Ui {
            center_frequency: center_frequency,
            current_frequency: center_frequency,
            sample_rate: sample_rate,
            color_map: interpolate_color_map(colors, COLOR_MAP_SIZE),
            video_buffer: vec![0u8; BUF_SIZE],
        }
    }

    /// Moves the picture sideways for a receiver that went from the current
    /// frequency to `frequency`, so that every signal stays in the column of
    /// its frequency. What moves out of the frame is lost, and what is
    /// revealed is black.
    pub fn retune(&mut self, frequency: u32)
        requires
            old(self).wf(),
        ensures
            final(self).wf(),
            final(self).center_frequency == old(self).center_frequency,
            final(self).current_frequency == frequency,
            final(self).sample_rate == old(self).sample_rate,
            final(self).color_map == old(self).color_map,
            final(self).video_buffer@ == rolled(
                old(self).video_buffer@,
                frame_shape(HEIGHT),
                2,
                clamp_columns(
                    retune_columns(
                        old(self).current_frequency as int,
                        frequency as int,
                        old(self).sample_rate as int,
                    ),
                ),
            ),
    {
        let columns: i64 = retune_shift(self.current_frequency, frequency, self.sample_rate);
        let d: i32 = if columns > 1024 {
            1024
        } else if columns < -1024 {
            -1024
        } else {
            columns as i32
        };
        let shape: Vec<u32> = vec![HEIGHT, WIDTH, CHANNELS];
        proof {
            assert(shape@ =~= frame_shape(HEIGHT));
            lemma_frame_layout(HEIGHT);
        }
        roll(self.video_buffer.as_mut_slice(), shape, 2, d);
        self.current_frequency = frequency;
    }
}

/// Whether a gridline runs along `row` of the band: there is one every 40
/// rows, which is every 20 dB, from 20 dB below the row of full scale on.
pub open spec fn is_grid_row(row: int) -> bool {
    SPECTRUM_OFFSET + 40 <= row <= SPECTRUM_OFFSET + 200 && (row - SPECTRUM_OFFSET) % 40 == 0
}

/// One channel of the colour of the trace.
pub open spec fn trace_color(ch: int) -> u8 {
    if ch == 0 {
        210
    } else if ch == 1 {
        0
    } else {
        120
    }
}

/// The row of the band at which the trace crosses `column`: columns go in
/// groups of four, and a group is drawn two rows below the row of full
/// scale for every decibel that the mean of its levels is below full scale.
pub open spec fn trace_row(levels: Seq<i32>, column: int) -> int {
    let first = column - column % 4;
    SPECTRUM_OFFSET + (-(levels[first] + levels[first + 1] + levels[first + 2] + levels[first
        + 3])) / 2000
}

/// Byte `k` of the frame after the spectrum `levels` was added to the frame
/// `before`: the waterfall is one row further down with the spectrum in its
/// first row, colour for level; the band shows the trace of the spectrum
/// over the gridlines on black.
pub open spec fn composed_byte(before: Seq<u8>, map: Seq<[u8; 3]>, levels: Seq<i32>, k: int) -> u8 {
    let row = k / (PITCH as int);
    let column = (k % (PITCH as int)) / (CHANNELS as int);
    let ch = k % (CHANNELS as int);
    if row > WATERFALL_OFFSET {
        before[k - PITCH]
    } else if row == WATERFALL_OFFSET {
        map[color_index(levels[column] as int, map.len() as int)][ch]
    } else if row == trace_row(levels, column) {
        trace_color(ch)
    } else if is_grid_row(row) {
        GRID_SHADE
    } else {
        0
    }
}

/// The frame after the spectrum `levels` was added to the frame `before`.
pub open spec fn composed(before: Seq<u8>, map: Seq<[u8; 3]>, levels: Seq<i32>) -> Seq<u8> {
    Seq::new(BUF_SIZE as nat, |k: int| composed_byte(before, map, levels, k))
}

/// Moves the waterfall one row down. Its first row becomes black and its
/// last row is lost; the band stays.
fn scroll_waterfall(buf: &mut Vec<u8>)
    requires
        old(buf)@.len() == BUF_SIZE,
    ensures
        final(buf)@.len() == BUF_SIZE,
        forall|k: int|
            0 <= k < BUF_SIZE ==> #[trigger] final(buf)@[k] == if k < WATERFALL_OFFSET * PITCH {
                old(buf)@[k]
            } else if k < (WATERFALL_OFFSET + 1) * PITCH {
                0u8
            } else {
                old(buf)@[k - PITCH]
            },
{
    let rows: u32 = HEIGHT - WATERFALL_OFFSET;
    let shape: Vec<u32> = vec![rows, WIDTH, CHANNELS];
    proof {
        assert(shape@ =~= frame_shape(rows));
        lemma_frame_layout(rows);
    }
    let (_band, waterfall) = buf.as_mut_slice().split_at_mut(921_600);
    let ghost lower = waterfall@;
    roll(waterfall, shape, 1, 1);
    proof {
        assert forall|k: int| 0 <= k < lower.len() implies #[trigger] waterfall@[k] == if k
            < PITCH {
            0u8
        } else {
            lower[k - PITCH]
        } by {
            lemma_fundamental_div_mod_converse(k, 1_536_000, 0, k);
        }
    }
}

/// Writes `value` into every byte of `buf[lo..hi]`.
fn fill(buf: &mut Vec<u8>, lo: usize, hi: usize, value: u8)
    requires
        lo <= hi <= old(buf)@.len(),
    ensures
        final(buf)@.len() == old(buf)@.len(),
        forall|k: int|
            0 <= k < old(buf)@.len() ==> #[trigger] final(buf)@[k] == if lo <= k < hi {
                value
            } else {
                old(buf)@[k]
            },
{
    let mut i: usize = lo;
    while i < hi
        invariant
            lo <= i <= hi <= buf@.len(),
            buf@.len() == old(buf)@.len(),
            forall|k: int|
                0 <= k < buf@.len() ==> #[trigger] buf@[k] == if lo <= k < i {
                    value
                } else {
                    old(buf)@[k]
                },
        decreases hi - i,
    {
        buf[i] = value;
        i += 1;
    }
}

/// Clears the band and draws the gridlines into it.
fn draw_grid(buf: &mut Vec<u8>)
    requires
        old(buf)@.len() == BUF_SIZE,
    ensures
        final(buf)@.len() == BUF_SIZE,
        forall|k: int|
            0 <= k < BUF_SIZE ==> #[trigger] final(buf)@[k] == if k >= WATERFALL_OFFSET * PITCH {
                old(buf)@[k]
            } else if is_grid_row(k / (PITCH as int)) {
                GRID_SHADE
            } else {
                0u8
            },
{
    fill(buf, 0, 921_600, 0);
    let mut i: u32 = 4;
    while i < 24
        invariant
            4 <= i <= 24,
            i % 4 == 0,
            buf@.len() == BUF_SIZE,
            forall|k: int|
                0 <= k < BUF_SIZE ==> #[trigger] buf@[k] == if k >= WATERFALL_OFFSET * PITCH {
                    old(buf)@[k]
                } else if is_grid_row(k / (PITCH as int)) && k / (PITCH as int) < SPECTRUM_OFFSET
                    + i * 10 {
                    GRID_SHADE
                } else {
                    0u8
                },
        decreases 24 - i,
    {
        let start: usize = ((SPECTRUM_OFFSET + i * 10) * PITCH) as usize;
        let end: usize = start + PITCH as usize;
        fill(buf, start, end, GRID_SHADE);
        i += 4;
    }
}

/// The bytes of `pixels` pixels from column `first` of `row` on are those
/// that lie in that row and in those columns.
proof fn lemma_pixel_span(row: int, first: int, pixels: int, k: int)
    requires
        0 <= row,
        0 <= first,
        0 <= pixels,
        first + pixels <= WIDTH,
    ensures
        (row * 3072 + 3 * first <= k < row * 3072 + 3 * first + 3 * pixels) <==> (k / 3072 == row
            && first <= (k % 3072) / 3 < first + pixels),
        (k - (row * 3072 + 3 * first)) % 3 == k % 3,
{
    if row * 3072 + 3 * first <= k < row * 3072 + 3 * first + 3 * pixels {
        lemma_fundamental_div_mod_converse(k, 3072, row, k - row * 3072);
    }
    if k / 3072 == row {
        vstd::arithmetic::div_mod::lemma_fundamental_div_mod(k, 3072);
    }
}

/// Paints `pixels` pixels in a row with the colour `rgb`, from byte `at` on.
fn paint(buf: &mut Vec<u8>, at: usize, pixels: usize, rgb: [u8; 3])
    requires
        at + 3 * pixels <= old(buf).len(),
    ensures
        final(buf)@.len() == old(buf)@.len(),
        forall|k: int|
            0 <= k < old(buf)@.len() ==> #[trigger] final(buf)@[k] == if at <= k < at + 3
                * pixels {
                rgb[(k - at) % 3]
            } else {
                old(buf)@[k]
            },
{
    let total: usize = buf.len();
    let mut i: usize = 0;
    while i < pixels
        invariant
            i <= pixels,
            at + 3 * pixels <= total,
            buf@.len() == total,
            buf@.len() == old(buf)@.len(),
            forall|k: int|
                0 <= k < buf@.len() ==> #[trigger] buf@[k] == if at <= k < at + 3 * i {
                    rgb[(k - at) % 3]
                } else {
                    old(buf)@[k]
                },
        decreases pixels - i,
    {
        let first: usize = at + 3 * i;
        buf[first] = rgb[0];
        buf[first + 1] = rgb[1];
        buf[first + 2] = rgb[2];
        i += 1;
    }
}

/// The row of the band at which the trace crosses the group of four columns
/// that begins at `first`.
fn trace_row_of(levels: &Vec<i32>, first: usize) -> (row: u32)
    requires
        levels@.len() == FFT_SIZE,
        first + 3 < FFT_SIZE,
        first % 4 == 0,
        forall|i: int| 0 <= i < FFT_SIZE ==> FLOOR <= #[trigger] levels@[i] <= 0,
    ensures
        row == trace_row(levels@, first as int),
        SPECTRUM_OFFSET <= row <= SPECTRUM_OFFSET + 240,
{
    let sum: i32 = levels[first] + levels[first + 1] + levels[first + 2] + levels[first + 3];
    let depth: u32 = (-sum) as u32;
    SPECTRUM_OFFSET + depth / 2000
}

/// Paints the first row of the waterfall: each pixel gets the colour of the
/// level of its column.
fn paint_spectrum(buf: &mut Vec<u8>, map: &Vec<[u8; 3]>, levels: &Vec<i32>)
    requires
        old(buf)@.len() == BUF_SIZE,
        map@.len() >= 1,
        levels@.len() == FFT_SIZE,
    ensures
        final(buf)@.len() == BUF_SIZE,
        forall|k: int|
            0 <= k < BUF_SIZE ==> #[trigger] final(buf)@[k] == if k / 3072 == WATERFALL_OFFSET {
                map@[color_index(levels@[(k % 3072) / 3] as int, map@.len() as int)][k % 3]
            } else {
                old(buf)@[k]
            },
{
    let mut i: usize = 0;
    while i < FFT_SIZE
        invariant
            i <= FFT_SIZE,
            buf@.len() == BUF_SIZE,
            map@.len() >= 1,
            levels@.len() == FFT_SIZE,
            forall|k: int|
                0 <= k < BUF_SIZE ==> #[trigger] buf@[k] == if k / 3072 == WATERFALL_OFFSET && (k
                    % 3072) / 3 < i {
                    map@[color_index(levels@[(k % 3072) / 3] as int, map@.len() as int)][k % 3]
                } else {
                    old(buf)@[k]
                },
        decreases FFT_SIZE - i,
    {
        let rgb: [u8; 3] = color_for(map, levels[i]);
        paint(buf, 921_600 + 3 * i, 1, rgb);
        proof {
            assert forall|k: int| 0 <= k < BUF_SIZE implies #[trigger] buf@[k] == if k / 3072
                == WATERFALL_OFFSET && (k % 3072) / 3 < i + 1 {
                map@[color_index(levels@[(k % 3072) / 3] as int, map@.len() as int)][k % 3]
            } else {
                old(buf)@[k]
            } by {
                lemma_pixel_span(300, i as int, 1, k);
            }
        }
        i += 1;
    }
}

/// Paints the trace of the spectrum into the band: four pixels for every
/// group of four columns, at the row that the mean level of the group gives.
fn paint_trace(buf: &mut Vec<u8>, levels: &Vec<i32>)
    requires
        old(buf)@.len() == BUF_SIZE,
        levels@.len() == FFT_SIZE,
        forall|i: int| 0 <= i < FFT_SIZE ==> FLOOR <= #[trigger] levels@[i] <= 0,
    ensures
        final(buf)@.len() == BUF_SIZE,
        forall|k: int|
            0 <= k < BUF_SIZE ==> #[trigger] final(buf)@[k] == if k / 3072 == trace_row(
                levels@,
                (k % 3072) / 3,
            ) {
                trace_color(k % 3)
            } else {
                old(buf)@[k]
            },
{
    let mut i: usize = 0;
    while i < FFT_SIZE
        invariant
            i <= FFT_SIZE,
            i % 4 == 0,
            buf@.len() == BUF_SIZE,
            levels@.len() == FFT_SIZE,
            forall|j: int| 0 <= j < FFT_SIZE ==> FLOOR <= #[trigger] levels@[j] <= 0,
            forall|k: int|
                0 <= k < BUF_SIZE ==> #[trigger] buf@[k] == if (k % 3072) / 3 < i && k / 3072
                    == trace_row(levels@, (k % 3072) / 3) {
                    trace_color(k % 3)
                } else {
                    old(buf)@[k]
                },
        decreases FFT_SIZE - i,
    {
        let row: u32 = trace_row_of(levels, i);
        let at: usize = ((row * WIDTH) as usize + i) * 3;
        paint(buf, at, 4, [210, 0, 120]);
        proof {
            assert forall|k: int| 0 <= k < BUF_SIZE implies #[trigger] buf@[k] == if (k % 3072) / 3
                < i + 4 && k / 3072 == trace_row(levels@, (k % 3072) / 3) {
                trace_color(k % 3)
            } else {
                old(buf)@[k]
            } by {
                lemma_pixel_span(row as int, i as int, 4, k);
                let column = (k % 3072) / 3;
                if i <= column < i + 4 {
                    assert(column - column % 4 == i);
                }
            }
        }
        i += 4;
    }
}

impl Ui {
    /// Adds a spectrum to the picture: the waterfall moves one row down and
    /// shows the spectrum in its first row, a colour for each level; the
    /// band is cleared and shows the gridlines and, over them, the trace of
    /// the spectrum.
    pub fn update_video_buffer(&mut self, fft_result: FftResult)
        requires
            old(self).wf(),
            fft_result.wf(),
        ensures
            final(self).wf(),
            final(self).center_frequency == old(self).center_frequency,
            final(self).current_frequency == old(self).current_frequency,
            final(self).sample_rate == old(self).sample_rate,
            final(self).color_map == old(self).color_map,
            final(self).video_buffer@ == composed(
                old(self).video_buffer@,
                old(self).color_map@,
                fft_result.log_magnitudes@,
            ),
    {
        scroll_waterfall(&mut self.video_buffer);
        draw_grid(&mut self.video_buffer);
        paint_spectrum(&mut self.video_buffer, &self.color_map, &fft_result.log_magnitudes);
        paint_trace(&mut self.video_buffer, &fft_result.log_magnitudes);
        proof {
            let before = old(self).video_buffer@;
            let map = self.color_map@;
            let levels = fft_result.log_magnitudes@;
            assert forall|k: int| 0 <= k < BUF_SIZE implies #[trigger] self.video_buffer@[k]
                == composed_byte(before, map, levels, k) by {
                let column = (k % 3072) / 3;
                let first = column - column % 4;
                assert(0 <= first && first + 3 < 1024);
                assert(30 <= trace_row(levels, column) <= 270);
            }
            assert(self.video_buffer@ =~= composed(before, map, levels));
        }
    }
}

/// The frequency asked for after `event`, counted from `frequency`.
pub open spec fn stepped(frequency: int, event: UiEvent) -> int {
    match event {
        UiEvent::TuneDown => frequency - FREQUENCY_STEP,
        UiEvent::TuneUp => frequency + FREQUENCY_STEP,
        _ => frequency,
    }
}

impl Ui {
    /// Whether the frequency asked for after `event` is one the receiver
    /// can be asked for.
    pub fn accepts(&self, event: UiEvent) -> (ok: bool)
        ensures
            ok == (0 <= stepped(self.center_frequency as int, event) <= u32::MAX),
    {
        match event {
            UiEvent::TuneDown => self.center_frequency >= FREQUENCY_STEP,
            UiEvent::TuneUp => self.center_frequency <= u32::MAX - FREQUENCY_STEP,
            _ => true,
        }
    }

    /// Takes in what the operator did: the left and the right key move the
    /// frequency asked for one step down and up. Returns whether the
    /// picture goes on; it ends when the operator quits.
    pub fn handle_event(&mut self, event: UiEvent) -> (running: bool)
        requires
            0 <= stepped(old(self).center_frequency as int, event) <= u32::MAX,
        ensures
            running == (event != UiEvent::Quit),
            final(self).center_frequency == stepped(old(self).center_frequency as int, event),
            final(self).current_frequency == old(self).current_frequency,
            final(self).sample_rate == old(self).sample_rate,
            final(self).color_map == old(self).color_map,
            final(self).video_buffer == old(self).video_buffer,
    {
        match event {
            UiEvent::Quit => false,
            UiEvent::TuneDown => {
                self.center_frequency = self.center_frequency - FREQUENCY_STEP;
                true
            },
            UiEvent::TuneUp => {
                self.center_frequency = self.center_frequency + FREQUENCY_STEP;
                true
            },
            UiEvent::Other => true,
        }
    }

    /// Takes in the result of a block: where the receiver was tuned to
    /// another frequency than for the spectrum shown last, the picture first
    /// moves sideways to make up for it; then the spectrum is added.
    pub fn receive(&mut self, result: FftResult)
        requires
            old(self).wf(),
            result.wf(),
        ensures
            final(self).wf(),
            final(self).center_frequency == old(self).center_frequency,
            final(self).current_frequency == result.center_frequency,
            final(self).sample_rate == old(self).sample_rate,
            final(self).color_map == old(self).color_map,
            final(self).video_buffer@ == composed(
                rolled(
                    old(self).video_buffer@,
                    frame_shape(HEIGHT),
                    2,
                    clamp_columns(
                        retune_columns(
                            old(self).current_frequency as int,
                            result.center_frequency as int,
                            old(self).sample_rate as int,
                        ),
                    ),
                ),
                old(self).color_map@,
                result.log_magnitudes@,
            ),
    {
        if result.center_frequency != self.current_frequency {
            self.retune(result.center_frequency);
        } else {
            proof {
                lemma_retune_round_trip(
                    self.current_frequency as int,
                    self.current_frequency as int,
                    self.sample_rate as int,
                );
                lemma_roll_by_nothing(self.video_buffer@, frame_shape(HEIGHT), 2);
            }
        }
        self.update_video_buffer(result);
    }
}

/// Place in the frame of channel `ch` of the pixel at `row` and `column`.
pub open spec fn byte_index(row: int, column: int, ch: int) -> int {
    row * PITCH + column * CHANNELS + ch
}

/// After the frame moved sideways by `d` columns, every pixel shows what the
/// pixel `d` columns to its left showed before, and is black where that
/// lies outside the frame: the revealed edge is black, and no row runs into
/// another.
pub proof fn lemma_frame_moves_columns(frame: Seq<u8>, d: int, row: int, column: int, ch: int)
    requires
        frame.len() == BUF_SIZE,
        -WIDTH <= d <= WIDTH,
        0 <= row < HEIGHT,
        0 <= column < WIDTH,
        0 <= ch < CHANNELS,
    ensures
        rolled(frame, frame_shape(HEIGHT), 2, d)[byte_index(row, column, ch)] == if 0 <= column
            - d < WIDTH {
            frame[byte_index(row, column - d, ch)]
        } else {
            0u8
        },
{
    let shape = frame_shape(HEIGHT);
    lemma_frame_layout(HEIGHT);
    lemma_extent_single(shape, 0);
    assert(chunk_count(shape, 2) == HEIGHT);
    lemma_roll_moves_slices(frame, shape, 2, d, row, column, ch);
    assert(element_index(shape, 2, row, column, ch) == byte_index(row, column, ch));
    assert(element_index(shape, 2, row, column - d, ch) == byte_index(row, column - d, ch));
}

} // verus!
