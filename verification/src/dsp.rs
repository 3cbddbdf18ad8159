//! Signal processing around the Fourier transform: what is done to a block of
//! samples before it is transformed, and what is read off the power spectrum
//! afterwards.
//!
//! Levels are fixed-point decibels relative to full scale, counted in
//! thousandths of a decibel; samples are fractions with a common denominator.

use vstd::prelude::*;
use crate::rotate::rotated;
use crate::scroll::{lemma_extent_single, volume};

verus! {

/// Number of complex samples in a block, and of bins in a spectrum.
pub const FFT_SIZE: usize = 1024;

/// Half a block: the length of each ramp of the triangular window.
pub const HALF_SIZE: usize = 512;

/// Level units in one decibel.
pub const UNITS_PER_DB: i32 = 1000;

/// The lowest level a bin can have: -120 dBFS.
pub const FLOOR: i32 = -120_000;

/// By how much the strongest bin has to exceed the mean to count as a peak:
/// 20 dB.
pub const PEAK_MARGIN: i32 = 20_000;

/// The byte that stands for a sample of zero, and the number of steps from
/// there to full scale.
pub const SAMPLE_ZERO: u8 = 127;

/// The taper applied to a block before the transform.
#[derive(Clone, Copy, Debug, PartialEq, Eq, Structural)]
pub enum WindowType {
    /// A triangle: a linear ramp up over the first half of the block,
    /// mirrored over the second half.
    Bartlett,
    /// No taper.
    Rectangular,
}

/// One complex sample as a pair of numerators. The value of each part is
/// the numerator divided by the scale of the processor that made it.
#[derive(Clone, Copy, Debug, PartialEq, Eq, Structural)]
pub struct Sample {
    pub re: i32,
    pub im: i32,
}

/// The weight of sample `i` of a block under `window`, as a numerator over
/// `window_scale(window)`.
pub open spec fn window_weight(window: WindowType, i: int) -> int {
    match window {
        WindowType::Rectangular => 1,
        WindowType::Bartlett => if i < HALF_SIZE {
            i
        } else {
            FFT_SIZE - 1 - i
        },
    }
}

/// The denominator of the weights of `window`.
pub open spec fn window_scale(window: WindowType) -> int {
    match window {
        WindowType::Rectangular => 1,
        WindowType::Bartlett => HALF_SIZE as int,
    }
}

/// Sample `i` of the block `buf` of interleaved I and Q bytes, each byte
/// counted from the zero byte.
pub open spec fn centered_sample(buf: Seq<u8>, i: int) -> Sample {
    Sample { re: (buf[2 * i] - SAMPLE_ZERO) as i32, im: (buf[2 * i + 1] - SAMPLE_ZERO) as i32 }
}

/// Sample `i` of the block `buf` under `window`.
pub open spec fn windowed_sample(window: WindowType, buf: Seq<u8>, i: int) -> Sample {
    Sample {
        re: ((buf[2 * i] - SAMPLE_ZERO) * window_weight(window, i)) as i32,
        im: ((buf[2 * i + 1] - SAMPLE_ZERO) * window_weight(window, i)) as i32,
    }
}

/// Turns sample blocks into windowed signals and power spectra into results.
pub struct SignalProcessor {
    window: WindowType,
}

impl SignalProcessor {
    /// The window this processor applies.
    pub closed spec fn window_spec(&self) -> WindowType {
        self.window
    }

    /// A processor that applies `window`.
    pub fn new(window: WindowType) -> (processor: SignalProcessor)
        ensures
            processor.window_spec() == window,
    {
        SignalProcessor { window: window }
    }

    /// The window this processor applies.
    pub fn window(&self) -> (window: WindowType)
        ensures
            window == self.window_spec(),
    {
        self.window
    }

    /// The denominator of the samples that `process_signal` returns: a part
    /// of a sample has the value of its numerator divided by this.
    pub fn scale(&self) -> (scale: i32)
        ensures
            scale == SAMPLE_ZERO * window_scale(self.window_spec()),
    {
        match self.window {
            WindowType::Rectangular => 127,
            WindowType::Bartlett => 65024,
        }
    }

    /// Applies the window to a block of centered samples in place.
    fn apply_window(&self, signal: &mut Vec<Sample>)
        requires
            old(signal)@.len() == FFT_SIZE,
            forall|i: int|
                0 <= i < FFT_SIZE ==> -127 <= (#[trigger] old(signal)@[i]).re <= 128 && -127
                    <= old(signal)@[i].im <= 128,
        ensures
            final(signal)@.len() == FFT_SIZE,
            forall|i: int|
                0 <= i < FFT_SIZE ==> #[trigger] final(signal)@[i] == (Sample {
                    re: (old(signal)@[i].re * window_weight(self.window_spec(), i)) as i32,
                    im: (old(signal)@[i].im * window_weight(self.window_spec(), i)) as i32,
                }),
    {
        match self.window {
            WindowType::Bartlett => {
                let mut i: usize = 0;
                while i < HALF_SIZE
                    invariant
                        i <= HALF_SIZE,
                        self.window_spec() == WindowType::Bartlett,
                        signal@.len() == FFT_SIZE,
                        forall|k: int|
                            0 <= k < FFT_SIZE ==> -127 <= (#[trigger] old(signal)@[k]).re <= 128
                                && -127 <= old(signal)@[k].im <= 128,
                        forall|k: int|
                            0 <= k < FFT_SIZE ==> #[trigger] signal@[k] == if k < i || k
                                >= FFT_SIZE - i {
                                Sample {
                                    re: (old(signal)@[k].re * window_weight(
                                        WindowType::Bartlett,
                                        k,
                                    )) as i32,
                                    im: (old(signal)@[k].im * window_weight(
                                        WindowType::Bartlett,
                                        k,
                                    )) as i32,
                                }
                            } else {
                                old(signal)@[k]
                            },
                    decreases HALF_SIZE - i,
                {
                    let factor: i32 = i as i32;
                    let low: Sample = signal[i];
                    let high: Sample = signal[FFT_SIZE - i - 1];
                    assert(low == old(signal)@[i as int]);
                    assert(high == old(signal)@[FFT_SIZE - i - 1]);
                    assert(-127 * 512 <= low.re * factor <= 128 * 512 && -127 * 512 <= low.im
                        * factor <= 128 * 512 && -127 * 512 <= high.re * factor <= 128 * 512
                        && -127 * 512 <= high.im * factor <= 128 * 512) by (nonlinear_arith)
                        requires
                            0 <= factor < 512,
                            -127 <= low.re <= 128,
                            -127 <= low.im <= 128,
                            -127 <= high.re <= 128,
                            -127 <= high.im <= 128,
                    ;
                    signal[i] = Sample { re: low.re * factor, im: low.im * factor };
                    signal[FFT_SIZE - i - 1] = Sample {
                        re: high.re * factor,
                        im: high.im * factor,
                    };
                    i += 1;
                }
            },
            WindowType::Rectangular => {
                assert forall|i: int| 0 <= i < FFT_SIZE implies #[trigger] signal@[i] == (Sample {
                    re: (old(signal)@[i].re * 1) as i32,
                    im: (old(signal)@[i].im * 1) as i32,
                }) by {}
            },
        }
    }

    /// Prepares a block of interleaved I and Q bytes for the transform: each
    /// byte is counted from the zero byte, and each sample is weighted by
    /// the window. The parts of the samples are numerators over `scale()`.
    pub fn process_signal(&self, buf: &[u8]) -> (signal: Vec<Sample>)
        requires
            buf@.len() == 2 * FFT_SIZE,
        ensures
            signal@.len() == FFT_SIZE,
            forall|i: int|
                0 <= i < FFT_SIZE ==> #[trigger] signal@[i] == windowed_sample(
                    self.window_spec(),
                    buf@,
                    i,
                ),
    {
        let mut signal: Vec<Sample> = Vec::with_capacity(FFT_SIZE);
        let mut i: usize = 0;
        while i < FFT_SIZE
            invariant
                i <= FFT_SIZE,
                buf@.len() == 2 * FFT_SIZE,
                signal@.len() == i,
                forall|k: int| 0 <= k < i ==> #[trigger] signal@[k] == centered_sample(buf@, k),
            decreases FFT_SIZE - i,
        {
            let re: i32 = buf[2 * i] as i32 - 127;
            let im: i32 = buf[2 * i + 1] as i32 - 127;
            signal.push(Sample { re: re, im: im });
            i += 1;
        }
        self.apply_window(&mut signal);
        signal
    }
}

/// What one block of samples came to.
#[derive(Debug)]
pub struct FftResult {
    /// Mean of the levels of all bins, rounded toward zero.
    pub avg: i32,
    /// Frequency in Hz that the receiver was tuned to when the block came in.
    pub center_frequency: u32,
    /// Level of each bin, frequency zero in the middle.
    pub log_magnitudes: Vec<i32>,
    /// Bin and level of the strongest bin, where it stands out of the mean.
    pub peak: Option<(usize, i32)>,
}

impl FftResult {
    /// Whether the result holds one level per bin, each between the floor
    /// and full scale.
    pub open spec fn wf(&self) -> bool {
        &&& self.log_magnitudes@.len() == FFT_SIZE
        &&& forall|i: int|
            0 <= i < FFT_SIZE ==> FLOOR <= #[trigger] self.log_magnitudes@[i] <= 0
    }

    /// Whether the result holds one level per bin, each between the floor
    /// and full scale.
    pub fn is_valid(&self) -> (valid: bool)
        ensures
            valid == self.wf(),
    {
        if self.log_magnitudes.len() != FFT_SIZE {
            return false;
        }
        let mut i: usize = 0;
        while i < FFT_SIZE
            invariant
                i <= FFT_SIZE,
                self.log_magnitudes@.len() == FFT_SIZE,
                forall|k: int| 0 <= k < i ==> FLOOR <= #[trigger] self.log_magnitudes@[k] <= 0,
            decreases FFT_SIZE - i,
        {
            let level: i32 = self.log_magnitudes[i];
            if level < FLOOR || level > 0 {
                return false;
            }
            i += 1;
        }
        true
    }
}

/// The level `x` held between the floor and full scale.
pub open spec fn clamp_level(x: int) -> int {
    if x < FLOOR {
        FLOOR as int
    } else if x > 0 {
        0
    } else {
        x
    }
}

/// The levels, each held between the floor and full scale.
pub open spec fn clamped(levels: Seq<i32>) -> Seq<i32> {
    Seq::new(levels.len(), |i: int| clamp_level(levels[i] as int) as i32)
}

/// The place in a result of bin `i` of the transform: frequency zero, bin 0
/// of the transform, lands in the middle.
pub open spec fn centered_bin(i: int) -> int {
    (i + HALF_SIZE) % (FFT_SIZE as int)
}

/// Sum of the levels.
pub open spec fn level_sum(levels: Seq<i32>) -> int
    decreases levels.len(),
{
    if levels.len() == 0 {
        0
    } else {
        level_sum(levels.drop_last()) + levels.last()
    }
}

/// Whether the level exceeds the mean of the levels by more than the peak
/// margin. Both sides are multiplied by the number of levels, so that the
/// mean is not rounded.
pub open spec fn stands_out(level: int, levels: Seq<i32>) -> bool {
    level * levels.len() > level_sum(levels) + PEAK_MARGIN * levels.len()
}

/// Whether bin `i` is the first of the strongest bins.
pub open spec fn first_strongest(levels: Seq<i32>, i: int) -> bool {
    &&& 0 <= i < levels.len()
    &&& forall|j: int| 0 <= j < levels.len() ==> #[trigger] levels[j] <= levels[i]
    &&& forall|j: int| 0 <= j < i ==> #[trigger] levels[j] < levels[i]
}

/// The peak of a spectrum in transform order: the first of its strongest
/// bins, by its place in the result, where that bin stands out of the mean.
pub open spec fn peak_of(levels: Seq<i32>, peak: Option<(usize, i32)>) -> bool {
    match peak {
        Some((bin, level)) => exists|i: int|
            first_strongest(levels, i) && bin == centered_bin(i) && level == #[trigger] levels[i]
                && stands_out(level as int, levels),
        None => forall|i: int|
            0 <= i < levels.len() ==> !stands_out(#[trigger] levels[i] as int, levels),
    }
}

/// The mean of levels that sum to `sum`, rounded toward zero.
pub open spec fn mean_level(sum: int, count: int) -> int {
    if sum >= 0 {
        sum / count
    } else {
        -((-sum) / count)
    }
}

proof fn lemma_level_sum_step(levels: Seq<i32>, i: int)
    requires
        0 <= i < levels.len(),
    ensures
        level_sum(levels.take(i + 1)) == level_sum(levels.take(i)) + levels[i],
{
    assert(levels.take(i + 1).drop_last() =~= levels.take(i));
}

impl SignalProcessor {
    /// Reads a result off the power spectrum of a block.
    ///
    /// `power` holds the level of each bin in the order of the transform.
    /// Each level is held between the floor and full scale and put at its
    /// place around the middle; the mean is taken; the strongest bin is
    /// reported as the peak where it exceeds the mean by more than the peak
    /// margin. The result is tagged with frequency 0.
    pub fn work_fft(&self, power: &[i32]) -> (result: FftResult)
        requires
            power@.len() == FFT_SIZE,
        ensures
            result.wf(),
            result.center_frequency == 0,
            forall|i: int|
                0 <= i < FFT_SIZE ==> result.log_magnitudes@[centered_bin(i)] == #[trigger] clamped(
                    power@,
                )[i],
            result.avg == mean_level(level_sum(clamped(power@)), FFT_SIZE as int),
            peak_of(clamped(power@), result.peak),
    {
        let ghost levels = clamped(power@);
        let mut magnitudes: Vec<i32> = vec![0i32; FFT_SIZE];
        let mut sum: i64 = 0;
        let mut best: usize = 0;
        let mut best_level: i32 = FLOOR;
        let mut i: usize = 0;
        proof {
            assert(levels.take(0) =~= Seq::<i32>::empty());
        }
        while i < FFT_SIZE
            invariant
                i <= FFT_SIZE,
                power@.len() == FFT_SIZE,
                levels == clamped(power@),
                magnitudes@.len() == FFT_SIZE,
                forall|k: int| 0 <= k < FFT_SIZE ==> FLOOR <= #[trigger] magnitudes@[k] <= 0,
                forall|k: int|
                    0 <= k < i ==> magnitudes@[centered_bin(k)] == #[trigger] levels[k],
                sum == level_sum(levels.take(i as int)),
                -120_000 * i <= sum <= 0,
                FLOOR <= best_level <= 0,
                i == 0 ==> best == 0 && best_level == FLOOR,
                i > 0 ==> best < i && best_level == levels[best as int],
                forall|k: int| 0 <= k < i ==> #[trigger] levels[k] <= best_level,
                forall|k: int| 0 <= k < best ==> #[trigger] levels[k] < best_level,
            decreases FFT_SIZE - i,
        {
            let raw: i32 = power[i];
            let level: i32 = if raw < FLOOR {
                FLOOR
            } else if raw > 0 {
                0
            } else {
                raw
            };
            assert(level == levels[i as int]);
            let index: usize = (i + HALF_SIZE) % FFT_SIZE;
            proof {
                lemma_level_sum_step(levels, i as int);
                assert forall|k: int| 0 <= k < i implies centered_bin(k) != index by {}
            }
            magnitudes[index] = level;
            sum = sum + level as i64;
            if i == 0 || level > best_level {
                best = i;
                best_level = level;
            }
            i += 1;
        }
        proof {
            assert(levels.take(FFT_SIZE as int) =~= levels);
        }
        let total: i64 = -sum;
        let avg: i32 = -((total / 1024) as i32);
        let exceeds: bool = (best_level as i64) * 1024 > sum + 20_000 * 1024;
        let peak: Option<(usize, i32)> = if exceeds {
            Some(((best + HALF_SIZE) % FFT_SIZE, best_level))
        } else {
            None
        };
        proof {
            if exceeds {
                assert(first_strongest(levels, best as int));
            } else {
                assert forall|k: int| 0 <= k < levels.len() implies !stands_out(
                    #[trigger] levels[k] as int,
                    levels,
                ) by {
                    assert(levels[k] <= best_level);
                }
            }
        }
        FftResult { avg: avg, center_frequency: 0, log_magnitudes: magnitudes, peak: peak }
    }
}

/// A spectrum in which no bin exceeds the mean by more than the peak margin
/// has no peak.
pub proof fn lemma_flat_spectrum_has_no_peak(levels: Seq<i32>, peak: Option<(usize, i32)>)
    requires
        peak_of(levels, peak),
        forall|i: int| 0 <= i < levels.len() ==> !stands_out(#[trigger] levels[i] as int, levels),
    ensures
        peak is None,
{
}

/// Sum of the first `upto` levels of a spectrum that is `floor` everywhere
/// but at `bin`, where it is `level`.
proof fn lemma_impulse_sum(levels: Seq<i32>, bin: int, level: int, floor: int, upto: int)
    requires
        0 <= bin < levels.len(),
        0 <= upto <= levels.len(),
        levels[bin] == level,
        forall|j: int| 0 <= j < levels.len() && j != bin ==> #[trigger] levels[j] == floor,
    ensures
        level_sum(levels.take(upto)) == if upto > bin {
            level + (upto - 1) * floor
        } else {
            upto * floor
        },
    decreases upto,
{
    if upto == 0 {
        assert(levels.take(0) =~= Seq::<i32>::empty());
    } else {
        lemma_impulse_sum(levels, bin, level, floor, upto - 1);
        lemma_level_sum_step(levels, upto - 1);
        assert((upto - 1) * floor + floor == upto * floor) by (nonlinear_arith);
        assert((upto - 2) * floor + floor == (upto - 1) * floor) by (nonlinear_arith);
    }
}

/// A spectrum that is `floor` everywhere but at `bin`, where it is `level`,
/// has its peak at that bin with that level, where the level exceeds the
/// mean by more than the peak margin.
pub proof fn lemma_impulse_is_the_peak(
    levels: Seq<i32>,
    peak: Option<(usize, i32)>,
    bin: int,
    level: int,
    floor: int,
)
    requires
        peak_of(levels, peak),
        0 <= bin < levels.len(),
        levels[bin] == level,
        forall|j: int| 0 <= j < levels.len() && j != bin ==> #[trigger] levels[j] == floor,
        level > floor,
        stands_out(level, levels),
    ensures
        peak == Some((centered_bin(bin) as usize, level as i32)),
{
    match peak {
        Some((b, l)) => {
            let i = choose|i: int|
                first_strongest(levels, i) && b == centered_bin(i) && l == #[trigger] levels[i]
                    && stands_out(l as int, levels);
            assert(levels[bin] <= levels[i]);
            if i != bin {
                assert(levels[i] == floor);
            }
        },
        None => {
            assert(!stands_out(levels[bin] as int, levels));
        },
    }
}

/// In a spectrum that is `floor` everywhere but at one bin, where it is
/// `level`, that bin stands out exactly where `level - floor`, taken once
/// for every other bin, exceeds the peak margin taken once for every bin.
pub proof fn lemma_impulse_stands_out(levels: Seq<i32>, bin: int, level: int, floor: int)
    requires
        0 <= bin < levels.len(),
        levels[bin] == level,
        forall|j: int| 0 <= j < levels.len() && j != bin ==> #[trigger] levels[j] == floor,
    ensures
        stands_out(level, levels) <==> (levels.len() - 1) * (level - floor) > PEAK_MARGIN
            * levels.len(),
{
    let n = levels.len() as int;
    lemma_impulse_sum(levels, bin, level, floor, n);
    assert(levels.take(n) =~= levels);
    assert(level * n - (level + (n - 1) * floor) == (n - 1) * (level - floor))
        by (nonlinear_arith);
}

/// Rotating a spectrum by half its length along its only axis puts every
/// bin of the transform at its place around the middle.
pub proof fn lemma_rotation_centers(levels: Seq<i32>, i: int)
    requires
        levels.len() == FFT_SIZE,
        0 <= i < FFT_SIZE,
    ensures
        rotated(levels, seq![FFT_SIZE as u32], 1, HALF_SIZE as int)[centered_bin(i)] == levels[i],
{
    let shape = seq![FFT_SIZE as u32];
    lemma_extent_single(shape, 0);
    assert(volume(shape) == 1024);
}

} // verus!
