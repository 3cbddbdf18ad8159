//! The tuning controller: what the operator asks of the receiver, what the
//! receiver has to be told to get there, and the life of an acquisition from
//! its start to the end of its last read.

use vstd::prelude::*;
use crate::dsp::WindowType;

verus! {

/// Width in Hz of the band that the receiver delivers.
pub const SAMPLE_RATE: u32 = 2_400_000;

/// One order to the receiver.
#[derive(Clone, Copy, Debug, PartialEq, Eq, Structural)]
pub enum DeviceCommand {
    /// Deliver a band of this many Hz.
    SetSampleRate(u32),
    /// Tune to this frequency in Hz.
    SetCenterFreq(u32),
    /// Leave the gain to the controller.
    DisableAgc,
    /// Set the gain of the tuner, in the unit of the receiver.
    SetTunerGain(i32),
    /// Give up the read that is under way.
    CancelAsyncRead,
}

/// Where an acquisition stands.
#[derive(Clone, Copy, Debug, PartialEq, Eq, Structural)]
pub enum Lifecycle {
    /// Nothing is read.
    Stopped,
    /// Blocks are read, and the receiver follows what is asked for.
    Running,
    /// The read was told to end, and its end is awaited.
    Draining,
}

/// The orders that bring a receiver just opened to the tuning asked for.
pub open spec fn startup_plan(sample_rate: u32, frequency: u32, gain: i32) -> Seq<DeviceCommand> {
    seq![
        DeviceCommand::SetSampleRate(sample_rate),
        DeviceCommand::SetCenterFreq(frequency),
        DeviceCommand::DisableAgc,
        DeviceCommand::SetTunerGain(gain),
    ]
}

/// The orders that bring the frequency of the receiver to the one asked
/// for: none where it is there already, else the read under way is given up
/// before the receiver is tuned.
pub open spec fn frequency_plan(desired: u32, applied: u32) -> Seq<DeviceCommand> {
    if desired == applied {
        Seq::empty()
    } else {
        seq![DeviceCommand::CancelAsyncRead, DeviceCommand::SetCenterFreq(desired)]
    }
}

/// The orders that bring the gain of the receiver to the one asked for.
pub open spec fn gain_plan(desired: i32, applied: i32) -> Seq<DeviceCommand> {
    if desired == applied {
        Seq::empty()
    } else {
        seq![DeviceCommand::SetTunerGain(desired)]
    }
}

/// The orders of one tick of the controller: the frequency first, then the
/// gain.
pub open spec fn reconcile_plan(
    desired_frequency: u32,
    applied_frequency: u32,
    desired_gain: i32,
    applied_gain: i32,
) -> Seq<DeviceCommand> {
    frequency_plan(desired_frequency, applied_frequency) + gain_plan(desired_gain, applied_gain)
}

/// What is asked of the receiver, and where the acquisition stands.
#[derive(Clone, Copy, Debug)]
pub struct WaterfallDemo {
    /// Frequency in Hz that is asked for.
    pub center_frequency: u32,
    /// Window that is applied to the blocks.
    pub fft_window: WindowType,
    /// Gain that is asked for, in the unit of the receiver.
    pub gain: i32,
    /// Width in Hz of the band that is asked for.
    pub sample_rate: u32,
    /// Whether the loops that read and that tune are to end.
    pub should_stop: bool,
    /// Where the acquisition stands.
    pub state: Lifecycle,
}

impl WaterfallDemo {
    /// A controller that has not started, asking for `center_frequency_hz`
    /// at gain 0.
    pub fn new(center_frequency_hz: u32, fft_window: WindowType) -> (demo: WaterfallDemo)
        ensures
            demo.center_frequency == center_frequency_hz,
            demo.fft_window == fft_window,
            demo.gain == 0,
            demo.sample_rate == SAMPLE_RATE,
            !demo.should_stop,
            demo.state == Lifecycle::Stopped,
    {
        WaterfallDemo {
            center_frequency: center_frequency_hz,
            fft_window: fft_window,
            gain: 0,
            sample_rate: SAMPLE_RATE,
            should_stop: false,
            state: Lifecycle::Stopped,
        }
    }

    /// Starts the acquisition: returns the orders for the receiver just
    /// opened, in their order.
    pub fn start(&mut self) -> (commands: Vec<DeviceCommand>)
        requires
            old(self).state == Lifecycle::Stopped,
        ensures
            final(self).state == Lifecycle::Running,
            final(self).center_frequency == old(self).center_frequency,
            final(self).fft_window == old(self).fft_window,
            final(self).gain == old(self).gain,
            final(self).sample_rate == old(self).sample_rate,
            final(self).should_stop == old(self).should_stop,
            commands@ == startup_plan(
                old(self).sample_rate,
                old(self).center_frequency,
                old(self).gain,
            ),
    {
        self.state = Lifecycle::Running;
        let mut commands: Vec<DeviceCommand> = Vec::new();
        commands.push(DeviceCommand::SetSampleRate(self.sample_rate));
        commands.push(DeviceCommand::SetCenterFreq(self.center_frequency));
        commands.push(DeviceCommand::DisableAgc);
        commands.push(DeviceCommand::SetTunerGain(self.gain));
        assert(commands@ =~= startup_plan(self.sample_rate, self.center_frequency, self.gain));
        commands
    }

    /// One tick of the running controller: compares what is asked for with
    /// what the receiver reports as applied, and returns the orders that
    /// make up the difference. An order that fails leaves the difference,
    /// so the next tick gives it again.
    pub fn reconcile(&self, applied_frequency: u32, applied_gain: i32) -> (commands: Vec<
        DeviceCommand,
    >)
        ensures
            commands@ == reconcile_plan(
                self.center_frequency,
                applied_frequency,
                self.gain,
                applied_gain,
            ),
    {
        let mut commands: Vec<DeviceCommand> = Vec::new();
        if applied_frequency != self.center_frequency {
            commands.push(DeviceCommand::CancelAsyncRead);
            commands.push(DeviceCommand::SetCenterFreq(self.center_frequency));
        }
        assert(commands@ =~= frequency_plan(self.center_frequency, applied_frequency));
        if applied_gain != self.gain {
            commands.push(DeviceCommand::SetTunerGain(self.gain));
        }
        assert(commands@ =~= reconcile_plan(
            self.center_frequency,
            applied_frequency,
            self.gain,
            applied_gain,
        ));
        commands
    }

    /// Ends the acquisition: the loops are told to end, and the read under
    /// way is given up. The read is not over before `finish`.
    pub fn stop(&mut self) -> (commands: Vec<DeviceCommand>)
        requires
            old(self).state == Lifecycle::Running,
        ensures
            final(self).state == Lifecycle::Draining,
            final(self).should_stop,
            final(self).center_frequency == old(self).center_frequency,
            final(self).fft_window == old(self).fft_window,
            final(self).gain == old(self).gain,
            final(self).sample_rate == old(self).sample_rate,
            commands@ == seq![DeviceCommand::CancelAsyncRead],
    {
        self.should_stop = true;
        self.state = Lifecycle::Draining;
        let mut commands: Vec<DeviceCommand> = Vec::new();
        commands.push(DeviceCommand::CancelAsyncRead);
        assert(commands@ =~= seq![DeviceCommand::CancelAsyncRead]);
        commands
    }

    /// Takes note that the last read is over: the controller is stopped and
    /// can start again.
    pub fn finish(&mut self)
        requires
            old(self).state == Lifecycle::Draining,
        ensures
            final(self).state == Lifecycle::Stopped,
            !final(self).should_stop,
            final(self).center_frequency == old(self).center_frequency,
            final(self).fft_window == old(self).fft_window,
            final(self).gain == old(self).gain,
            final(self).sample_rate == old(self).sample_rate,
    {
        self.should_stop = false;
        self.state = Lifecycle::Stopped;
    }
}

/// A receiver that has what is asked for gets no order.
pub proof fn lemma_reconciled_is_quiet(frequency: u32, gain: i32)
    ensures
        reconcile_plan(frequency, frequency, gain, gain) == Seq::<DeviceCommand>::empty(),
{
    assert(reconcile_plan(frequency, frequency, gain, gain) =~= Seq::<DeviceCommand>::empty());
}

} // verus!
