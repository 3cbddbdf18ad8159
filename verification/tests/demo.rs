use sdr_waterfall::demo::{DeviceCommand, Lifecycle, WaterfallDemo, SAMPLE_RATE};
use sdr_waterfall::dsp::WindowType;

#[test]
fn demo_begins_stopped() {
    let demo = WaterfallDemo::new(100_000_000, WindowType::Bartlett);
    assert_eq!(demo.center_frequency, 100_000_000);
    assert_eq!(demo.fft_window, WindowType::Bartlett);
    assert_eq!(demo.gain, 0);
    assert_eq!(demo.sample_rate, 2_400_000);
    assert_eq!(SAMPLE_RATE, 2_400_000);
    assert!(!demo.should_stop);
    assert_eq!(demo.state, Lifecycle::Stopped);
}

#[test]
fn start_gives_the_first_orders() {
    let mut demo = WaterfallDemo::new(433_920_000, WindowType::Rectangular);
    demo.gain = 77;
    let commands = demo.start();
    assert_eq!(
        commands,
        vec![
            DeviceCommand::SetSampleRate(2_400_000),
            DeviceCommand::SetCenterFreq(433_920_000),
            DeviceCommand::DisableAgc,
            DeviceCommand::SetTunerGain(77),
        ]
    );
    assert_eq!(demo.state, Lifecycle::Running);
    assert!(!demo.should_stop);
}

#[test]
fn reconciled_receiver_gets_no_order() {
    let demo = WaterfallDemo::new(90_000_000, WindowType::Rectangular);
    assert_eq!(demo.reconcile(90_000_000, 0), vec![]);
}

#[test]
fn other_frequency_ends_the_read_and_tunes() {
    let mut demo = WaterfallDemo::new(90_000_000, WindowType::Rectangular);
    demo.center_frequency = 90_100_000;
    assert_eq!(
        demo.reconcile(90_000_000, 0),
        vec![DeviceCommand::CancelAsyncRead, DeviceCommand::SetCenterFreq(90_100_000)]
    );
}

#[test]
fn other_gain_is_set_without_ending_the_read() {
    let mut demo = WaterfallDemo::new(90_000_000, WindowType::Rectangular);
    demo.gain = 120;
    assert_eq!(demo.reconcile(90_000_000, 0), vec![DeviceCommand::SetTunerGain(120)]);
}

#[test]
fn frequency_comes_before_gain() {
    let mut demo = WaterfallDemo::new(90_000_000, WindowType::Rectangular);
    demo.center_frequency = 89_900_000;
    demo.gain = -10;
    assert_eq!(
        demo.reconcile(90_000_000, 496),
        vec![
            DeviceCommand::CancelAsyncRead,
            DeviceCommand::SetCenterFreq(89_900_000),
            DeviceCommand::SetTunerGain(-10),
        ]
    );
}

#[test]
fn failed_order_is_given_again() {
    let mut demo = WaterfallDemo::new(90_000_000, WindowType::Rectangular);
    demo.center_frequency = 90_100_000;
    let first = demo.reconcile(90_000_000, 0);
    // The receiver still reports the old frequency.
    let second = demo.reconcile(90_000_000, 0);
    assert_eq!(first, second);
    assert_eq!(demo.reconcile(90_100_000, 0), vec![]);
}

#[test]
fn stop_drains_and_finish_stops() {
    let mut demo = WaterfallDemo::new(90_000_000, WindowType::Rectangular);
    demo.start();
    let commands = demo.stop();
    assert_eq!(commands, vec![DeviceCommand::CancelAsyncRead]);
    assert_eq!(demo.state, Lifecycle::Draining);
    assert!(demo.should_stop);
    demo.finish();
    assert_eq!(demo.state, Lifecycle::Stopped);
    assert!(!demo.should_stop);
    assert_eq!(demo.center_frequency, 90_000_000);
}

#[test]
fn stopped_demo_starts_again() {
    let mut demo = WaterfallDemo::new(90_000_000, WindowType::Rectangular);
    demo.start();
    demo.stop();
    demo.finish();
    demo.center_frequency = 91_000_000;
    let commands = demo.start();
    assert_eq!(commands[1], DeviceCommand::SetCenterFreq(91_000_000));
    assert_eq!(demo.state, Lifecycle::Running);
}
