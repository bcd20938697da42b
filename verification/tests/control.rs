use nix_visualizer::frame::{time_to_sleep, DebugTicker};
use nix_visualizer::pause::{PauseControl, Turn, Wake};
use nix_visualizer::settings::{is_power_of_two, sink_node_name, FrameLayout, SettingsError};

#[test]
fn pausing_and_resuming() {
    let mut control = PauseControl::new();
    assert!(!control.is_paused());
    assert_eq!(control.block_while_paused(), Turn::Proceed);
    control.pause();
    assert!(control.is_paused());
    assert_eq!(control.block_while_paused(), Turn::Wait);
    assert_eq!(control.block_while_paused(), Turn::Wait);
    assert_eq!(control.resume(), Wake::Everyone);
    assert!(!control.is_paused());
    assert_eq!(control.block_while_paused(), Turn::Proceed);
    assert_eq!(control.resume(), Wake::Everyone);
}

#[test]
fn signals_pause_and_resume() {
    let (usr1, usr2) = (10, 12);
    let mut control = PauseControl::new();
    assert_eq!(control.on_signal(usr2, usr2, usr1), Wake::Nobody);
    assert!(control.is_paused());
    assert_eq!(control.on_signal(15, usr2, usr1), Wake::Nobody);
    assert!(control.is_paused());
    assert_eq!(control.on_signal(usr2, usr2, usr1), Wake::Nobody);
    assert_eq!(control.on_signal(usr1, usr2, usr1), Wake::Everyone);
    assert!(!control.is_paused());
    assert_eq!(control.on_signal(15, usr2, usr1), Wake::Nobody);
    assert!(!control.is_paused());
}

#[test]
fn the_last_request_decides() {
    let mut control = PauseControl::new();
    for signal in [12, 10, 12, 12, 3, 10, 12, 3, 3] {
        control.on_signal(signal, 12, 10);
    }
    assert_eq!(control.block_while_paused(), Turn::Wait);
}

#[test]
fn powers_of_two() {
    for n in [1, 2, 4, 1024, 2048, 1usize << 31] {
        assert!(is_power_of_two(n));
    }
    for n in [0, 3, 6, 1000, 2047, 2049, usize::MAX] {
        assert!(!is_power_of_two(n));
    }
}

#[test]
fn layouts() {
    let layout = FrameLayout::new(2048, 4).unwrap();
    assert_eq!(layout.fft_size, 2048);
    assert_eq!(layout.padded_size, 8192);
    assert_eq!(layout.spectrum_len, 4096);
    assert_eq!(layout.max_buffer_len, 16384);
}

#[test]
fn refused_settings() {
    let size = FrameLayout::new(1000, 4).unwrap_err();
    assert_eq!(size, SettingsError::FftSizeNotPowerOfTwo);
    assert_eq!(
        size.message(),
        "--fft-size must be a power of two (e.g. 1024, 2048, 4096)"
    );
    let pad = FrameLayout::new(1024, 0).unwrap_err();
    assert_eq!(pad, SettingsError::FftPadZero);
    assert_eq!(pad.message(), "--fft-pad must be at least 1");
    assert_eq!(FrameLayout::new(0, 0).unwrap_err(), SettingsError::FftSizeNotPowerOfTwo);
}

#[test]
fn sink_names() {
    assert_eq!(sink_node_name("cava_sink"), "cava_sink");
    assert_eq!(sink_node_name("cava_sink.monitor"), "cava_sink");
    assert_eq!(sink_node_name("a.monitor.monitor"), "a.monitor");
    assert_eq!(sink_node_name("monitor"), "monitor");
    assert_eq!(sink_node_name(".monitor"), "");
    assert_eq!(sink_node_name("x.monitors"), "x.monitors");
    assert_eq!(sink_node_name("\u{e9}t\u{e9}.monitor"), "\u{e9}t\u{e9}");
    assert_eq!(sink_node_name(""), "");
}

#[test]
fn sleeping_out_a_frame() {
    assert_eq!(time_to_sleep(4, 16), Some(12));
    assert_eq!(time_to_sleep(16, 16), None);
    assert_eq!(time_to_sleep(20, 16), None);
    assert_eq!(time_to_sleep(0, 0), None);
}

#[test]
fn diagnostics_come_once_a_period() {
    let mut ticker = DebugTicker::new(3);
    let due: Vec<bool> = (0..7).map(|_| ticker.tick()).collect();
    assert_eq!(due, vec![false, false, true, false, false, true, false]);
    assert_eq!(ticker.count, 7);
}
