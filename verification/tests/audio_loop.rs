//! The audio thread's decisions.

use tuneux_corex::audio_loop::{sample_rate_supported, DeviceOutcome, Order, Output, StreamAct};
use tuneux_corex::engine::SharedState;

#[test]
fn rate_is_supported_inside_a_range() {
    let ranges = [(8_000, 16_000), (44_100, 48_000)];
    assert!(sample_rate_supported(&ranges, 8_000));
    assert!(sample_rate_supported(&ranges, 48_000));
    assert!(!sample_rate_supported(&ranges, 22_050));
    assert!(!sample_rate_supported(&[], 48_000));
}

#[test]
fn file_rate_is_taken_where_the_device_has_it() {
    let mut state = SharedState::default();
    let mut o = Output::new(48_000, None);
    let s = o.plan_switch(Some(44_100), true);
    assert!(o.needs_rebuild(&s));
    o.switch_stream(&mut state, &s, 48_000, true, false);
    assert_eq!(o.rate, 44_100);
    assert_eq!(state.stream_sample_rate, 44_100);
    assert!(state.bitstream);
}

#[test]
fn unsupported_rate_keeps_the_output() {
    let mut state = SharedState::default();
    let mut o = Output::new(48_000, None);
    let s = o.plan_switch(Some(44_100), false);
    assert!(!o.needs_rebuild(&s));
    o.switch_stream(&mut state, &s, 48_000, false, false);
    assert_eq!(o.rate, 48_000);
    assert!(!state.bitstream);
    assert_eq!(o.plan_switch(None, true).target, 48_000);
}

#[test]
fn failed_rebuild_is_not_said_to_be_native() {
    let mut state = SharedState::default();
    let mut o = Output::new(48_000, None);
    let s = o.plan_switch(Some(96_000), true);
    o.switch_stream(&mut state, &s, 48_000, false, true);
    assert!(o.open);
    assert_eq!(o.rate, 48_000);
    assert!(!state.bitstream);
    let s = o.plan_switch(Some(96_000), true);
    o.switch_stream(&mut state, &s, 48_000, false, false);
    assert!(!o.open);
}

#[test]
fn playing_starts_from_a_clean_state() {
    let mut state = SharedState::default();
    let mut o = Output::new(48_000, None);
    state.signal_playback_finished();
    state.add_frames(100);
    assert_eq!(o.play(&mut state), (Order::Load, StreamAct::Play));
    assert!(o.has_path && state.is_playing);
    assert!(!state.playback_finished);
    assert_eq!(state.frames_played, 0);
    assert_eq!(state.flush_epoch, 1);
    let at = 2.5f64.to_bits();
    assert_eq!(o.play_resume(&mut state, at), (Order::LoadAndSeek(at), StreamAct::Play));
    assert_eq!(state.position_base, at);
}

#[test]
fn commands_change_the_state() {
    let mut state = SharedState::default();
    let mut o = Output::new(48_000, None);
    o.play(&mut state);
    assert_eq!(o.pause(&mut state), StreamAct::Pause);
    assert!(!state.is_playing);
    assert_eq!(o.resume(&mut state), StreamAct::Play);
    assert!(state.is_playing);
    assert_eq!(o.seek(&mut state, 7), Order::Seek(7));
    assert_eq!(state.position_base, 7);
    assert_eq!(o.preload_next(), Order::Preload);
    state.set_duration(9);
    assert_eq!(o.stop(&mut state), (Order::Stop, StreamAct::Pause));
    assert!(!o.has_path && !state.is_playing);
    assert_eq!(state.duration_secs, 0);
}

#[test]
fn end_of_playback_pauses_the_output_once() {
    let mut state = SharedState::default();
    let mut o = Output::new(48_000, None);
    o.play(&mut state);
    assert_eq!(o.poll_finished(&mut state), StreamAct::Keep);
    state.signal_playback_finished();
    assert_eq!(o.poll_finished(&mut state), StreamAct::Pause);
    assert!(!o.has_path && !state.is_playing);
    assert_eq!(o.poll_finished(&mut state), StreamAct::Keep);
}

#[test]
fn other_device_counts_only_while_a_file_is_played() {
    let mut state = SharedState::default();
    let mut o = Output::new(48_000, Some("a".to_string()));
    assert!(!o.device_polled(Some("a".to_string())));
    assert!(!o.device_polled(Some("b".to_string())));
    o.play(&mut state);
    assert!(!o.device_polled(Some("b".to_string())));
    assert!(o.device_polled(None));
}

#[test]
fn device_change_reloads_or_reports_the_loss() {
    let mut state = SharedState::default();
    let mut o = Output::new(48_000, None);
    o.play(&mut state);
    let r = o.device_changed(&mut state, 44_100, 44_100, true, false);
    assert_eq!(r, (DeviceOutcome::Reloaded, StreamAct::Play));
    assert_eq!(state.stream_sample_rate, 44_100);
    o.pause(&mut state);
    let r = o.device_changed(&mut state, 48_000, 44_100, false, true);
    assert_eq!(r, (DeviceOutcome::Reloaded, StreamAct::Pause));
    let r = o.device_changed(&mut state, 48_000, 44_100, false, false);
    assert_eq!(r, (DeviceOutcome::Lost, StreamAct::Keep));
    assert_eq!(
        state.take_last_error().as_deref(),
        Some("音频设备不可用：新设备建流失败，已保持静音")
    );
}
