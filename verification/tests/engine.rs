//! The state shared between the threads.

use tuneux_corex::engine::{SharedState, MAX_GAIN, VOLUME_SCALE};
use tuneux_corex::playback_medium::PlaybackMedium;

fn hundredths(db: f64) -> Option<i32> {
    if db.is_finite() {
        Some((db * 100.0).round() as i32)
    } else {
        None
    }
}

#[test]
fn measured_gain_db_roundtrip_signed() {
    let mut st = SharedState::default();
    for db in [-23.47, -12.34, -8.0, -0.5, 0.0, 3.21, 76.0] {
        st.set_measured_gain_db(hundredths(db));
        let back = st.take_measured_gain_db().expect("已写入应能读出") as f64 / 100.0;
        assert!((back - db).abs() < 1e-9, "往返失真：{db} -> {back}");
    }
    st.set_measured_gain_db(hundredths(f64::NEG_INFINITY));
    assert!(st.take_measured_gain_db().is_none());
    st.set_measured_gain_db(hundredths(-8.0));
    let _ = st.take_measured_gain_db();
    assert!(st.take_measured_gain_db().is_none());
}

#[test]
fn eq_slot_alloc_free_roundtrip() {
    let mut st = SharedState::default();
    let slot = st.alloc_eq_slot().expect("首槽可分配");
    assert!(st.eq_slot_used(slot as usize));
    assert!(st.set_eq_band(slot, 0, 6.0f32.to_bits()));
    st.set_eq_enabled(slot, false);
    assert_eq!(f32::from_bits(st.eq_slots[slot as usize].band(0)), 6.0);
    st.free_eq_slot(slot);
    assert!(!st.eq_slot_used(slot as usize));
    let params = &st.eq_slots[slot as usize];
    assert_eq!(f32::from_bits(params.band(0)), 0.0);
    assert!(params.enabled(), "释放后应回到默认启用");
    let slot2 = st.alloc_eq_slot().expect("释放后可复用");
    assert_eq!(slot2, slot);
}

#[test]
fn comp_slot_alloc_free_roundtrip() {
    let mut st = SharedState::default();
    let slot = st.alloc_comp_slot().expect("首槽可分配");
    assert!(st.comp_slot_used(slot as usize));
    let params = &mut st.comp_slots[slot as usize];
    params.set_threshold((-10.0f32).to_bits());
    params.set_ratio(8.0f32.to_bits());
    params.set_enabled(false);
    st.free_comp_slot(slot);
    assert!(!st.comp_slot_used(slot as usize));
    let params = &st.comp_slots[slot as usize];
    assert_eq!(f32::from_bits(params.threshold()), -20.0);
    assert_eq!(f32::from_bits(params.ratio()), 4.0);
    assert!(params.enabled(), "释放后应回到默认启用");
    let slot2 = st.alloc_comp_slot().expect("释放后可复用");
    assert_eq!(slot2, slot);
}

#[test]
fn all_slots_can_be_taken_and_no_more() {
    let mut st = SharedState::default();
    for i in 0..8 {
        assert_eq!(st.alloc_eq_slot(), Some(i));
        assert_eq!(st.alloc_comp_slot(), Some(i));
    }
    assert_eq!(st.alloc_eq_slot(), None);
    assert_eq!(st.alloc_comp_slot(), None);
    st.free_eq_slot(5);
    st.free_eq_slot(3);
    assert_eq!(st.alloc_eq_slot(), Some(3));
    st.free_comp_slot(99);
    assert_eq!(st.alloc_comp_slot(), None);
    assert!(!st.eq_slot_used(99));
}

#[test]
fn refused_band_changes_nothing() {
    let mut st = SharedState::default();
    assert!(!st.set_eq_band(8, 0, 0));
    assert!(!st.set_eq_band(0, 10, 0));
    assert!(!st.set_eq_band(0, 0, f32::NAN.to_bits()));
    assert_eq!(st.eq_slots[0].band(0), 0);
}

#[test]
fn volume_and_gain_are_limited() {
    let mut st = SharedState::default();
    st.set_volume(2 * VOLUME_SCALE);
    assert_eq!(st.volume, VOLUME_SCALE);
    st.set_replay_gain(MAX_GAIN + 1);
    assert_eq!(st.replay_gain(), VOLUME_SCALE);
    st.set_replay_gain_enabled(true);
    assert_eq!(st.replay_gain(), MAX_GAIN);
}

#[test]
fn end_is_reported_once() {
    let mut st = SharedState::default();
    st.signal_playback_finished();
    assert!(st.at_eof);
    assert!(st.take_playback_finished());
    assert!(!st.take_playback_finished());
    st.clear_at_eof();
    assert!(!st.at_eof);
}

#[test]
fn displays_are_overwritten_as_far_as_they_go() {
    let mut st = SharedState::default();
    st.set_spectrum_lr(&[1, 2], &[3; 300]);
    assert_eq!(&st.spectrum_l[..3], &[1, 2, 0]);
    assert_eq!(st.spectrum_r.len(), 256);
    assert_eq!(st.spectrum_r[255], 3);
    st.set_waveform_lr(&[9; 128], &[]);
    assert_eq!(st.waveform_l[127], 9);
    assert_eq!(st.waveform_r[0], 0);
    st.set_level_lr(4, 5);
    assert_eq!((st.level_l, st.level_r), (4, 5));
}

#[test]
fn other_fields_keep_what_they_are_given() {
    let mut st = SharedState::default();
    assert_eq!(st.effective_rate(48_000), 48_000);
    st.set_stream_sample_rate(44_100);
    assert_eq!(st.effective_rate(48_000), 44_100);
    assert_eq!(st.medium(), PlaybackMedium::Plain);
    st.set_medium(PlaybackMedium::VinylAged);
    assert_eq!(st.medium(), PlaybackMedium::VinylAged);
    st.set_bitstream(true);
    assert!(st.bitstream);
    st.set_last_error("x".to_string());
    assert_eq!(st.take_last_error().as_deref(), Some("x"));
    assert_eq!(st.take_last_error(), None);
    assert_eq!(st.bump_flush(), 1);
    st.reset_position(3);
    st.add_frames(10);
    assert_eq!((st.position_base, st.frames_played), (3, 10));
}
