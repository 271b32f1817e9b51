//! The decoder thread, round by round, with files and buffers that are played by
//! the tests.

use ringbuf::traits::{Consumer, Observer, Producer, Split};
use ringbuf::HeapRb;
use tuneux_corex::decoder_loop::{
    crowded, resample_rates, tail_frames, Decoder, Next, Notice, Opening, Range, Tick, Track,
};
use tuneux_corex::engine::SharedState;
use tuneux_corex::sample_utils::{Push, PushStep};
use tuneux_corex::wav::WavBackend;

enum FakeOutcome {
    Samples(Vec<f32>),
    Eof,
    Broken,
}

#[derive(Debug, PartialEq, Eq)]
enum TickAction {
    Decoded,
    DrainingWait,
    DrainFinished,
    Idle,
}

fn stereo() -> Track {
    Track { rate: Some(44_100), channels: Some(2), duration: None }
}

/// A decoder with the buffer that it fills.
struct DecoderSim {
    decoder: Decoder,
    occupied: usize,
    decoded_calls: u32,
    signal_finished_calls: u32,
}

impl DecoderSim {
    fn new() -> Self {
        Self {
            decoder: Decoder::new(),
            occupied: 0,
            decoded_calls: 0,
            signal_finished_calls: 0,
        }
    }

    /// A file is open and being decoded.
    fn start(&mut self, state: &mut SharedState) {
        let opening = Opening::Ready { track: stereo(), resampled: false };
        assert_eq!(self.decoder.load(state, opening), None);
        assert!(self.decoder.decoding);
    }

    fn step(&mut self, state: &mut SharedState, outcome: FakeOutcome) -> TickAction {
        match self.decoder.tick(state.is_playing, self.occupied) {
            Tick::Decode => {
                self.decoded_calls += 1;
                match outcome {
                    FakeOutcome::Samples(samples) => {
                        self.occupied += samples.len();
                        TickAction::Decoded
                    }
                    FakeOutcome::Eof => {
                        assert_eq!(self.decoder.end_reached(state, None, 0, 0), None);
                        TickAction::DrainingWait
                    }
                    FakeOutcome::Broken => {
                        assert_eq!(self.decoder.failed(state, "bad"), Notice::Failed);
                        self.occupied = 0;
                        self.signal_finished_calls += 1;
                        TickAction::DrainFinished
                    }
                }
            }
            Tick::Finish => {
                assert_eq!(self.decoder.drained(state, None), Notice::Finished);
                self.signal_finished_calls += 1;
                TickAction::DrainFinished
            }
            Tick::DrainWait => TickAction::DrainingWait,
            Tick::Idle => TickAction::Idle,
        }
    }

    fn consume(&mut self, n: usize) {
        self.occupied = self.occupied.saturating_sub(n);
    }
}

#[test]
fn pause_gates_decoding() {
    let mut state = SharedState::default();
    let mut sim = DecoderSim::new();
    sim.start(&mut state);
    state.set_playing(true);
    state.set_playing(false);
    let action = sim.step(&mut state, FakeOutcome::Samples(vec![0.1, 0.2, 0.3, 0.4]));
    assert_eq!(action, TickAction::Idle, "暂停时应 Idle，不调 decode_next");
    assert_eq!(sim.decoded_calls, 0, "暂停期间 decode_next 调用次数应为 0");
    assert_eq!(sim.occupied, 0, "暂停期间不应推数据进 ringbuf");
}

#[test]
fn fatal_error_signals_immediately() {
    let mut state = SharedState::default();
    let mut sim = DecoderSim::new();
    sim.start(&mut state);
    state.set_playing(true);
    let a = sim.step(&mut state, FakeOutcome::Broken);
    assert_eq!(
        a,
        TickAction::DrainFinished,
        "致命错误路径返回 DrainFinished"
    );
    assert!(state.take_playback_finished(), "致命错误立即上报播放结束");
    assert_eq!(sim.signal_finished_calls, 1);
    assert!(!sim.decoder.draining, "致命错误不进入 draining");
    assert_eq!(sim.occupied, 0, "致命错误清空缓冲");
    assert_eq!(state.take_last_error().as_deref(), Some("解码错误：bad"));
}

#[test]
fn resume_continues_decoding() {
    let mut state = SharedState::default();
    let mut sim = DecoderSim::new();
    sim.start(&mut state);
    state.set_playing(true);
    state.set_playing(false);
    for _ in 0..3 {
        let a = sim.step(&mut state, FakeOutcome::Samples(vec![0.0; 1024]));
        assert_eq!(a, TickAction::Idle);
    }
    assert_eq!(sim.decoded_calls, 0);
    state.set_playing(true);
    let a = sim.step(&mut state, FakeOutcome::Samples(vec![0.0; 512]));
    assert_eq!(a, TickAction::Decoded);
    assert_eq!(sim.decoded_calls, 1);
    assert_eq!(sim.occupied, 512);
}

#[test]
fn eof_activates_draining_without_signal() {
    let mut state = SharedState::default();
    let mut sim = DecoderSim::new();
    sim.start(&mut state);
    sim.occupied = 4096;
    state.set_playing(true);
    let action = sim.step(&mut state, FakeOutcome::Eof);
    assert_eq!(action, TickAction::DrainingWait);
    assert!(!sim.decoder.decoding, "EOF 后 decoding 应为 false");
    assert!(sim.decoder.draining, "EOF 后 draining 应为 true");
    assert_eq!(sim.occupied, 4096);
    assert!(
        !state.take_playback_finished(),
        "关键：EOF 后**不能**立即 signal_playback_finished，否则尾巴被吞"
    );
    assert_eq!(sim.signal_finished_calls, 0);
}

#[test]
fn drain_completes_when_buffer_empty() {
    let mut state = SharedState::default();
    let mut sim = DecoderSim::new();
    sim.start(&mut state);
    sim.occupied = 2000;
    state.set_playing(true);
    let a = sim.step(&mut state, FakeOutcome::Eof);
    assert_eq!(a, TickAction::DrainingWait);
    assert!(!state.take_playback_finished(), "occupied>0 时不应上报");
    sim.consume(800);
    let a = sim.step(&mut state, FakeOutcome::Samples(vec![]));
    assert_eq!(
        a,
        TickAction::DrainingWait,
        "occupied=1200>0 仍 DrainingWait"
    );
    assert!(!state.take_playback_finished(), "occupied>0 仍不应上报");
    sim.consume(1200);
    assert_eq!(sim.occupied, 0);
    let a = sim.step(&mut state, FakeOutcome::Samples(vec![]));
    assert_eq!(a, TickAction::DrainFinished, "occupied=0 时上报");
    assert!(!sim.decoder.draining, "上报后 draining 退出");
    assert!(
        state.take_playback_finished(),
        "occupied 归零后应 signal_playback_finished"
    );
    assert_eq!(sim.signal_finished_calls, 1);
}

#[test]
fn drain_paused_holds_until_resume() {
    let mut state = SharedState::default();
    let mut sim = DecoderSim::new();
    sim.start(&mut state);
    sim.occupied = 1000;
    state.set_playing(true);
    let _ = sim.step(&mut state, FakeOutcome::Eof);
    assert!(sim.decoder.draining);
    assert!(!state.take_playback_finished());
    state.set_playing(false);
    for _ in 0..5 {
        let a = sim.step(&mut state, FakeOutcome::Samples(vec![0.0; 10]));
        assert_eq!(
            a,
            TickAction::DrainingWait,
            "暂停时 occupied 冻结 → draining 分支返回 DrainingWait（非 Idle）"
        );
    }
    assert_eq!(sim.occupied, 1000, "暂停期间 occupied 不变");
    assert!(sim.decoder.draining, "draining 状态保留");
    assert!(
        !state.take_playback_finished(),
        "联合：暂停期间不应上报（保留尾巴）"
    );
    assert_eq!(sim.signal_finished_calls, 0);
    state.set_playing(true);
    sim.consume(1000);
    assert_eq!(sim.occupied, 0);
    let a = sim.step(&mut state, FakeOutcome::Samples(vec![]));
    assert_eq!(a, TickAction::DrainFinished);
    assert!(!sim.decoder.draining);
    assert!(state.take_playback_finished());
    assert_eq!(sim.signal_finished_calls, 1);
}

fn make_ramp_wav(frames: usize) -> Vec<u8> {
    let mut data = Vec::with_capacity(frames * 4);
    for i in 0..frames {
        let v = (i % 30000) as i16;
        data.extend_from_slice(&v.to_le_bytes());
        data.extend_from_slice(&v.to_le_bytes());
    }
    let mut v = Vec::new();
    v.extend_from_slice(b"RIFF");
    v.extend_from_slice(&(36u32 + data.len() as u32).to_le_bytes());
    v.extend_from_slice(b"WAVE");
    v.extend_from_slice(b"fmt ");
    v.extend_from_slice(&16u32.to_le_bytes());
    v.extend_from_slice(&1u16.to_le_bytes());
    v.extend_from_slice(&2u16.to_le_bytes());
    v.extend_from_slice(&44100u32.to_le_bytes());
    v.extend_from_slice(&176400u32.to_le_bytes());
    v.extend_from_slice(&4u16.to_le_bytes());
    v.extend_from_slice(&16u16.to_le_bytes());
    v.extend_from_slice(b"data");
    v.extend_from_slice(&(data.len() as u32).to_le_bytes());
    v.extend_from_slice(&data);
    v
}

fn seconds(s: f64) -> u64 {
    s.to_bits()
}

fn frames_at(secs: u64) -> u64 {
    (f64::from_bits(secs) * 44100.0).round() as u64
}

/// Plays a range, and another one opened ahead, through a real file and a real
/// buffer. Gives the samples played, whether playback went on without a gap, the
/// length shown and whether the end was reached.
fn drive(file: &[u8], first: Range, ahead: Option<Range>) -> (Vec<f32>, bool, f64, bool) {
    let mut state = SharedState::default();
    state.set_playing(true);
    let (mut prod, mut cons) = HeapRb::<f32>::new(1 << 20).split();
    let mut d = Decoder::new();
    let mut backend = WavBackend::open(file.to_vec()).expect("open");
    backend.seek_frame(frames_at(first.start));
    let length = |r: Range| match r.end {
        Some(e) => (f64::from_bits(e) - f64::from_bits(r.start)).to_bits(),
        None => 0,
    };
    let opening = Opening::Ready { track: stereo(), resampled: false };
    assert_eq!(
        d.load_range(&mut state, opening, true, first, length(first), "1", "a.wav"),
        None
    );
    let mut next_backend = ahead.map(|r| {
        let mut b = WavBackend::open(file.to_vec()).expect("open");
        b.seek_frame(frames_at(r.start));
        d.preload(Some(Next { track: stereo(), range: Some(r) }));
        b
    });
    let mut out = Vec::new();
    let mut switched = false;
    loop {
        match d.tick(state.is_playing, prod.occupied_len()) {
            Tick::Decode => {
                let range_frames = match d.range_end {
                    Some(e) => frames_at(e) - frames_at(d.range_base),
                    None => 0,
                };
                let mut ended = true;
                if let Some(chunk) = backend.decode_next() {
                    let (keep, end) = d.clip_batch(chunk.len(), 2, range_frames);
                    let samples: Vec<f32> =
                        chunk[..keep].iter().map(|v| *v as f32 / 32768.0).collect();
                    let mut push = Push::new(samples.len(), 2);
                    while !push.done() {
                        let n = push.offer(prod.vacant_len());
                        let took = prod.push_slice(&samples[push.pushed..push.pushed + n]);
                        assert_eq!(push.took(took), PushStep::Again);
                    }
                    d.pushed(samples.len(), 2);
                    ended = end;
                }
                if ended {
                    let base = d.preloaded.and_then(|n| n.range).map_or(0, |r| r.start);
                    let shown = d.preloaded.and_then(|n| n.range).map_or(0, length);
                    match d.end_reached(&mut state, None, shown, base) {
                        Some(Notice::TrackSwitched) => {
                            switched = true;
                            backend = next_backend.take().expect("next");
                        }
                        other => assert_eq!(other, None),
                    }
                }
            }
            Tick::Finish => {
                assert_eq!(d.drained(&mut state, None), Notice::Finished);
                break;
            }
            Tick::DrainWait | Tick::Idle => {}
        }
        while let Some(s) = cons.try_pop() {
            out.push(s);
        }
    }
    (out, switched, f64::from_bits(state.duration_secs), state.at_eof)
}

fn frame_value(i: u64) -> f32 {
    (i % 30000) as i16 as f32 / 32768.0
}

#[test]
fn play_range_finished_exact_bounds() {
    let file = make_ramp_wav(132300);
    let first = Range { start: seconds(1.0), end: Some(seconds(2.0)) };
    let (out, switched, dur, at_eof) = drive(&file, first, None);
    assert!(!switched, "无预载不应无缝切换");
    assert!(
        at_eof,
        "finished 后应处于末尾态（无时长曲目重播判定依赖它）"
    );
    assert_eq!(dur, 1.0, "时长应按区间长度上报");
    assert_eq!(out.len(), 88200, "输出样本数应恰为区间长度");
    assert_eq!(out[0], frame_value(44100), "区间起点帧错位");
    assert_eq!(
        out[out.len() - 2],
        frame_value(44100 + 44100 - 1),
        "区间终点帧错位"
    );
}

#[test]
fn play_range_gapless_adjacent_ranges() {
    let file = make_ramp_wav(132300);
    let first = Range { start: seconds(1.0), end: Some(seconds(2.0)) };
    let ahead = Range { start: seconds(2.0), end: Some(seconds(3.0)) };
    let (out, switched, _dur, at_eof) = drive(&file, first, Some(ahead));
    assert!(switched, "相邻区间应发生无缝切换");
    assert!(at_eof, "末段播完后应处于末尾态");
    assert_eq!(out.len(), 176400, "两段区间合计应恰为 2 秒");
    assert_eq!(out[0], frame_value(44100), "第一段起点帧错位");
    assert_eq!(
        out[88200],
        frame_value(88200),
        "切换后第二段起点帧错位（下一曲开头丢失）"
    );
    assert_eq!(
        out[out.len() - 2],
        frame_value(88200 + 44100 - 1),
        "第二段终点帧错位"
    );
}

#[test]
fn failed_opening_reports_an_error() {
    let mut state = SharedState::default();
    let mut d = Decoder::new();
    let opening = Opening::Failed { name: "a.mp3".to_string(), message: "gone".to_string() };
    assert_eq!(d.load(&mut state, opening), Some(Notice::Failed));
    assert!(!d.decoding);
    assert!(state.take_playback_finished());
    let text = state.take_last_error().expect("error");
    assert!(text.contains("gone"), "{text}");
    let opening = Opening::NoResampler { file_rate: 96_000, device_rate: 44_100 };
    assert_eq!(d.load_and_seek(&mut state, opening), Some(Notice::Failed));
    let text = state.take_last_error().expect("error");
    assert!(text.contains("96000") && text.contains("44100"), "{text}");
}

#[test]
fn start_of_a_range_that_is_not_reached_is_a_failure() {
    let mut state = SharedState::default();
    let mut d = Decoder::new();
    let opening = Opening::Ready { track: stereo(), resampled: false };
    let range = Range { start: seconds(5.0), end: None };
    let notice = d.load_range(&mut state, opening, false, range, 0, "5", "a.wav");
    assert_eq!(notice, Some(Notice::Failed));
    assert_eq!(
        state.take_last_error().as_deref(),
        Some("无法定位区间起点 5s：a.wav")
    );
}

#[test]
fn tracks_of_other_rates_are_not_joined() {
    let mut state = SharedState::default();
    let mut d = Decoder::new();
    d.load(&mut state, Opening::Ready { track: stereo(), resampled: false });
    let other = Track { rate: Some(48_000), ..stereo() };
    d.preload(Some(Next { track: other, range: None }));
    assert!(!d.can_switch());
    d.preload(Some(Next { track: stereo(), range: None }));
    assert!(d.can_switch());
    assert_eq!(d.end_reached(&mut state, None, 0, 0), Some(Notice::TrackSwitched));
    assert!(d.decoding);
    assert!(!state.take_playback_finished());
}

#[test]
fn measured_gain_is_stored_at_the_end() {
    let mut state = SharedState::default();
    state.set_replay_gain_enabled(true);
    let mut d = Decoder::new();
    d.load(&mut state, Opening::Ready { track: stereo(), resampled: false });
    assert!(d.analysing);
    assert_eq!(d.end_reached(&mut state, Some(-800), 0, 0), None);
    assert_eq!(d.drained(&mut state, Some(-800)), Notice::Finished);
    assert_eq!(state.take_measured_gain_db(), Some(-800));
}

#[test]
fn seek_gives_up_the_measurement() {
    let mut state = SharedState::default();
    state.set_replay_gain_enabled(true);
    let mut d = Decoder::new();
    assert!(!d.seek(&mut state, seconds(1.0), true));
    d.load(&mut state, Opening::Ready { track: stereo(), resampled: true });
    assert!(d.seek(&mut state, seconds(1.0), true));
    assert!(!d.analysing);
    assert!(d.decoding);
    d.stop();
    assert!(d.track.is_none());
    d.load(&mut state, Opening::Ready { track: stereo(), resampled: true });
    d.new_producer();
    assert!(d.track.is_none() && !d.resampled);
}

#[test]
fn tail_of_a_range_is_cut() {
    let mut state = SharedState::default();
    let mut d = Decoder::new();
    let range = Range { start: 0, end: Some(seconds(1.0)) };
    let opening = Opening::Ready { track: stereo(), resampled: true };
    d.load_range(&mut state, opening, true, range, seconds(1.0), "0", "a.wav");
    d.pushed(200, 2);
    assert_eq!(d.clip_tail(50, 2, 110), 20);
    assert_eq!(d.range_pushed_frames, 110);
    assert_eq!(d.clip_tail(50, 2, 110), 0);
    assert_eq!(d.channels_of_file(6), 2);
}

#[test]
fn resampler_is_needed_between_other_rates() {
    let mut state = SharedState::default();
    assert_eq!(resample_rates(&state, 48_000, Some(44_100)), Some((44_100, 48_000)));
    assert_eq!(resample_rates(&state, 48_000, Some(48_000)), None);
    assert_eq!(resample_rates(&state, 48_000, None), None);
    state.set_stream_sample_rate(44_100);
    assert_eq!(resample_rates(&state, 48_000, Some(44_100)), None);
}

#[test]
fn buffer_measures_are_exact() {
    assert!(crowded(1000, 2000));
    assert!(!crowded(975, 2000));
    assert!(crowded(976, 2000));
    assert!(crowded(0, 1024));
    assert_eq!(tail_frames(9, 2), 4);
    assert_eq!(tail_frames(9, 0), 9);
}
