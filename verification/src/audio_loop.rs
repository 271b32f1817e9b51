//! The decisions of the audio thread: which rate the output runs at, what a
//! command does to the shared state, the output and the decoder thread, and what
//! follows when the default device changes.
//!
//! Building outputs and talking to the other threads happen outside. Times are
//! carried as the bits of numbers in seconds.

use crate::chars::{chars_of, same};
use crate::engine::SharedState;
use vstd::prelude::*;

verus! {

/// What happens to the output, where there is one.
#[derive(Debug, Clone, Copy, PartialEq, Eq, Structural)]
pub enum StreamAct {
    /// Nothing.
    Keep,
    /// It is paused.
    Pause,
    /// It is started.
    Play,
}

/// What the decoder thread is told.
#[derive(Debug, Clone, Copy, PartialEq, Eq, Structural)]
pub enum Order {
    /// Load the file.
    Load,
    /// Load the file and go to this time.
    LoadAndSeek(u64),
    /// Go to this time.
    Seek(u64),
    /// Stop.
    Stop,
    /// Open the next file ahead, or drop what was opened ahead.
    Preload,
}

/// The rate that a file is to be played at.
#[derive(Debug, Clone, Copy)]
pub struct Switch {
    /// The rate.
    pub target: u32,
    /// Whether it is that of the file.
    pub native: bool,
}

/// What came of a change of the device.
#[derive(Debug, Clone, Copy, PartialEq, Eq, Structural)]
pub enum DeviceOutcome {
    /// There is an output again, and the file is loaded again.
    Reloaded,
    /// There is no output.
    Lost,
}

/// What the audio thread knows between two rounds.
pub struct Output {
    /// Whether there is an output.
    pub open: bool,
    /// The rate it runs at.
    pub rate: u32,
    /// Whether a file is being played, which would have to be loaded again for
    /// another device.
    pub has_path: bool,
    /// The name of the default device when it was last asked for.
    pub device: Option<String>,
}

/// The name of a device.
pub open spec fn name_of(d: Option<String>) -> Option<Seq<char>> {
    match d {
        Some(s) => Some(s@),
        None => None,
    }
}

/// Whether a rate lies in one of the ranges.
pub open spec fn supported_by(ranges: Seq<(u32, u32)>, rate: u32) -> bool {
    exists|i: int| 0 <= i < ranges.len() && (#[trigger] ranges[i]).0 <= rate <= ranges[i].1
}

/// Tests whether a device that offers these ranges can run at a rate.
pub fn sample_rate_supported(ranges: &[(u32, u32)], rate: u32) -> (r: bool)
    ensures
        r == supported_by(ranges@, rate),
{
    let mut i: usize = 0;
    while i < ranges.len()
        invariant
            i <= ranges.len(),
            forall|j: int|
                0 <= j < i ==> !((#[trigger] ranges@[j]).0 <= rate <= ranges@[j].1),
        decreases ranges.len() - i,
    {
        let (low, high): (u32, u32) = ranges[i];
        if low <= rate && rate <= high {
            assert(ranges@[i as int].0 <= rate <= ranges@[i as int].1);
            return true;
        }
        i = i + 1;
    }
    false
}

fn same_device(a: &Option<String>, b: &Option<String>) -> (r: bool)
    ensures
        r == (name_of(*a) == name_of(*b)),
{
    match (a, b) {
        (Some(x), Some(y)) => same(chars_of(x.as_str()).as_slice(), y.as_str()),
        (None, None) => true,
        _ => false,
    }
}

impl Output {
    /// An output at the rate of the device.
    pub fn new(rate: u32, device: Option<String>) -> (o: Output)
        ensures
            o == (Output { open: true, rate, has_path: false, device }),
    {
        Output { open: true, rate, has_path: false, device }
    }

    /// The end of playback, if it was reported: the output is paused, and no file
    /// is being played.
    pub fn poll_finished(&mut self, state: &mut SharedState) -> (act: StreamAct)
        ensures
            old(state).playback_finished ==> {
                &&& act == StreamAct::Pause
                &&& *final(self) == (Output { has_path: false, ..*old(self) })
                &&& *final(state) == (SharedState {
                    playback_finished: false,
                    is_playing: false,
                    ..*old(state)
                })
            },
            !old(state).playback_finished ==> {
                &&& act == StreamAct::Keep
                &&& *final(self) == *old(self)
                &&& *final(state) == *old(state)
            },
    {
        if state.take_playback_finished() {
            state.set_playing(false);
            self.has_path = false;
            StreamAct::Pause
        } else {
            StreamAct::Keep
        }
    }

    /// The rate for a file: its own where that was found and the device can run at
    /// it, else that of the output as it is.
    #[verifier::allow_in_spec]
    pub fn plan_switch(&self, file_rate: Option<u32>, supported: bool) -> Switch
        returns
            (match file_rate {
                Some(sr) => if supported {
                    Switch { target: sr, native: true }
                } else {
                    Switch { target: self.rate, native: false }
                },
                None => Switch { target: self.rate, native: false },
            }),
    {
        match file_rate {
            Some(sr) => if supported {
                Switch { target: sr, native: true }
            } else {
                Switch { target: self.rate, native: false }
            },
            None => Switch { target: self.rate, native: false },
        }
    }

    /// Whether a new output has to be built.
    pub fn needs_rebuild(&self, s: &Switch) -> (r: bool)
        ensures
            r == (s.target != self.rate),
    {
        s.target != self.rate
    }

    /// The output after it was built for another rate: `first` says whether that
    /// worked, `second` whether it then worked at the rate of the device.
    pub open spec fn rebuilt(self, target: u32, device_rate: u32, first: bool, second: bool) -> Output {
        if first {
            Output { open: true, rate: target, ..self }
        } else {
            Output { open: second, rate: device_rate, ..self }
        }
    }

    /// Takes over the rate for a file. Where a new output had to be built, `first`
    /// and `second` say how that went.
    pub fn switch_stream(
        &mut self,
        state: &mut SharedState,
        s: &Switch,
        device_rate: u32,
        first: bool,
        second: bool,
    )
        ensures
            *final(self) == (if s.target != old(self).rate {
                old(self).rebuilt(s.target, device_rate, first, second)
            } else {
                *old(self)
            }),
            *final(state) == (SharedState {
                stream_sample_rate: if s.target != old(self).rate {
                    final(self).rate
                } else {
                    old(state).stream_sample_rate
                },
                bitstream: s.native && final(self).rate == s.target,
                ..*old(state)
            }),
    {
        if s.target != self.rate {
            if first {
                self.open = true;
                self.rate = s.target;
            } else {
                self.open = second;
                self.rate = device_rate;
            }
            state.set_stream_sample_rate(self.rate);
        }
        state.set_bitstream(s.native && self.rate == s.target);
    }

    fn begin(&mut self, state: &mut SharedState, base: u64)
        ensures
            *final(self) == (Output { has_path: true, ..*old(self) }),
            *final(state) == started(*old(state), base),
    {
        state.reset_position(base);
        state.bump_flush();
        state.take_playback_finished();
        state.set_playing(true);
        self.has_path = true;
    }

    /// A file is played from its start.
    pub fn play(&mut self, state: &mut SharedState) -> (r: (Order, StreamAct))
        ensures
            *final(self) == (Output { has_path: true, ..*old(self) }),
            *final(state) == started(*old(state), 0),
            r == (Order::Load, StreamAct::Play),
    {
        self.begin(state, 0);
        (Order::Load, StreamAct::Play)
    }

    /// A file is played from a time.
    pub fn play_resume(&mut self, state: &mut SharedState, secs: u64) -> (r: (Order, StreamAct))
        ensures
            *final(self) == (Output { has_path: true, ..*old(self) }),
            *final(state) == started(*old(state), secs),
            r == (Order::LoadAndSeek(secs), StreamAct::Play),
    {
        self.begin(state, secs);
        (Order::LoadAndSeek(secs), StreamAct::Play)
    }

    /// Playback pauses.
    pub fn pause(&self, state: &mut SharedState) -> (act: StreamAct)
        ensures
            *final(state) == (SharedState { is_playing: false, ..*old(state) }),
            act == StreamAct::Pause,
    {
        state.set_playing(false);
        StreamAct::Pause
    }

    /// Playback goes on.
    pub fn resume(&self, state: &mut SharedState) -> (act: StreamAct)
        ensures
            *final(state) == (SharedState { is_playing: true, ..*old(state) }),
            act == StreamAct::Play,
    {
        state.set_playing(true);
        StreamAct::Play
    }

    /// Playback stops, and nothing is shown of the last file.
    pub fn stop(&mut self, state: &mut SharedState) -> (r: (Order, StreamAct))
        ensures
            *final(self) == (Output { has_path: false, ..*old(self) }),
            *final(state) == (SharedState {
                is_playing: false,
                flush_epoch: old(state).flush_epoch.wrapping_add(1),
                position_base: 0,
                frames_played: 0,
                duration_secs: 0,
                bitstream: false,
                ..*old(state)
            }),
            r == (Order::Stop, StreamAct::Pause),
    {
        state.set_playing(false);
        state.bump_flush();
        state.reset_position(0);
        state.set_duration(0);
        state.set_bitstream(false);
        self.has_path = false;
        (Order::Stop, StreamAct::Pause)
    }

    /// Playback goes to a time.
    pub fn seek(&self, state: &mut SharedState, secs: u64) -> (order: Order)
        ensures
            *final(state) == (SharedState {
                position_base: secs,
                frames_played: 0,
                flush_epoch: old(state).flush_epoch.wrapping_add(1),
                ..*old(state)
            }),
            order == Order::Seek(secs),
    {
        state.reset_position(secs);
        state.bump_flush();
        Order::Seek(secs)
    }

    /// The next file is to be opened ahead.
    pub fn preload_next(&self) -> (order: Order)
        ensures
            order == Order::Preload,
    {
        Order::Preload
    }

    /// Looks at the name of the default device. The result says whether the output
    /// has to be built anew: it is another device, and a file is being played.
    pub fn device_polled(&mut self, name: Option<String>) -> (rebuild: bool)
        ensures
            *final(self) == (Output { device: final(self).device, ..*old(self) }),
            name_of(final(self).device) == name_of(name),
            rebuild == (name_of(name) != name_of(old(self).device) && old(self).has_path),
    {
        if same_device(&name, &self.device) {
            return false;
        }
        self.device = name;
        self.has_path
    }

    /// The output was built for another device, at its rate `target` or, where
    /// that failed, at `device_rate`; `first` and `second` say how that went. The
    /// file starts anew, and does not run at its own rate.
    pub fn device_changed(
        &mut self,
        state: &mut SharedState,
        target: u32,
        device_rate: u32,
        first: bool,
        second: bool,
    ) -> (r: (DeviceOutcome, StreamAct))
        ensures
            *final(self) == old(self).rebuilt(target, device_rate, first, second),
            first || second ==> {
                &&& r.0 == DeviceOutcome::Reloaded
                &&& r.1 == (if old(state).is_playing {
                    StreamAct::Play
                } else {
                    StreamAct::Pause
                })
                &&& *final(state) == (SharedState {
                    flush_epoch: old(state).flush_epoch.wrapping_add(1),
                    stream_sample_rate: final(self).rate,
                    position_base: 0,
                    frames_played: 0,
                    bitstream: false,
                    ..*old(state)
                })
            },
            !first && !second ==> {
                &&& r == (DeviceOutcome::Lost, StreamAct::Keep)
                &&& final(state).last_error matches Some(text)
                &&& text@ == "音频设备不可用：新设备建流失败，已保持静音"@
                &&& *final(state) == (SharedState {
                    flush_epoch: old(state).flush_epoch.wrapping_add(1),
                    stream_sample_rate: device_rate,
                    last_error: final(state).last_error,
                    ..*old(state)
                })
            },
    {
        state.bump_flush();
        if first {
            self.open = true;
            self.rate = target;
        } else {
            self.open = second;
            self.rate = device_rate;
        }
        state.set_stream_sample_rate(self.rate);
        if !first && !second {
            state.set_last_error("音频设备不可用：新设备建流失败，已保持静音".to_owned());
            return (DeviceOutcome::Lost, StreamAct::Keep);
        }
        state.reset_position(0);
        state.set_bitstream(false);
        if state.is_playing {
            (DeviceOutcome::Reloaded, StreamAct::Play)
        } else {
            (DeviceOutcome::Reloaded, StreamAct::Pause)
        }
    }
}

/// The state when playback starts at a time: the buffer is dropped, and an end
/// reported before counts no longer.
pub open spec fn started(s: SharedState, base: u64) -> SharedState {
    SharedState {
        position_base: base,
        frames_played: 0,
        flush_epoch: s.flush_epoch.wrapping_add(1),
        playback_finished: false,
        is_playing: true,
        ..s
    }
}

/// Playback is only said to run at the rate of the file if the output does run
/// at it, also where building the output failed in between.
pub proof fn law_native_is_true(
    o: Output,
    file_rate: Option<u32>,
    supported: bool,
    device_rate: u32,
    first: bool,
    second: bool,
)
    ensures
        ({
            let s = o.plan_switch(file_rate, supported);
            let after = if s.target != o.rate {
                o.rebuilt(s.target, device_rate, first, second)
            } else {
                o
            };
            s.native && after.rate == s.target ==> file_rate == Some(after.rate) && supported
        }),
{
}

} // verus!
