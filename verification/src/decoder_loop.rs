//! The decisions of the decoder thread: what is loaded, when to decode, where a
//! range ends, when to go on with the next track, when playback has ended.
//!
//! Opening files, decoding, resampling and waiting happen outside; their
//! outcomes come in as plain values. Times are carried as the bits of numbers in
//! seconds.

use crate::engine::{stored_gain, SharedState};
use crate::text::{decimal, decimal_text};
use vstd::prelude::*;

verus! {

/// What is known of a file that was opened.
#[derive(Debug, Clone, Copy)]
pub struct Track {
    /// The sample rate.
    pub rate: Option<u32>,
    /// The channels.
    pub channels: Option<u16>,
    /// The length.
    pub duration: Option<u64>,
}

/// A part of a file.
#[derive(Debug, Clone, Copy)]
pub struct Range {
    /// Where it starts.
    pub start: u64,
    /// Where it ends; the end of the file where nothing is said.
    pub end: Option<u64>,
}

/// A track that was opened ahead.
#[derive(Debug, Clone, Copy)]
pub struct Next {
    /// The track.
    pub track: Track,
    /// The part to be played, where it is not all.
    pub range: Option<Range>,
}

/// How opening a file went.
pub enum Opening {
    /// It can be played.
    Ready {
        /// The file.
        track: Track,
        /// Whether its samples go through a resampler.
        resampled: bool,
    },
    /// There is no resampler between the two rates.
    NoResampler {
        /// The rate of the file.
        file_rate: u32,
        /// The rate of the output.
        device_rate: u32,
    },
    /// It could not be opened.
    Failed {
        /// The name of the file.
        name: String,
        /// What went wrong.
        message: String,
    },
}

/// What the main thread is told.
#[derive(Debug, Clone, Copy, PartialEq, Eq, Structural)]
pub enum Notice {
    /// A track cannot be played.
    Failed,
    /// A track was played to its end.
    Finished,
    /// Playback went on with the next track without a gap.
    TrackSwitched,
}

/// What the decoder thread does next.
#[derive(Debug, Clone, Copy, PartialEq, Eq, Structural)]
pub enum Tick {
    /// Decode.
    Decode,
    /// Report the end: everything decoded was played.
    Finish,
    /// Wait until the buffer is empty.
    DrainWait,
    /// Nothing.
    Idle,
}

/// What the decoder thread knows between two rounds.
#[derive(Debug, Clone, Copy)]
pub struct Decoder {
    /// The open file.
    pub track: Option<Track>,
    /// Whether its samples go through a resampler.
    pub resampled: bool,
    /// Whether it is to be decoded further.
    pub decoding: bool,
    /// Whether it was decoded to its end and the buffer is being played out.
    pub draining: bool,
    /// The track opened ahead.
    pub preloaded: Option<Next>,
    /// The sample rate of the file that was loaded.
    pub current_rate: Option<u32>,
    /// Whether the loudness is being measured.
    pub analysing: bool,
    /// Where the range ends.
    pub range_end: Option<u64>,
    /// Where the frames of the range are counted from.
    pub range_base: u64,
    /// The frames of the file decoded since.
    pub range_decoded_frames: u64,
    /// The frames put into the buffer since.
    pub range_pushed_frames: u64,
}

/// The two rates between which a file has to be resampled, if it has to.
pub fn resample_rates(state: &SharedState, device_rate: u32, file_rate: Option<u32>) -> (r: Option<
    (u32, u32),
>)
    ensures
        ({
            let output = if state.stream_sample_rate > 0 {
                state.stream_sample_rate
            } else {
                device_rate
            };
            r == (match file_rate {
                Some(f) => if f != output {
                    Some((f, output))
                } else {
                    None
                },
                None => None,
            })
        }),
{
    let output: u32 = state.effective_rate(device_rate);
    match file_rate {
        Some(f) => if f != output {
            Some((f, output))
        } else {
            None
        },
        None => None,
    }
}

/// What is shown where a file cannot be played.
pub open spec fn opening_error(o: Opening) -> Option<Seq<char>> {
    match o {
        Opening::Ready { .. } => None,
        Opening::NoResampler { file_rate, device_rate } => Some(
            "重采样器初始化失败（"@ + decimal(file_rate as int) + "→"@ + decimal(
                device_rate as int,
            ) + " Hz）"@,
        ),
        Opening::Failed { name, message } => Some(
            "打开失败 ["@ + name@ + "]："@ + message@,
        ),
    }
}

/// The state after a failure with this text.
pub open spec fn after_failure(old_state: SharedState, new_state: SharedState, text: Seq<char>) -> bool {
    &&& new_state.last_error matches Some(s)
    &&& s@ == text
    &&& new_state == SharedState {
        last_error: new_state.last_error,
        playback_finished: true,
        at_eof: true,
        ..old_state
    }
}

fn fail(state: &mut SharedState, text: String)
    ensures
        after_failure(*old(state), *final(state), text@),
{
    state.set_last_error(text);
    state.signal_playback_finished();
}

impl Decoder {
    /// Only an open file is decoded, and it is not decoded while the buffer is
    /// being played out.
    pub open spec fn inv(self) -> bool {
        &&& self.decoding ==> self.track is Some
        &&& !(self.decoding && self.draining)
    }

    /// Nothing is loaded.
    pub fn new() -> (d: Decoder)
        ensures
            d.inv(),
            d == (Decoder {
                track: None,
                resampled: false,
                decoding: false,
                draining: false,
                preloaded: None,
                current_rate: None,
                analysing: false,
                range_end: None,
                range_base: 0,
                range_decoded_frames: 0,
                range_pushed_frames: 0,
            }),
    {
        Decoder {
            track: None,
            resampled: false,
            decoding: false,
            draining: false,
            preloaded: None,
            current_rate: None,
            analysing: false,
            range_end: None,
            range_base: 0,
            range_decoded_frames: 0,
            range_pushed_frames: 0,
        }
    }

    /// The decoder with a file opened, or with none where that failed.
    pub open spec fn with_opening(self, o: Opening) -> Decoder {
        match o {
            Opening::Ready { track, resampled } => Decoder {
                track: Some(track),
                resampled,
                ..self
            },
            _ => Decoder { track: None, resampled: false, ..self },
        }
    }

    /// The length that is shown for a file.
    pub open spec fn shown_length(track: Track) -> u64 {
        match track.duration {
            Some(d) => d,
            None => 0,
        }
    }

    /// Takes over a file that was opened, and shows its length. Where it cannot
    /// be played, nothing stays open, and the error and the end of playback are
    /// reported.
    pub fn try_load(&mut self, state: &mut SharedState, opening: Opening) -> (ok: bool)
        ensures
            ok == (opening is Ready),
            *final(self) == old(self).with_opening(opening),
            match opening {
                Opening::Ready { track, resampled } => *final(state) == (SharedState {
                    duration_secs: Decoder::shown_length(track),
                    ..*old(state)
                }),
                _ => after_failure(
                    *old(state),
                    *final(state),
                    opening_error(opening).unwrap(),
                ),
            },
    {
        match opening {
            Opening::Ready { track, resampled } => {
                self.track = Some(track);
                self.resampled = resampled;
                state.set_duration(
                    match track.duration {
                        Some(d) => d,
                        None => 0,
                    },
                );
                true
            },
            Opening::NoResampler { file_rate, device_rate } => {
                self.track = None;
                self.resampled = false;
                let mut text: String = "重采样器初始化失败（".to_owned();
                text.append(decimal_text(file_rate as i64).as_str());
                text.append("→");
                text.append(decimal_text(device_rate as i64).as_str());
                text.append(" Hz）");
                fail(state, text);
                false
            },
            Opening::Failed { name, message } => {
                self.track = None;
                self.resampled = false;
                let mut text: String = "打开失败 [".to_owned();
                text.append(name.as_str());
                text.append("]：");
                text.append(message.as_str());
                fail(state, text);
                false
            },
        }
    }

    /// The sample rate of the open file.
    pub open spec fn open_rate(self) -> Option<u32> {
        match self.track {
            Some(t) => t.rate,
            None => None,
        }
    }

    fn rate_of_track(&self) -> (rate: Option<u32>)
        ensures
            rate == self.open_rate(),
    {
        match &self.track {
            Some(t) => t.rate,
            None => None,
        }
    }

    /// A file was to be loaded: decoding starts where it was opened. Whatever was
    /// under way before is over.
    pub fn load(&mut self, state: &mut SharedState, opening: Opening) -> (notice: Option<Notice>)
        requires
            old(self).inv(),
        ensures
            final(self).inv(),
            notice == (if opening is Ready {
                None
            } else {
                Some(Notice::Failed)
            }),
            *final(self) == ({
                let d = old(self).with_opening(opening);
                Decoder {
                    decoding: opening is Ready,
                    draining: false,
                    preloaded: None,
                    range_end: None,
                    current_rate: d.open_rate(),
                    analysing: old(state).replay_gain_enabled,
                    ..d
                }
            }),
            match opening {
                Opening::Ready { track, resampled } => *final(state) == (SharedState {
                    duration_secs: Decoder::shown_length(track),
                    at_eof: false,
                    ..*old(state)
                }),
                _ => after_failure(
                    *old(state),
                    *final(state),
                    opening_error(opening).unwrap(),
                ),
            },
    {
        let ok: bool = self.try_load(state, opening);
        self.decoding = ok;
        self.draining = false;
        self.preloaded = None;
        self.range_end = None;
        if ok {
            state.clear_at_eof();
        }
        self.current_rate = self.rate_of_track();
        self.analysing = state.replay_gain_enabled;
        if ok {
            None
        } else {
            Some(Notice::Failed)
        }
    }

    /// A file was to be loaded and then sought in: as [`Decoder::load`], but a
    /// failure leaves what was opened ahead, the range and the measurement as
    /// they are.
    pub fn load_and_seek(&mut self, state: &mut SharedState, opening: Opening) -> (notice: Option<
        Notice,
    >)
        requires
            old(self).inv(),
        ensures
            final(self).inv(),
            notice == (if opening is Ready {
                None
            } else {
                Some(Notice::Failed)
            }),
            *final(self) == ({
                let d = old(self).with_opening(opening);
                if opening is Ready {
                    Decoder {
                        decoding: true,
                        draining: false,
                        preloaded: None,
                        range_end: None,
                        current_rate: d.open_rate(),
                        analysing: old(state).replay_gain_enabled,
                        ..d
                    }
                } else {
                    Decoder { decoding: false, draining: false, ..d }
                }
            }),
            match opening {
                Opening::Ready { track, resampled } => *final(state) == (SharedState {
                    duration_secs: Decoder::shown_length(track),
                    at_eof: false,
                    ..*old(state)
                }),
                _ => after_failure(
                    *old(state),
                    *final(state),
                    opening_error(opening).unwrap(),
                ),
            },
    {
        if self.try_load(state, opening) {
            self.decoding = true;
            self.draining = false;
            self.preloaded = None;
            self.range_end = None;
            state.clear_at_eof();
            self.current_rate = self.rate_of_track();
            self.analysing = state.replay_gain_enabled;
            None
        } else {
            self.decoding = false;
            self.draining = false;
            Some(Notice::Failed)
        }
    }

    /// What is shown where the start of a range cannot be reached.
    pub open spec fn no_start(start: Seq<char>, path: Seq<char>) -> Seq<char> {
        "无法定位区间起点 "@ + start + "s："@ + path
    }

    /// A file was to be loaded and part of it played. `sought` says whether the
    /// start was reached; where it was not, the file counts as one that cannot be
    /// played. The length shown is that of the range.
    pub fn load_range(
        &mut self,
        state: &mut SharedState,
        opening: Opening,
        sought: bool,
        range: Range,
        length: u64,
        start_text: &str,
        path: &str,
    ) -> (notice: Option<Notice>)
        requires
            old(self).inv(),
        ensures
            final(self).inv(),
            notice == (if opening is Ready && sought {
                None
            } else {
                Some(Notice::Failed)
            }),
            *final(self) == ({
                let d = old(self).with_opening(opening);
                let loaded = Decoder {
                    draining: false,
                    preloaded: None,
                    current_rate: d.open_rate(),
                    analysing: old(state).replay_gain_enabled,
                    ..d
                };
                if opening !is Ready {
                    Decoder { decoding: false, draining: false, ..d }
                } else if !sought {
                    Decoder { decoding: false, range_end: None, ..loaded }
                } else {
                    Decoder {
                        decoding: true,
                        range_base: range.start,
                        range_end: range.end,
                        range_decoded_frames: 0,
                        range_pushed_frames: 0,
                        ..loaded
                    }
                }
            }),
            match opening {
                Opening::Ready { track, resampled } => if sought {
                    *final(state) == (SharedState {
                        duration_secs: length,
                        at_eof: false,
                        ..*old(state)
                    })
                } else {
                    after_failure(
                        SharedState {
                            duration_secs: Decoder::shown_length(track),
                            ..*old(state)
                        },
                        *final(state),
                        Decoder::no_start(start_text@, path@),
                    )
                },
                _ => after_failure(
                    *old(state),
                    *final(state),
                    opening_error(opening).unwrap(),
                ),
            },
    {
        if self.try_load(state, opening) {
            self.draining = false;
            self.preloaded = None;
            self.current_rate = self.rate_of_track();
            self.analysing = state.replay_gain_enabled;
            if !sought {
                let mut text: String = "无法定位区间起点 ".to_owned();
                text.append(start_text);
                text.append("s：");
                text.append(path);
                fail(state, text);
                self.decoding = false;
                self.range_end = None;
                Some(Notice::Failed)
            } else {
                state.clear_at_eof();
                self.decoding = true;
                self.range_base = range.start;
                self.range_decoded_frames = 0;
                self.range_pushed_frames = 0;
                self.range_end = range.end;
                state.set_duration(length);
                None
            }
        } else {
            self.decoding = false;
            self.draining = false;
            Some(Notice::Failed)
        }
    }

    /// A position was sought in the open file; without one nothing happens.
    /// Decoding goes on in any case, also after the end. Only where the position
    /// was reached does the range count from it, and is the measurement given
    /// up. The result says whether there is a resampler whose past has to be
    /// dropped.
    pub fn seek(&mut self, state: &mut SharedState, secs: u64, sought: bool) -> (reset: bool)
        requires
            old(self).inv(),
        ensures
            final(self).inv(),
            reset == (old(self).track is Some && old(self).resampled),
            old(self).track is None ==> *final(self) == *old(self) && *final(state) == *old(state),
            old(self).track is Some ==> {
                &&& *final(state) == (SharedState { at_eof: false, ..*old(state) })
                &&& *final(self) == ({
                    let d = Decoder { decoding: true, draining: false, ..*old(self) };
                    if !sought {
                        d
                    } else if d.range_end is None {
                        Decoder { analysing: false, ..d }
                    } else {
                        Decoder {
                            analysing: false,
                            range_base: secs,
                            range_decoded_frames: 0,
                            range_pushed_frames: 0,
                            ..d
                        }
                    }
                })
            },
    {
        if self.track.is_none() {
            return false;
        }
        if sought {
            self.analysing = false;
            if self.range_end.is_some() {
                self.range_base = secs;
                self.range_decoded_frames = 0;
                self.range_pushed_frames = 0;
            }
        }
        self.decoding = true;
        self.draining = false;
        state.clear_at_eof();
        self.resampled
    }

    /// Playback was stopped.
    pub fn stop(&mut self)
        requires
            old(self).inv(),
        ensures
            final(self).inv(),
            *final(self) == (Decoder {
                decoding: false,
                draining: false,
                track: None,
                range_end: None,
                ..*old(self)
            }),
    {
        self.decoding = false;
        self.draining = false;
        self.track = None;
        self.range_end = None;
    }

    /// The buffer was replaced by one for another rate: the file has to be loaded
    /// again.
    pub fn new_producer(&mut self)
        requires
            old(self).inv(),
        ensures
            final(self).inv(),
            *final(self) == (Decoder {
                resampled: false,
                track: None,
                decoding: false,
                draining: false,
                ..*old(self)
            }),
    {
        self.resampled = false;
        self.track = None;
        self.decoding = false;
        self.draining = false;
    }

    /// A track was opened ahead, or none is to be.
    pub fn preload(&mut self, next: Option<Next>)
        requires
            old(self).inv(),
        ensures
            final(self).inv(),
            *final(self) == (Decoder { preloaded: next, ..*old(self) }),
    {
        self.preloaded = next;
    }

    /// What comes next. While playback is paused nothing is decoded; the end is
    /// reported once the buffer is empty.
    #[verifier::allow_in_spec]
    pub fn tick(&self, playing: bool, occupied: usize) -> Tick
        returns
            (if self.decoding && playing {
                if self.track is Some {
                    Tick::Decode
                } else {
                    Tick::Idle
                }
            } else if self.draining {
                if occupied == 0 {
                    Tick::Finish
                } else {
                    Tick::DrainWait
                }
            } else {
                Tick::Idle
            }),
    {
        if self.decoding && playing {
            if self.track.is_some() {
                Tick::Decode
            } else {
                Tick::Idle
            }
        } else if self.draining {
            if occupied == 0 {
                Tick::Finish
            } else {
                Tick::DrainWait
            }
        } else {
            Tick::Idle
        }
    }
}

/// While playback is paused nothing is decoded, and the end is not reported as
/// long as there is something left to play.
pub proof fn law_pause_holds(d: Decoder, occupied: usize)
    ensures
        d.tick(false, occupied) != Tick::Decode,
        occupied > 0 ==> d.tick(false, occupied) != Tick::Finish,
{
}

/// The end is reported only when a file was decoded to its end and everything
/// that was decoded has been played.
pub proof fn law_end_after_buffer(d: Decoder, playing: bool, occupied: usize)
    requires
        d.inv(),
        d.tick(playing, occupied) == Tick::Finish,
    ensures
        occupied == 0,
        d.draining,
        !d.decoding,
{
}

/// At least one.
pub open spec fn at_least_one(n: int) -> int {
    if n > 1 {
        n
    } else {
        1
    }
}

/// The frames of a batch that still belong to a range of `total` frames, of
/// which `decoded` have gone by.
pub open spec fn kept(total: nat, decoded: nat, frames: nat) -> nat {
    if decoded >= total {
        0
    } else if frames > total - decoded {
        (total - decoded) as nat
    } else {
        frames
    }
}

/// The frames of a range that have gone by after these batches.
pub open spec fn decoded_after(total: nat, batches: Seq<nat>) -> nat
    decreases batches.len(),
{
    if batches.len() == 0 {
        0
    } else {
        let before = decoded_after(total, batches.drop_last());
        before + kept(total, before, batches.last())
    }
}

/// The frames in all batches.
pub open spec fn frames_in(batches: Seq<nat>) -> nat
    decreases batches.len(),
{
    if batches.len() == 0 {
        0
    } else {
        frames_in(batches.drop_last()) + batches.last()
    }
}

/// However a file comes in batches, of a range exactly its frames are played, or
/// all there are where the file is shorter.
pub proof fn law_range_exact(total: nat, batches: Seq<nat>)
    ensures
        decoded_after(total, batches) == if frames_in(batches) < total {
            frames_in(batches)
        } else {
            total
        },
    decreases batches.len(),
{
    if batches.len() > 0 {
        law_range_exact(total, batches.drop_last());
    }
}

impl Decoder {
    /// The channels of the open file; those of the output where it does not say.
    pub open spec fn file_channels(self, device_channels: u16) -> u16 {
        match self.track {
            Some(t) => match t.channels {
                Some(c) => c,
                None => device_channels,
            },
            None => device_channels,
        }
    }

    /// Whether a range is being played whose frames can be counted.
    pub open spec fn counts_range(self) -> bool {
        &&& self.range_end is Some
        &&& self.open_rate() matches Some(r)
        &&& r > 0
    }

    /// The channels of the open file.
    pub fn channels_of_file(&self, device_channels: u16) -> (c: u16)
        ensures
            c == self.file_channels(device_channels),
    {
        match &self.track {
            Some(t) => match t.channels {
                Some(c) => c,
                None => device_channels,
            },
            None => device_channels,
        }
    }

    /// Cuts a batch of `len` samples at the end of the range, which is
    /// `range_frames` frames from its start. The result is the number of samples
    /// to keep, and whether the end was reached.
    pub fn clip_batch(&mut self, len: usize, device_channels: u16, range_frames: u64) -> (r: (
        usize,
        bool,
    ))
        requires
            old(self).inv(),
        ensures
            final(self).inv(),
            ({
                let ch = old(self).file_channels(device_channels) as int;
                let frames = (len as int / at_least_one(ch)) as nat;
                let decoded = old(self).range_decoded_frames as nat;
                let left = kept(range_frames as nat, decoded, frames);
                if !old(self).counts_range() {
                    r == (len, false) && *final(self) == *old(self)
                } else {
                    &&& r.1 == (decoded >= range_frames || frames > left)
                    &&& r.0 == (if r.1 {
                        left * ch
                    } else {
                        len as int
                    })
                    &&& r.0 <= len
                    &&& *final(self) == (Decoder {
                        range_decoded_frames: (decoded + if ch == 0 && r.1 {
                            0
                        } else {
                            left
                        }) as u64,
                        ..*old(self)
                    })
                    &&& decoded <= range_frames ==> final(self).range_decoded_frames
                        <= range_frames
                    &&& decoded <= range_frames && ch > 0 && r.1 ==> {
                        &&& final(self).range_decoded_frames == range_frames
                        &&& r.0 == (range_frames - decoded) * ch
                        &&& decoded + len as int / ch > range_frames || decoded == range_frames
                    }
                    &&& ch > 0 && !r.1 ==> {
                        &&& r.0 == len
                        &&& final(self).range_decoded_frames == decoded + len as int / ch
                    }
                }
            }),
    {
        let counted: bool = self.range_end.is_some() && match self.rate_of_track() {
            Some(rate) => rate > 0,
            None => false,
        };
        if !counted {
            return (len, false);
        }
        let ch: usize = self.channels_of_file(device_channels) as usize;
        let per: usize = if ch > 1 {
            ch
        } else {
            1
        };
        let frames: usize = len / per;
        if self.range_decoded_frames >= range_frames {
            assert(0 * ch == 0);
            return (0, true);
        }
        let remaining: u64 = range_frames - self.range_decoded_frames;
        if frames as u64 > remaining {
            let n: usize = remaining as usize;
            proof {
                assert(n * ch <= frames * per) by (nonlinear_arith)
                    requires
                        n <= frames,
                        ch <= per,
                ;
                vstd::arithmetic::div_mod::lemma_fundamental_div_mod(len as int, per as int);
                assert(frames * per <= len) by (nonlinear_arith)
                    requires
                        len == per * (len as int / per as int) + len as int % (per as int),
                        frames == len as int / per as int,
                        len as int % (per as int) >= 0,
                ;
            }
            if ch > 0 {
                self.range_decoded_frames = range_frames;
            }
            (n * ch, true)
        } else {
            self.range_decoded_frames = self.range_decoded_frames + frames as u64;
            (len, false)
        }
    }

    /// Counts samples that were put into the buffer.
    pub fn pushed(&mut self, len: usize, device_channels: u16)
        requires
            old(self).inv(),
        ensures
            final(self).inv(),
            *final(self) == (Decoder {
                range_pushed_frames: old(self).range_pushed_frames.wrapping_add(
                    (len as int / at_least_one(device_channels as int)) as u64,
                ),
                ..*old(self)
            }),
    {
        let per: usize = if device_channels > 1 {
            device_channels as usize
        } else {
            1
        };
        self.range_pushed_frames = self.range_pushed_frames.wrapping_add((len / per) as u64);
    }

    /// Whether playback can go on with the track opened ahead: it has the same
    /// rate and the same channels.
    pub open spec fn switches(self) -> bool {
        &&& self.preloaded matches Some(n)
        &&& n.track.rate == self.current_rate
        &&& n.track.channels == (match self.track {
            Some(t) => t.channels,
            None => None,
        })
    }

    /// Whether playback can go on with the track opened ahead.
    pub fn can_switch(&self) -> (r: bool)
        ensures
            r == self.switches(),
    {
        let channels: Option<u16> = match &self.track {
            Some(t) => t.channels,
            None => None,
        };
        match &self.preloaded {
            Some(n) => same_rate(n.track.rate, self.current_rate) && same_channels(
                n.track.channels,
                channels,
            ),
            None => false,
        }
    }

    /// Cuts what the resampler had left at the end of the range, which is
    /// `range_frames` frames of the output from its start. Where playback goes on
    /// with the next track nothing is cut.
    pub fn clip_tail(&mut self, len: usize, device_channels: u16, range_frames: u64) -> (
        keep: usize)
        requires
            old(self).inv(),
        ensures
            final(self).inv(),
            ({
                let pushed = old(self).range_pushed_frames;
                let room = if pushed < range_frames {
                    (range_frames - pushed) * device_channels
                } else {
                    0
                };
                keep == if old(self).range_end is Some && !old(self).switches() && room < len {
                    room
                } else {
                    len as int
                }
            }),
            *final(self) == (Decoder {
                range_pushed_frames: old(self).range_pushed_frames.wrapping_add(
                    (keep as int / at_least_one(device_channels as int)) as u64,
                ),
                ..*old(self)
            }),
    {
        let mut keep: usize = len;
        if self.range_end.is_some() && !self.can_switch() {
            let remaining: u64 = if self.range_pushed_frames < range_frames {
                range_frames - self.range_pushed_frames
            } else {
                0
            };
            assert(remaining * device_channels <= 0xFFFF_FFFF_FFFF_FFFF * 0xFFFF)
                by (nonlinear_arith)
                requires
                    remaining <= 0xFFFF_FFFF_FFFF_FFFF,
                    device_channels <= 0xFFFF,
            ;
            let room: u128 = remaining as u128 * device_channels as u128;
            if room < len as u128 {
                keep = room as usize;
            }
        }
        self.pushed(keep, device_channels);
        keep
    }

    /// The file or its range is at its end. Playback goes on with the track
    /// opened ahead where that is possible, and the main thread is told;
    /// otherwise the buffer is played out first, and nothing is told yet.
    /// `measured` is the gain of the track that ended, `length` the length of the
    /// next range, `base` the position that its frames are counted from.
    pub fn end_reached(
        &mut self,
        state: &mut SharedState,
        measured: Option<i32>,
        length: u64,
        base: u64,
    ) -> (notice: Option<Notice>)
        requires
            old(self).inv(),
        ensures
            final(self).inv(),
            final(state).playback_finished == old(state).playback_finished,
            !old(self).switches() ==> {
                &&& notice is None
                &&& *final(self) == (Decoder { decoding: false, draining: true, ..*old(self) })
                &&& *final(state) == *old(state)
            },
            old(self).switches() ==> {
                let next = old(self).preloaded.unwrap();
                let d = Decoder {
                    track: Some(next.track),
                    preloaded: None,
                    analysing: old(state).replay_gain_enabled,
                    decoding: true,
                    draining: false,
                    ..*old(self)
                };
                &&& notice == Some(Notice::TrackSwitched)
                &&& *final(self) == (match next.range {
                    Some(r) => Decoder {
                        range_base: r.start,
                        range_end: r.end,
                        range_decoded_frames: 0,
                        range_pushed_frames: 0,
                        ..d
                    },
                    None => Decoder { range_end: None, ..d },
                })
                &&& *final(state) == (SharedState {
                    measured_gain_db: if old(self).analysing {
                        stored_gain(measured)
                    } else {
                        old(state).measured_gain_db
                    },
                    duration_secs: match next.range {
                        Some(_) => length,
                        None => Decoder::shown_length(next.track),
                    },
                    at_eof: false,
                    position_base: base,
                    frames_played: 0,
                    ..*old(state)
                })
            },
    {
        if !self.can_switch() {
            self.decoding = false;
            self.draining = true;
            return None;
        }
        match self.preloaded.take() {
            None => None,
            Some(next) => {
                if self.analysing {
                    state.set_measured_gain_db(measured);
                }
                match next.range {
                    Some(range) => {
                        state.set_duration(length);
                        self.range_base = range.start;
                        self.range_end = range.end;
                        self.range_decoded_frames = 0;
                        self.range_pushed_frames = 0;
                    },
                    None => {
                        state.set_duration(
                            match next.track.duration {
                                Some(d) => d,
                                None => 0,
                            },
                        );
                        self.range_end = None;
                    },
                }
                self.track = Some(next.track);
                self.analysing = state.replay_gain_enabled;
                self.decoding = true;
                self.draining = false;
                state.clear_at_eof();
                state.reset_position(base);
                Some(Notice::TrackSwitched)
            },
        }
    }

    /// Everything was played: the end is reported, and the measured gain stored.
    pub fn drained(&mut self, state: &mut SharedState, measured: Option<i32>) -> (notice: Notice)
        requires
            old(self).inv(),
        ensures
            final(self).inv(),
            notice == Notice::Finished,
            *final(self) == (Decoder { draining: false, analysing: false, ..*old(self) }),
            *final(state) == (SharedState {
                playback_finished: true,
                at_eof: true,
                measured_gain_db: if old(self).analysing {
                    stored_gain(measured)
                } else {
                    old(state).measured_gain_db
                },
                ..*old(state)
            }),
    {
        self.draining = false;
        state.signal_playback_finished();
        if self.analysing {
            self.analysing = false;
            state.set_measured_gain_db(measured);
        }
        Notice::Finished
    }

    /// Decoding failed: this is reported at once.
    pub fn failed(&mut self, state: &mut SharedState, message: &str) -> (notice: Notice)
        requires
            old(self).inv(),
        ensures
            final(self).inv(),
            notice == Notice::Failed,
            *final(self) == (Decoder { decoding: false, draining: false, ..*old(self) }),
            after_failure(*old(state), *final(state), "解码错误："@ + message@),
    {
        self.decoding = false;
        self.draining = false;
        let mut text: String = "解码错误：".to_owned();
        text.append(message);
        fail(state, text);
        Notice::Failed
    }
}

fn same_rate(a: Option<u32>, b: Option<u32>) -> (r: bool)
    ensures
        r == (a == b),
{
    match (a, b) {
        (Some(x), Some(y)) => x == y,
        (None, None) => true,
        _ => false,
    }
}

fn same_channels(a: Option<u16>, b: Option<u16>) -> (r: bool)
    ensures
        r == (a == b),
{
    match (a, b) {
        (Some(x), Some(y)) => x == y,
        (None, None) => true,
        _ => false,
    }
}

/// How full the buffer may be before the decoder thread waits.
pub const HEADROOM: usize = 1024;

/// Whether the buffer is nearly full.
pub fn crowded(occupied: usize, capacity: usize) -> (r: bool)
    ensures
        r == (occupied + HEADROOM >= capacity),
{
    capacity <= HEADROOM || occupied >= capacity - HEADROOM
}

/// The frames in the buffer.
pub fn tail_frames(occupied: usize, device_channels: u16) -> (frames: usize)
    ensures
        frames == occupied as int / at_least_one(device_channels as int),
{
    let per: usize = if device_channels > 1 {
        device_channels as usize
    } else {
        1
    };
    occupied / per
}

/// Pausing while the buffer is played out loses nothing: going on later, the
/// same end is reported once the buffer is empty.
pub proof fn law_drain_survives_pause(d: Decoder, occupied: usize)
    requires
        d.inv(),
        d.draining,
    ensures
        d.tick(false, occupied) == d.tick(true, occupied),
        d.tick(true, occupied) == if occupied == 0 {
            Tick::Finish
        } else {
            Tick::DrainWait
        },
{
}

} // verus!
