//! The state that the threads of the engine share.

use crate::compressor::{default_settings, CompressorParams, COMP_SLOTS};
use crate::equalizer::{EqParams, EQ_BANDS, EQ_SLOTS};
use crate::playback_medium::PlaybackMedium;
use crate::spectrum::{N_BANDS, WAVEFORM_LEN};
use vstd::prelude::*;

verus! {

/// One in the fixed-point numbers of the volume and of the gain.
pub const VOLUME_SCALE: u32 = 1000;

/// The highest gain: sixteen.
pub const MAX_GAIN: u32 = 16000;

/// What playback is doing. Times are in seconds and levels between zero and
/// one; both are carried as the bits of floating-point numbers.
pub struct SharedState {
    /// The position that the frames played are counted from.
    pub position_base: u64,
    /// The frames played since.
    pub frames_played: u64,
    /// The length of the track, zero where unknown.
    pub duration_secs: u64,
    /// The volume in thousandths.
    pub volume: u32,
    /// The gain in thousandths.
    pub replay_gain: u32,
    /// Whether the gain is applied and measured.
    pub replay_gain_enabled: bool,
    /// The gain measured in hundredths of a dB; the lowest number if none was.
    pub measured_gain_db: i32,
    /// Whether sound is played.
    pub is_playing: bool,
    /// How often the buffer had to be dropped.
    pub flush_epoch: u64,
    /// Whether playback has ended and the audio thread has not seen it.
    pub playback_finished: bool,
    /// Whether the end of the track was reached and nothing was decoded since.
    pub at_eof: bool,
    /// The level on the left.
    pub level_l: u32,
    /// The level on the right.
    pub level_r: u32,
    /// The spectrum on the left.
    pub spectrum_l: Vec<u32>,
    /// The spectrum on the right.
    pub spectrum_r: Vec<u32>,
    /// The waveform on the left.
    pub waveform_l: Vec<u32>,
    /// The waveform on the right.
    pub waveform_r: Vec<u32>,
    /// The last error that was not shown.
    pub last_error: Option<String>,
    /// The sample rate of the output, zero where there is none yet.
    pub stream_sample_rate: u32,
    /// Whether the output runs at the sample rate of the file.
    pub bitstream: bool,
    /// The number of the medium.
    pub medium: u32,
    /// The equalizers.
    pub eq_slots: Vec<EqParams>,
    /// Which equalizers are taken.
    pub eq_used: Vec<bool>,
    /// The compressors.
    pub comp_slots: Vec<CompressorParams>,
    /// Which compressors are taken.
    pub comp_used: Vec<bool>,
}

/// The first place that is free, from `i` on.
pub open spec fn first_free(used: Seq<bool>, i: int) -> Option<int>
    decreases used.len() - i,
{
    if i >= used.len() {
        None
    } else if !used[i] {
        Some(i)
    } else {
        first_free(used, i + 1)
    }
}

/// A first free place is free, all places before it are taken, and there is
/// none only if all are taken.
pub proof fn law_first_free(used: Seq<bool>, i: int)
    requires
        0 <= i <= used.len(),
    ensures
        match first_free(used, i) {
            Some(k) => {
                &&& i <= k < used.len()
                &&& !used[k]
                &&& forall|j: int| i <= j < k ==> used[j]
            },
            None => forall|j: int| i <= j < used.len() ==> used[j],
        },
    decreases used.len() - i,
{
    if i < used.len() && used[i] {
        law_first_free(used, i + 1);
    }
}

/// A place that was free before all taken ones is given out again after it was
/// freed.
pub proof fn law_slot_comes_back(used: Seq<bool>)
    requires
        first_free(used, 0) is Some,
    ensures
        ({
            let k = first_free(used, 0).unwrap();
            let taken = used.update(k, true);
            let freed = taken.update(k, false);
            &&& freed == used
            &&& first_free(freed, 0) == Some(k)
        }),
{
    law_first_free(used, 0);
    let k = first_free(used, 0).unwrap();
    assert(used.update(k, true).update(k, false) =~= used);
}

/// How a gain is stored: the lowest number stands for none.
pub open spec fn stored_gain(hundredths: Option<i32>) -> i32 {
    match hundredths {
        Some(v) => v,
        None => i32::MIN,
    }
}

/// The gain that is stored.
pub open spec fn gain_stored(v: i32) -> Option<i32> {
    if v == i32::MIN {
        None
    } else {
        Some(v)
    }
}

/// A gain that was stored is had back with its sign, and none where there was none.
/// The lowest number is no gain.
pub proof fn law_gain_comes_back(hundredths: Option<i32>)
    requires
        hundredths != Some(i32::MIN),
    ensures
        gain_stored(stored_gain(hundredths)) == hundredths,
{
}

fn find_free(used: &Vec<bool>) -> (r: Option<usize>)
    ensures
        match first_free(used@, 0) {
            Some(k) => r matches Some(i) && i == k && i < used.len(),
            None => r is None,
        },
{
    let mut i: usize = 0;
    while i < used.len()
        invariant
            i <= used.len(),
            first_free(used@, 0) == first_free(used@, i as int),
        decreases used.len() - i,
    {
        if !used[i] {
            return Some(i);
        }
        i = i + 1;
    }
    None
}

/// The start of a sequence replaced by values, as far as it goes.
pub open spec fn overwritten(old_values: Seq<u32>, values: Seq<u32>) -> Seq<u32> {
    Seq::new(
        old_values.len(),
        |i: int|
            if i < values.len() {
                values[i]
            } else {
                old_values[i]
            },
    )
}

fn overwrite(target: &mut Vec<u32>, values: &[u32])
    ensures
        final(target)@ == overwritten(old(target)@, values@),
{
    let mut i: usize = 0;
    while i < target.len() && i < values.len()
        invariant
            i <= target.len(),
            i <= values.len(),
            target@.len() == old(target)@.len(),
            forall|j: int| 0 <= j < i ==> target@[j] == values@[j],
            forall|j: int| i <= j < target@.len() ==> target@[j] == old(target)@[j],
        decreases target.len() - i,
    {
        target[i] = values[i];
        i = i + 1;
    }
    assert(target@ =~= overwritten(old(target)@, values@));
}

fn zeros(n: usize) -> (v: Vec<u32>)
    ensures
        v@ == Seq::new(n as nat, |i: int| 0u32),
{
    let mut v: Vec<u32> = Vec::new();
    v.resize(n, 0u32);
    assert(v@ =~= Seq::new(n as nat, |i: int| 0u32));
    v
}

fn unused(n: usize) -> (v: Vec<bool>)
    ensures
        v@ == Seq::new(n as nat, |i: int| false),
{
    let mut v: Vec<bool> = Vec::new();
    v.resize(n, false);
    assert(v@ =~= Seq::new(n as nat, |i: int| false));
    v
}

impl SharedState {
    /// The displays and the slots have their sizes, and the settings in the slots
    /// lie between their limits.
    pub open spec fn inv(&self) -> bool {
        &&& self.spectrum_l@.len() == N_BANDS
        &&& self.spectrum_r@.len() == N_BANDS
        &&& self.waveform_l@.len() == WAVEFORM_LEN
        &&& self.waveform_r@.len() == WAVEFORM_LEN
        &&& self.eq_slots@.len() == EQ_SLOTS
        &&& self.eq_used@.len() == EQ_SLOTS
        &&& self.comp_slots@.len() == COMP_SLOTS
        &&& self.comp_used@.len() == COMP_SLOTS
        &&& forall|i: int| 0 <= i < EQ_SLOTS ==> (#[trigger] self.eq_slots@[i]).inv()
        &&& forall|i: int| 0 <= i < COMP_SLOTS ==> (#[trigger] self.comp_slots@[i]).inv()
    }

    /// Moves the position, from which frames are counted anew.
    pub fn reset_position(&mut self, base_secs: u64)
        ensures
            *final(self) == (SharedState {
                position_base: base_secs,
                frames_played: 0,
                ..*old(self)
            }),
    {
        self.position_base = base_secs;
        self.frames_played = 0;
    }

    /// Counts frames that were played.
    pub fn add_frames(&mut self, frames: u64)
        ensures
            *final(self) == (SharedState {
                frames_played: old(self).frames_played.wrapping_add(frames),
                ..*old(self)
            }),
    {
        self.frames_played = self.frames_played.wrapping_add(frames);
    }

    /// Sets the length of the track.
    pub fn set_duration(&mut self, secs: u64)
        ensures
            *final(self) == (SharedState { duration_secs: secs, ..*old(self) }),
    {
        self.duration_secs = secs;
    }

    /// Sets the volume, at most one.
    pub fn set_volume(&mut self, thousandths: u32)
        ensures
            *final(self) == (SharedState {
                volume: if thousandths <= VOLUME_SCALE {
                    thousandths
                } else {
                    VOLUME_SCALE
                },
                ..*old(self)
            }),
    {
        self.volume = if thousandths <= VOLUME_SCALE {
            thousandths
        } else {
            VOLUME_SCALE
        };
    }

    /// Sets the gain, at most sixteen.
    pub fn set_replay_gain(&mut self, thousandths: u32)
        ensures
            *final(self) == (SharedState {
                replay_gain: if thousandths <= MAX_GAIN {
                    thousandths
                } else {
                    MAX_GAIN
                },
                ..*old(self)
            }),
    {
        self.replay_gain = if thousandths <= MAX_GAIN {
            thousandths
        } else {
            MAX_GAIN
        };
    }

    /// The gain to be applied: one where it is switched off.
    pub fn replay_gain(&self) -> (thousandths: u32)
        ensures
            thousandths == if self.replay_gain_enabled {
                self.replay_gain
            } else {
                VOLUME_SCALE
            },
    {
        if self.replay_gain_enabled {
            self.replay_gain
        } else {
            VOLUME_SCALE
        }
    }

    /// Switches the gain on or off.
    pub fn set_replay_gain_enabled(&mut self, on: bool)
        ensures
            *final(self) == (SharedState { replay_gain_enabled: on, ..*old(self) }),
    {
        self.replay_gain_enabled = on;
    }

    /// Stores a measured gain in hundredths of a dB, or that there is none.
    pub fn set_measured_gain_db(&mut self, hundredths: Option<i32>)
        ensures
            *final(self) == (SharedState {
                measured_gain_db: stored_gain(hundredths),
                ..*old(self)
            }),
    {
        self.measured_gain_db = match hundredths {
            Some(v) => v,
            None => i32::MIN,
        };
    }

    /// Takes the measured gain out.
    pub fn take_measured_gain_db(&mut self) -> (hundredths: Option<i32>)
        ensures
            *final(self) == (SharedState { measured_gain_db: i32::MIN, ..*old(self) }),
            hundredths == gain_stored(old(self).measured_gain_db),
    {
        let v: i32 = self.measured_gain_db;
        self.measured_gain_db = i32::MIN;
        if v == i32::MIN {
            None
        } else {
            Some(v)
        }
    }

    /// Starts or stops playback.
    pub fn set_playing(&mut self, playing: bool)
        ensures
            *final(self) == (SharedState { is_playing: playing, ..*old(self) }),
    {
        self.is_playing = playing;
    }

    /// Asks for the buffer to be dropped.
    pub fn bump_flush(&mut self) -> (epoch: u64)
        ensures
            *final(self) == (SharedState {
                flush_epoch: old(self).flush_epoch.wrapping_add(1),
                ..*old(self)
            }),
            epoch == final(self).flush_epoch,
    {
        self.flush_epoch = self.flush_epoch.wrapping_add(1);
        self.flush_epoch
    }

    /// Says that playback has ended.
    pub fn signal_playback_finished(&mut self)
        ensures
            *final(self) == (SharedState {
                playback_finished: true,
                at_eof: true,
                ..*old(self)
            }),
    {
        self.playback_finished = true;
        self.at_eof = true;
    }

    /// Says that decoding goes on.
    pub fn clear_at_eof(&mut self)
        ensures
            *final(self) == (SharedState { at_eof: false, ..*old(self) }),
    {
        self.at_eof = false;
    }

    /// Whether playback has ended since this was last asked.
    pub fn take_playback_finished(&mut self) -> (r: bool)
        ensures
            r == old(self).playback_finished,
            *final(self) == (SharedState { playback_finished: false, ..*old(self) }),
    {
        let r: bool = self.playback_finished;
        self.playback_finished = false;
        r
    }

    /// Stores the levels.
    pub fn set_level_lr(&mut self, l: u32, r: u32)
        ensures
            *final(self) == (SharedState { level_l: l, level_r: r, ..*old(self) }),
    {
        self.level_l = l;
        self.level_r = r;
    }

    /// Stores the spectrum, as many bands as there are.
    pub fn set_spectrum_lr(&mut self, l: &[u32], r: &[u32])
        ensures
            final(self).spectrum_l@ == overwritten(old(self).spectrum_l@, l@),
            final(self).spectrum_r@ == overwritten(old(self).spectrum_r@, r@),
            *final(self) == (SharedState {
                spectrum_l: final(self).spectrum_l,
                spectrum_r: final(self).spectrum_r,
                ..*old(self)
            }),
    {
        overwrite(&mut self.spectrum_l, l);
        overwrite(&mut self.spectrum_r, r);
    }

    /// Stores the waveform, as many points as there are.
    pub fn set_waveform_lr(&mut self, l: &[u32], r: &[u32])
        ensures
            final(self).waveform_l@ == overwritten(old(self).waveform_l@, l@),
            final(self).waveform_r@ == overwritten(old(self).waveform_r@, r@),
            *final(self) == (SharedState {
                waveform_l: final(self).waveform_l,
                waveform_r: final(self).waveform_r,
                ..*old(self)
            }),
    {
        overwrite(&mut self.waveform_l, l);
        overwrite(&mut self.waveform_r, r);
    }

    /// Stores an error in place of the last one.
    pub fn set_last_error(&mut self, msg: String)
        ensures
            *final(self) == (SharedState { last_error: Some(msg), ..*old(self) }),
    {
        self.last_error = Some(msg);
    }

    /// Takes the last error out.
    pub fn take_last_error(&mut self) -> (msg: Option<String>)
        ensures
            msg == old(self).last_error,
            *final(self) == (SharedState { last_error: None, ..*old(self) }),
    {
        self.last_error.take()
    }

    /// Sets the sample rate of the output.
    pub fn set_stream_sample_rate(&mut self, sr: u32)
        ensures
            *final(self) == (SharedState { stream_sample_rate: sr, ..*old(self) }),
    {
        self.stream_sample_rate = sr;
    }

    /// Says whether the output runs at the sample rate of the file.
    pub fn set_bitstream(&mut self, on: bool)
        ensures
            *final(self) == (SharedState { bitstream: on, ..*old(self) }),
    {
        self.bitstream = on;
    }

    /// Sets the medium.
    pub fn set_medium(&mut self, medium: PlaybackMedium)
        ensures
            *final(self) == (SharedState { medium: medium.number(), ..*old(self) }),
    {
        self.medium = medium.discriminant();
    }

    /// The medium.
    pub fn medium(&self) -> (m: PlaybackMedium)
        ensures
            m == PlaybackMedium::numbered(self.medium),
    {
        PlaybackMedium::from_discriminant(self.medium)
    }

    /// The sample rate that positions are counted with: that of the output, or
    /// `fallback` where there is none yet.
    pub fn effective_rate(&self, fallback: u32) -> (rate: u32)
        ensures
            rate == if self.stream_sample_rate > 0 {
                self.stream_sample_rate
            } else {
                fallback
            },
    {
        if self.stream_sample_rate > 0 {
            self.stream_sample_rate
        } else {
            fallback
        }
    }
}

impl SharedState {
    /// Nothing is played, nothing is shown, and nothing is taken.
    pub open spec fn is_new(&self) -> bool {
        &&& self.position_base == 0
        &&& self.frames_played == 0
        &&& self.duration_secs == 0
        &&& self.volume == 0
        &&& self.replay_gain == VOLUME_SCALE
        &&& !self.replay_gain_enabled
        &&& self.measured_gain_db == i32::MIN
        &&& !self.is_playing
        &&& self.flush_epoch == 0
        &&& !self.playback_finished
        &&& !self.at_eof
        &&& self.level_l == 0
        &&& self.level_r == 0
        &&& self.spectrum_l@ == Seq::new(N_BANDS as nat, |i: int| 0u32)
        &&& self.spectrum_r@ == Seq::new(N_BANDS as nat, |i: int| 0u32)
        &&& self.waveform_l@ == Seq::new(WAVEFORM_LEN as nat, |i: int| 0u32)
        &&& self.waveform_r@ == Seq::new(WAVEFORM_LEN as nat, |i: int| 0u32)
        &&& self.last_error is None
        &&& self.stream_sample_rate == 0
        &&& !self.bitstream
        &&& self.medium == PlaybackMedium::Plain.number()
        &&& forall|i: int| 0 <= i < EQ_SLOTS ==> (#[trigger] self.eq_slots@[i]).is_default()
        &&& self.eq_used@ == Seq::new(EQ_SLOTS as nat, |i: int| false)
        &&& forall|i: int|
            0 <= i < COMP_SLOTS ==> (#[trigger] self.comp_slots@[i])@ == default_settings()
        &&& self.comp_used@ == Seq::new(COMP_SLOTS as nat, |i: int| false)
    }

    /// Nothing is played, and nothing is taken.
    pub fn new() -> (s: SharedState)
        ensures
            s.inv(),
            s.is_new(),
    {
        let mut eq_slots: Vec<EqParams> = Vec::new();
        while eq_slots.len() < EQ_SLOTS
            invariant
                eq_slots.len() <= EQ_SLOTS,
                forall|i: int|
                    0 <= i < eq_slots@.len() ==> (#[trigger] eq_slots@[i]).is_default()
                        && eq_slots@[i].inv(),
            decreases EQ_SLOTS - eq_slots.len(),
        {
            eq_slots.push(EqParams::new());
        }
        let mut comp_slots: Vec<CompressorParams> = Vec::new();
        while comp_slots.len() < COMP_SLOTS
            invariant
                comp_slots.len() <= COMP_SLOTS,
                forall|i: int|
                    0 <= i < comp_slots@.len() ==> (#[trigger] comp_slots@[i])@
                        == default_settings() && comp_slots@[i].inv(),
            decreases COMP_SLOTS - comp_slots.len(),
        {
            comp_slots.push(CompressorParams::new());
        }
        SharedState {
            position_base: 0,
            frames_played: 0,
            duration_secs: 0,
            volume: 0,
            replay_gain: VOLUME_SCALE,
            replay_gain_enabled: false,
            measured_gain_db: i32::MIN,
            is_playing: false,
            flush_epoch: 0,
            playback_finished: false,
            at_eof: false,
            level_l: 0,
            level_r: 0,
            spectrum_l: zeros(N_BANDS),
            spectrum_r: zeros(N_BANDS),
            waveform_l: zeros(WAVEFORM_LEN),
            waveform_r: zeros(WAVEFORM_LEN),
            last_error: None,
            stream_sample_rate: 0,
            bitstream: false,
            medium: PlaybackMedium::Plain.discriminant(),
            eq_slots,
            eq_used: unused(EQ_SLOTS),
            comp_slots,
            comp_used: unused(COMP_SLOTS),
        }
    }

    /// Takes the first equalizer that is free.
    pub fn alloc_eq_slot(&mut self) -> (slot: Option<u32>)
        requires
            old(self).inv(),
        ensures
            final(self).inv(),
            *final(self) == (SharedState { eq_used: final(self).eq_used, ..*old(self) }),
            match first_free(old(self).eq_used@, 0) {
                Some(k) => {
                    &&& slot matches Some(i)
                    &&& i == k
                    &&& final(self).eq_used@ == old(self).eq_used@.update(k, true)
                },
                None => slot is None && final(self).eq_used == old(self).eq_used,
            },
    {
        match find_free(&self.eq_used) {
            Some(i) => {
                self.eq_used[i] = true;
                assert(self.eq_used@ =~= old(self).eq_used@.update(i as int, true));
                Some(i as u32)
            },
            None => None,
        }
    }

    /// Takes the first compressor that is free.
    pub fn alloc_comp_slot(&mut self) -> (slot: Option<u32>)
        requires
            old(self).inv(),
        ensures
            final(self).inv(),
            *final(self) == (SharedState { comp_used: final(self).comp_used, ..*old(self) }),
            match first_free(old(self).comp_used@, 0) {
                Some(k) => {
                    &&& slot matches Some(i)
                    &&& i == k
                    &&& final(self).comp_used@ == old(self).comp_used@.update(k, true)
                },
                None => slot is None && final(self).comp_used == old(self).comp_used,
            },
    {
        match find_free(&self.comp_used) {
            Some(i) => {
                self.comp_used[i] = true;
                assert(self.comp_used@ =~= old(self).comp_used@.update(i as int, true));
                Some(i as u32)
            },
            None => None,
        }
    }

    /// Gives an equalizer back: it is free, and its settings are new. A number
    /// that no equalizer has changes nothing.
    pub fn free_eq_slot(&mut self, slot: u32)
        requires
            old(self).inv(),
        ensures
            final(self).inv(),
            slot >= EQ_SLOTS ==> *final(self) == *old(self),
            slot < EQ_SLOTS ==> {
                &&& final(self).eq_used@ == old(self).eq_used@.update(slot as int, false)
                &&& final(self).eq_slots@[slot as int].is_default()
                &&& forall|i: int|
                    0 <= i < EQ_SLOTS && i != slot ==> final(self).eq_slots@[i] == old(
                        self,
                    ).eq_slots@[i]
                &&& *final(self) == (SharedState {
                    eq_used: final(self).eq_used,
                    eq_slots: final(self).eq_slots,
                    ..*old(self)
                })
            },
    {
        if (slot as usize) < EQ_SLOTS {
            self.eq_slots[slot as usize] = EqParams::new();
            self.eq_used[slot as usize] = false;
            assert(self.eq_used@ =~= old(self).eq_used@.update(slot as int, false));
        }
    }

    /// Gives a compressor back: it is free, and its settings are new. A number
    /// that no compressor has changes nothing.
    pub fn free_comp_slot(&mut self, slot: u32)
        requires
            old(self).inv(),
        ensures
            final(self).inv(),
            slot >= COMP_SLOTS ==> *final(self) == *old(self),
            slot < COMP_SLOTS ==> {
                &&& final(self).comp_used@ == old(self).comp_used@.update(slot as int, false)
                &&& final(self).comp_slots@[slot as int]@ == default_settings()
                &&& forall|i: int|
                    0 <= i < COMP_SLOTS && i != slot ==> final(self).comp_slots@[i] == old(
                        self,
                    ).comp_slots@[i]
                &&& *final(self) == (SharedState {
                    comp_used: final(self).comp_used,
                    comp_slots: final(self).comp_slots,
                    ..*old(self)
                })
            },
    {
        if (slot as usize) < COMP_SLOTS {
            self.comp_slots[slot as usize] = CompressorParams::new();
            self.comp_used[slot as usize] = false;
            assert(self.comp_used@ =~= old(self).comp_used@.update(slot as int, false));
        }
    }

    /// Whether an equalizer is taken.
    pub fn eq_slot_used(&self, slot: usize) -> (r: bool)
        requires
            self.inv(),
        ensures
            r == (slot < EQ_SLOTS && self.eq_used@[slot as int]),
    {
        slot < EQ_SLOTS && self.eq_used[slot]
    }

    /// Whether a compressor is taken.
    pub fn comp_slot_used(&self, slot: usize) -> (r: bool)
        requires
            self.inv(),
        ensures
            r == (slot < COMP_SLOTS && self.comp_used@[slot as int]),
    {
        slot < COMP_SLOTS && self.comp_used[slot]
    }

    /// Sets the gain of a band of an equalizer. An equalizer or a band that there
    /// is not, or a gain that is no finite number, is refused.
    pub fn set_eq_band(&mut self, slot: u32, band: u32, gain_db: u32) -> (r: bool)
        requires
            old(self).inv(),
        ensures
            final(self).inv(),
            r == (slot < EQ_SLOTS && band < EQ_BANDS && crate::float::finite(gain_db)),
            !r ==> forall|i: int|
                0 <= i < EQ_SLOTS ==> (#[trigger] final(self).eq_slots@[i]).gains() == old(
                    self,
                ).eq_slots@[i].gains(),
            r ==> final(self).eq_slots@[slot as int].gains() == old(
                self,
            ).eq_slots@[slot as int].gains().update(
                band as int,
                crate::float::clamped(
                    gain_db,
                    crate::equalizer::EQ_GAIN_MIN_DB,
                    crate::equalizer::EQ_GAIN_MAX_DB,
                ),
            ),
            forall|i: int|
                0 <= i < EQ_SLOTS ==> (#[trigger] final(self).eq_slots@[i]).is_enabled() == old(
                    self,
                ).eq_slots@[i].is_enabled(),
            forall|i: int|
                0 <= i < EQ_SLOTS && i != slot ==> final(self).eq_slots@[i] == old(
                    self,
                ).eq_slots@[i],
            *final(self) == (SharedState { eq_slots: final(self).eq_slots, ..*old(self) }),
    {
        if (slot as usize) >= EQ_SLOTS {
            return false;
        }
        self.eq_slots[slot as usize].set_band(band as usize, gain_db)
    }

    /// Switches an equalizer on or off. A number that no equalizer has changes
    /// nothing.
    pub fn set_eq_enabled(&mut self, slot: u32, on: bool)
        requires
            old(self).inv(),
        ensures
            final(self).inv(),
            slot >= EQ_SLOTS ==> *final(self) == *old(self),
            slot < EQ_SLOTS ==> {
                &&& final(self).eq_slots@[slot as int].is_enabled() == on
                &&& final(self).eq_slots@[slot as int].gains() == old(
                    self,
                ).eq_slots@[slot as int].gains()
            },
            forall|i: int|
                0 <= i < EQ_SLOTS && i != slot ==> final(self).eq_slots@[i] == old(
                    self,
                ).eq_slots@[i],
            *final(self) == (SharedState { eq_slots: final(self).eq_slots, ..*old(self) }),
    {
        if (slot as usize) < EQ_SLOTS {
            self.eq_slots[slot as usize].set_enabled(on);
        }
    }
}

impl Default for SharedState {
    fn default() -> (s: SharedState)
        ensures
            s.inv(),
            s.is_new(),
    {
        SharedState::new()
    }
}

} // verus!
