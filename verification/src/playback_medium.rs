//! The media whose sound playback can imitate: tapes and records, each in four
//! states of wear.

use crate::chars::{caseless, chars_of, same_caseless};
use std::str::FromStr;
use vstd::prelude::*;

verus! {

/// The name of a medium was not known.
#[derive(Debug, Clone, Copy, PartialEq, Eq, Structural)]
pub struct UnknownMedium;

impl UnknownMedium {
    /// The text shown for this error.
    pub fn message(&self) -> (text: String)
        ensures
            text@ == "未知的介质风格名称"@,
    {
        "未知的介质风格名称".to_owned()
    }
}

/// A medium.
#[derive(Debug, Clone, Copy, PartialEq, Eq, Hash, Structural)]
pub enum PlaybackMedium {
    /// No medium: the sound as it is.
    Plain,
    /// A new tape.
    TapeClear,
    /// A tape with little wear.
    TapeWhite,
    /// A tape with some wear.
    TapeClassic,
    /// An old tape.
    TapeAged,
    /// A new record.
    VinylClean,
    /// A record with little wear.
    VinylDynamic,
    /// A record with some wear.
    VinylStandard,
    /// An old record.
    VinylAged,
}

impl PlaybackMedium {
    /// All media: no medium, the tapes and the records, each from new to old.
    pub const ALL: [PlaybackMedium; 9] = [
        PlaybackMedium::Plain,
        PlaybackMedium::TapeClear,
        PlaybackMedium::TapeWhite,
        PlaybackMedium::TapeClassic,
        PlaybackMedium::TapeAged,
        PlaybackMedium::VinylClean,
        PlaybackMedium::VinylDynamic,
        PlaybackMedium::VinylStandard,
        PlaybackMedium::VinylAged,
    ];

    /// The name.
    pub open spec fn name(self) -> Seq<char> {
        match self {
            PlaybackMedium::Plain => "none"@,
            PlaybackMedium::TapeClear => "tape_clear"@,
            PlaybackMedium::TapeWhite => "tape_white"@,
            PlaybackMedium::TapeClassic => "tape_classic"@,
            PlaybackMedium::TapeAged => "tape_aged"@,
            PlaybackMedium::VinylClean => "vinyl_clean"@,
            PlaybackMedium::VinylDynamic => "vinyl_dynamic"@,
            PlaybackMedium::VinylStandard => "vinyl_standard"@,
            PlaybackMedium::VinylAged => "vinyl_aged"@,
        }
    }

    /// The name, which does not change.
    pub fn as_str(self) -> (s: &'static str)
        ensures
            s@ == self.name(),
    {
        match self {
            PlaybackMedium::Plain => "none",
            PlaybackMedium::TapeClear => "tape_clear",
            PlaybackMedium::TapeWhite => "tape_white",
            PlaybackMedium::TapeClassic => "tape_classic",
            PlaybackMedium::TapeAged => "tape_aged",
            PlaybackMedium::VinylClean => "vinyl_clean",
            PlaybackMedium::VinylDynamic => "vinyl_dynamic",
            PlaybackMedium::VinylStandard => "vinyl_standard",
            PlaybackMedium::VinylAged => "vinyl_aged",
        }
    }

    /// The number, in the order of [`PlaybackMedium::ALL`].
    pub open spec fn number(self) -> u32 {
        match self {
            PlaybackMedium::Plain => 0,
            PlaybackMedium::TapeClear => 1,
            PlaybackMedium::TapeWhite => 2,
            PlaybackMedium::TapeClassic => 3,
            PlaybackMedium::TapeAged => 4,
            PlaybackMedium::VinylClean => 5,
            PlaybackMedium::VinylDynamic => 6,
            PlaybackMedium::VinylStandard => 7,
            PlaybackMedium::VinylAged => 8,
        }
    }

    /// The number, for storing.
    pub fn discriminant(self) -> (n: u32)
        ensures
            n == self.number(),
    {
        match self {
            PlaybackMedium::Plain => 0,
            PlaybackMedium::TapeClear => 1,
            PlaybackMedium::TapeWhite => 2,
            PlaybackMedium::TapeClassic => 3,
            PlaybackMedium::TapeAged => 4,
            PlaybackMedium::VinylClean => 5,
            PlaybackMedium::VinylDynamic => 6,
            PlaybackMedium::VinylStandard => 7,
            PlaybackMedium::VinylAged => 8,
        }
    }

    /// The medium of a number; none for a number that no medium has.
    pub open spec fn numbered(value: u32) -> PlaybackMedium {
        match value {
            1 => PlaybackMedium::TapeClear,
            2 => PlaybackMedium::TapeWhite,
            3 => PlaybackMedium::TapeClassic,
            4 => PlaybackMedium::TapeAged,
            5 => PlaybackMedium::VinylClean,
            6 => PlaybackMedium::VinylDynamic,
            7 => PlaybackMedium::VinylStandard,
            8 => PlaybackMedium::VinylAged,
            _ => PlaybackMedium::Plain,
        }
    }

    /// Finds the medium of a number.
    pub fn from_discriminant(value: u32) -> (m: PlaybackMedium)
        ensures
            m == PlaybackMedium::numbered(value),
    {
        match value {
            1 => PlaybackMedium::TapeClear,
            2 => PlaybackMedium::TapeWhite,
            3 => PlaybackMedium::TapeClassic,
            4 => PlaybackMedium::TapeAged,
            5 => PlaybackMedium::VinylClean,
            6 => PlaybackMedium::VinylDynamic,
            7 => PlaybackMedium::VinylStandard,
            8 => PlaybackMedium::VinylAged,
            _ => PlaybackMedium::Plain,
        }
    }

    /// The medium that a text names, in any case. `tape` and `vinyl` are old
    /// names.
    pub open spec fn named(s: Seq<char>) -> Option<PlaybackMedium> {
        let t = caseless(s);
        if t == caseless("none"@) {
            Some(PlaybackMedium::Plain)
        } else if t == caseless("tape_clear"@) {
            Some(PlaybackMedium::TapeClear)
        } else if t == caseless("tape_white"@) {
            Some(PlaybackMedium::TapeWhite)
        } else if t == caseless("tape_classic"@) || t == caseless("tape"@) {
            Some(PlaybackMedium::TapeClassic)
        } else if t == caseless("tape_aged"@) {
            Some(PlaybackMedium::TapeAged)
        } else if t == caseless("vinyl_clean"@) {
            Some(PlaybackMedium::VinylClean)
        } else if t == caseless("vinyl_dynamic"@) {
            Some(PlaybackMedium::VinylDynamic)
        } else if t == caseless("vinyl_standard"@) || t == caseless("vinyl"@) {
            Some(PlaybackMedium::VinylStandard)
        } else if t == caseless("vinyl_aged"@) {
            Some(PlaybackMedium::VinylAged)
        } else {
            None
        }
    }

    /// The medium that a text names.
    pub fn parse(s: &str) -> (r: Result<PlaybackMedium, UnknownMedium>)
        ensures
            match PlaybackMedium::named(s@) {
                Some(m) => r == Ok::<PlaybackMedium, UnknownMedium>(m),
                None => r == Err::<PlaybackMedium, UnknownMedium>(UnknownMedium),
            },
    {
        let text: Vec<char> = chars_of(s);
        let cs: &[char] = text.as_slice();
        if same_caseless(cs, "none") {
            Ok(PlaybackMedium::Plain)
        } else if same_caseless(cs, "tape_clear") {
            Ok(PlaybackMedium::TapeClear)
        } else if same_caseless(cs, "tape_white") {
            Ok(PlaybackMedium::TapeWhite)
        } else if same_caseless(cs, "tape_classic") || same_caseless(cs, "tape") {
            Ok(PlaybackMedium::TapeClassic)
        } else if same_caseless(cs, "tape_aged") {
            Ok(PlaybackMedium::TapeAged)
        } else if same_caseless(cs, "vinyl_clean") {
            Ok(PlaybackMedium::VinylClean)
        } else if same_caseless(cs, "vinyl_dynamic") {
            Ok(PlaybackMedium::VinylDynamic)
        } else if same_caseless(cs, "vinyl_standard") || same_caseless(cs, "vinyl") {
            Ok(PlaybackMedium::VinylStandard)
        } else if same_caseless(cs, "vinyl_aged") {
            Ok(PlaybackMedium::VinylAged)
        } else {
            Err(UnknownMedium)
        }
    }
}

impl Default for PlaybackMedium {
    fn default() -> (m: PlaybackMedium)
        ensures
            m == PlaybackMedium::Plain,
    {
        PlaybackMedium::Plain
    }
}

impl FromStr for PlaybackMedium {
    type Err = UnknownMedium;

    fn from_str(s: &str) -> (r: Result<PlaybackMedium, UnknownMedium>)
        ensures
            match PlaybackMedium::named(s@) {
                Some(m) => r == Ok::<PlaybackMedium, UnknownMedium>(m),
                None => r == Err::<PlaybackMedium, UnknownMedium>(UnknownMedium),
            },
    {
        PlaybackMedium::parse(s)
    }
}

/// The number of a medium gives it back.
pub proof fn law_number_comes_back(m: PlaybackMedium)
    ensures
        PlaybackMedium::numbered(m.number()) == m,
{
}

/// The name of a medium names it.
pub proof fn law_name_names(m: PlaybackMedium)
    ensures
        PlaybackMedium::named(m.name()) == Some(m),
{
    reveal_strlit("none");
    reveal_strlit("tape_clear");
    reveal_strlit("tape_white");
    reveal_strlit("tape_classic");
    reveal_strlit("tape");
    reveal_strlit("tape_aged");
    reveal_strlit("vinyl_clean");
    reveal_strlit("vinyl_dynamic");
    reveal_strlit("vinyl_standard");
    reveal_strlit("vinyl");
    reveal_strlit("vinyl_aged");
    let t = caseless(m.name());
    assert(t.len() == m.name().len());
    assert(caseless("none"@).len() == 4);
    assert(caseless("tape_clear"@).len() == 10 && caseless("tape_clear"@)[0] == 't' as u32
        && caseless("tape_clear"@)[5] == 'c' as u32);
    assert(caseless("tape_white"@).len() == 10 && caseless("tape_white"@)[0] == 't' as u32
        && caseless("tape_white"@)[5] == 'w' as u32);
    assert(caseless("vinyl_aged"@).len() == 10 && caseless("vinyl_aged"@)[0] == 'v' as u32);
    assert(caseless("tape_classic"@).len() == 12);
    assert(caseless("tape"@).len() == 4 && caseless("tape"@)[0] == 't' as u32);
    assert(caseless("none"@)[0] == 'n' as u32);
    assert(caseless("tape_aged"@).len() == 9);
    assert(caseless("vinyl_clean"@).len() == 11);
    assert(caseless("vinyl_dynamic"@).len() == 13);
    assert(caseless("vinyl_standard"@).len() == 14);
    assert(caseless("vinyl"@).len() == 5);
}

/// The case of a name does not matter.
pub proof fn law_case_ignored(s: Seq<char>, t: Seq<char>)
    requires
        caseless(s) == caseless(t),
    ensures
        PlaybackMedium::named(s) == PlaybackMedium::named(t),
{
}

/// The effect that imitates a medium.
#[derive(Debug, Clone, Copy, PartialEq, Eq, Structural)]
pub enum Effect {
    /// No effect.
    Bypass,
    /// The tape.
    Tape,
    /// The record.
    Vinyl,
}

impl PlaybackMedium {
    /// The effect that imitates it.
    #[verifier::allow_in_spec]
    pub fn effect(self) -> Effect
        returns
            (match self {
                PlaybackMedium::Plain => Effect::Bypass,
                PlaybackMedium::TapeClear => Effect::Tape,
                PlaybackMedium::TapeWhite => Effect::Tape,
                PlaybackMedium::TapeClassic => Effect::Tape,
                PlaybackMedium::TapeAged => Effect::Tape,
                PlaybackMedium::VinylClean => Effect::Vinyl,
                PlaybackMedium::VinylDynamic => Effect::Vinyl,
                PlaybackMedium::VinylStandard => Effect::Vinyl,
                PlaybackMedium::VinylAged => Effect::Vinyl,
            }),
    {
        match self {
            PlaybackMedium::Plain => Effect::Bypass,
            PlaybackMedium::TapeClear => Effect::Tape,
            PlaybackMedium::TapeWhite => Effect::Tape,
            PlaybackMedium::TapeClassic => Effect::Tape,
            PlaybackMedium::TapeAged => Effect::Tape,
            PlaybackMedium::VinylClean => Effect::Vinyl,
            PlaybackMedium::VinylDynamic => Effect::Vinyl,
            PlaybackMedium::VinylStandard => Effect::Vinyl,
            PlaybackMedium::VinylAged => Effect::Vinyl,
        }
    }
}

/// The number of callbacks over which a new medium is faded in.
pub const MEDIUM_RAMP_STEPS: u32 = 3;

/// Fades a new medium in.
#[derive(Debug, Clone, Copy)]
pub struct MediumRamp {
    /// The medium of the last callback.
    pub prev_medium: PlaybackMedium,
    /// The callbacks left until it is heard in full.
    pub ramp_remaining: u32,
}

impl MediumRamp {
    /// At most the steps of a fade are left.
    pub open spec fn inv(self) -> bool {
        self.ramp_remaining <= MEDIUM_RAMP_STEPS
    }

    /// The ramp with a medium that may be new.
    pub open spec fn turned(self, medium: PlaybackMedium) -> MediumRamp {
        if medium != self.prev_medium {
            MediumRamp { prev_medium: medium, ramp_remaining: MEDIUM_RAMP_STEPS }
        } else {
            self
        }
    }

    /// Nothing was heard yet.
    pub fn new() -> (r: MediumRamp)
        ensures
            r.prev_medium == PlaybackMedium::Plain,
            r.ramp_remaining == 0,
            r.inv(),
    {
        MediumRamp { prev_medium: PlaybackMedium::Plain, ramp_remaining: 0 }
    }

    /// One callback: how much of the effect is heard, in quarters. A new medium
    /// starts with one quarter and gains one with each callback.
    pub fn step(&mut self, medium: PlaybackMedium) -> (quarters: u32)
        requires
            old(self).inv(),
        ensures
            final(self).inv(),
            quarters == MEDIUM_RAMP_STEPS + 1 - old(self).turned(medium).ramp_remaining,
            1 <= quarters <= MEDIUM_RAMP_STEPS + 1,
            final(self).prev_medium == medium,
            final(self).ramp_remaining == (if old(self).turned(medium).ramp_remaining == 0 {
                0
            } else {
                old(self).turned(medium).ramp_remaining - 1
            }),
    {
        if medium != self.prev_medium {
            self.prev_medium = medium;
            self.ramp_remaining = MEDIUM_RAMP_STEPS;
        }
        let quarters: u32 = MEDIUM_RAMP_STEPS + 1 - self.ramp_remaining;
        if self.ramp_remaining > 0 {
            self.ramp_remaining = self.ramp_remaining - 1;
        }
        quarters
    }
}

/// The ramp after `n` more callbacks with the same medium.
pub open spec fn ramp_after(r: MediumRamp, n: nat) -> MediumRamp
    decreases n,
{
    if n == 0 {
        r
    } else {
        let before = ramp_after(r, (n - 1) as nat);
        MediumRamp {
            ramp_remaining: if before.ramp_remaining == 0 {
                0
            } else {
                (before.ramp_remaining - 1) as u32
            },
            ..before
        }
    }
}

/// A medium that stays is heard in full once the steps of a fade are over.
pub proof fn law_ramp_ends(r: MediumRamp, n: nat)
    requires
        r.inv(),
        n >= MEDIUM_RAMP_STEPS,
    ensures
        ramp_after(r, n).ramp_remaining == 0,
        ramp_after(r, n).prev_medium == r.prev_medium,
    decreases n,
{
    if n == MEDIUM_RAMP_STEPS {
        reveal_with_fuel(ramp_after, 4);
    } else {
        law_ramp_ends(r, (n - 1) as nat);
    }
}

/// A new medium is heard with one quarter at first, with one more at each callback after
/// that, and in full from the fourth on; one that stays is not faded in again.
pub proof fn law_ramp_rises(r: MediumRamp, medium: PlaybackMedium, n: nat)
    requires
        r.inv(),
    ensures
        medium != r.prev_medium ==> 4 - ramp_after(r.turned(medium), n).ramp_remaining == (if n
            < 3 {
            n + 1
        } else {
            4
        }),
        medium == r.prev_medium ==> ramp_after(r.turned(medium), n).ramp_remaining == (if n
            < r.ramp_remaining {
            r.ramp_remaining - n
        } else {
            0
        }),
        ramp_after(r.turned(medium), n).prev_medium == medium,
    decreases n,
{
    if n > 0 {
        law_ramp_rises(r, medium, (n - 1) as nat);
    }
}

/// The next number of the generator behind noise and random events.
#[verifier::allow_in_spec]
pub fn lcg_next(state: u32) -> u32
    returns
        state.wrapping_mul(1_664_525u32).wrapping_add(1_013_904_223u32),
{
    state.wrapping_mul(1_664_525u32).wrapping_add(1_013_904_223u32)
}

/// Advances the generator and gives out its number.
pub fn lcg_u32(state: &mut u32) -> (v: u32)
    ensures
        *final(state) == lcg_next(*old(state)),
        v == *final(state),
{
    *state = lcg_next(*state);
    *state
}

} // verus!
