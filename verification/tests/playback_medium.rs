//! Playback media.

use tuneux_corex::playback_medium::{
    lcg_next, lcg_u32, Effect, MediumRamp, PlaybackMedium, UnknownMedium, MEDIUM_RAMP_STEPS,
};

#[test]
fn from_str_round_trips_all_variants() {
    for medium in PlaybackMedium::ALL {
        assert_eq!(medium.as_str().parse::<PlaybackMedium>(), Ok(medium));
    }
}

#[test]
fn from_str_is_case_insensitive() {
    assert_eq!(
        "TAPE".parse::<PlaybackMedium>(),
        Ok(PlaybackMedium::TapeClassic)
    );
    assert_eq!(
        "Vinyl".parse::<PlaybackMedium>(),
        Ok(PlaybackMedium::VinylStandard)
    );
    assert_eq!("None".parse::<PlaybackMedium>(), Ok(PlaybackMedium::Plain));
}

#[test]
fn from_str_rejects_unknown() {
    assert_eq!("mp3".parse::<PlaybackMedium>(), Err(UnknownMedium));
    assert_eq!("".parse::<PlaybackMedium>(), Err(UnknownMedium));
    assert_eq!("vinyl record".parse::<PlaybackMedium>(), Err(UnknownMedium));
}

#[test]
fn discriminant_round_trips_and_falls_back() {
    for medium in PlaybackMedium::ALL {
        assert_eq!(
            PlaybackMedium::from_discriminant(medium.discriminant()),
            medium
        );
    }
    assert_eq!(PlaybackMedium::from_discriminant(9), PlaybackMedium::Plain);
}

#[test]
fn default_is_none() {
    assert_eq!(PlaybackMedium::default(), PlaybackMedium::Plain);
    assert_eq!(PlaybackMedium::default().as_str(), "none");
}

#[test]
fn apply_dispatches_to_correct_effect() {
    assert_eq!(PlaybackMedium::TapeClassic.effect(), Effect::Tape);
    assert_eq!(PlaybackMedium::VinylStandard.effect(), Effect::Vinyl);
}

#[test]
fn apply_none_is_passthrough() {
    assert_eq!(PlaybackMedium::Plain.effect(), Effect::Bypass);
}

#[test]
fn medium_switch_ramps_wet() {
    let mut ramp = MediumRamp::new();
    assert_eq!(ramp.step(PlaybackMedium::TapeClassic) as f32 / 4.0, 0.25);
    for _ in 0..(MEDIUM_RAMP_STEPS + 2) {
        ramp.step(PlaybackMedium::TapeClassic);
    }
    assert_eq!(ramp.ramp_remaining, 0);
    assert_eq!(ramp.step(PlaybackMedium::TapeClassic), 4);
}

#[test]
fn ramp_gains_a_quarter_with_each_callback() {
    let mut ramp = MediumRamp::new();
    let heard: Vec<u32> = (0..5).map(|_| ramp.step(PlaybackMedium::VinylClean)).collect();
    assert_eq!(heard, vec![1, 2, 3, 4, 4]);
    assert_eq!(ramp.step(PlaybackMedium::Plain), 1);
    assert_eq!(ramp.prev_medium, PlaybackMedium::Plain);
}

#[test]
fn numbers_tell_media_apart() {
    let mut numbers: Vec<u32> = PlaybackMedium::ALL.iter().map(|m| m.discriminant()).collect();
    numbers.dedup();
    assert_eq!(numbers, (0..9).collect::<Vec<u32>>());
}

#[test]
fn unknown_medium_has_a_text() {
    assert!(!UnknownMedium.message().is_empty());
}

#[test]
fn generator_goes_its_way() {
    assert_eq!(lcg_next(0), 1_013_904_223);
    let mut s = 1;
    assert_eq!(lcg_u32(&mut s), 1_015_568_748);
    assert_eq!(s, 1_015_568_748);
}
