//! Audio playback core: lossless decoders, container parsing, CUE sheets and
//! the decisions of the playback engine, with their behaviour stated as
//! contracts.

pub mod audio_loop;
pub mod blocks;
pub mod bytes;
pub mod cdda;
pub mod cdda_written;
pub mod chars;
pub mod compressor;
pub mod cue;
pub mod cue_laws;
pub mod cue_written;
pub mod decoder;
pub mod decoder_loop;
pub mod engine;
pub mod equalizer;
pub mod error;
pub mod ffmpeg;
pub mod flac;
pub mod float;
pub mod float_laws;
pub mod flow_laws;
pub mod ogg_opus;
pub mod opus;
pub mod opus_backend;
pub mod opus_laws;
pub mod playback_medium;
pub mod probe;
pub mod resample;
pub mod route_laws;
pub mod sample_laws;
pub mod sample_utils;
pub mod spectrum;
pub mod text;
pub mod wav;
pub mod wav_written;
pub mod wavpack;
