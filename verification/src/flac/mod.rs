//! FLAC: metadata, frames, and playing back with seeking.
//!
//! `bits` reads numbers out of bytes and keeps the checksums of `crc`; `metadata` is
//! what stands in front of the sound; `header`, `subframe` and `frame` are the sound,
//! frame by frame; `backend` plays it. `laws` says what all of it is for.

pub mod backend;
pub mod bits;
pub mod crc;
pub mod encoded;
pub mod encoded_file;
pub mod encoded_frame;
pub mod frame;
pub mod header;
pub mod laws;
pub mod metadata;
pub mod subframe;
pub mod written;
