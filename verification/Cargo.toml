[package]
name = "tuneux-corex"
version = "0.1.0"
edition = "2021"
publish = false

[dependencies]
cpal = "=0.15.3"
crossbeam-channel = "=0.5.17"
encoding_rs = "=0.8.44"
opus-decoder = "=0.1.1"
ringbuf = "=0.4.8"
rubato = "=0.16.2"
rustfft = "=6.4.1"
symphonia = { version = "=0.6.1", features = ["mp3", "aac", "alac", "isomp4", "flac", "wav", "ogg", "vorbis", "pcm"] }

[dev-dependencies]
wavicle = { version = "=0.1.0", features = ["encode"] }
