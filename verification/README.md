# tuneux-corex

The core of an audio player. Everything that decides or computes on integers, bytes and
text is in `src/` and verified with Verus; `app/` holds what plays: files, the `ffmpeg`
process, the output device, threads, and signal processing in floating point.

## The library

| Modules | What they hold |
| --- | --- |
| `flac`, `wavpack`, `wav`, `cdda` | Decoders from the bytes of a file to its samples, with seeking |
| `ogg_opus`, `opus`, `opus_backend` | Ogg pages and packets, Opus streams, and what to hand to an Opus decoder and to make of what it gives |
| `cue` | CUE sheets and the encodings they come in |
| `decoder`, `ffmpeg`, `probe` | Which decoder a file goes to, how `ffmpeg` is run, tags and covers |
| `decoder_loop`, `audio_loop` | What the two threads of the player do next |
| `engine` | The state that the threads share |
| `sample_utils`, `resample`, `blocks`, `spectrum` | Channels, buffers, chunks and displays |
| `equalizer`, `compressor`, `playback_medium`, `float` | Settings of the effects |
| `error`, `text`, `chars`, `bytes` | Errors, and texts and numbers |

Floating-point numbers appear as their bits: a `u32` for a sample or a gain, a `u64` for
a time in seconds. A decoder gives out integers; `app/` scales them.

Contracts are stated over spec functions on sequences and integers. What holds of several
functions together is a public proof function whose name starts with `law_`: that a
lossless format loses nothing, that a seek lands on the sample, that the tracks of a sheet
meet, that pausing loses nothing, that the packets of a stream come whole and in order
over its pages.

## What is trusted

The library calls `encoding_rs` for text that is not UTF-8, and a few functions of the
standard library on text. The contract of each of these calls stands at the function that
makes it, marked `external_body`, or at an `assume_specification`.

Opus packets are decoded in `app/`, with `opus-decoder`: `opus_backend` is a machine of
steps that says when to decode a packet and when to reset the decoder, and its contracts
hold whatever the decoder gives.
