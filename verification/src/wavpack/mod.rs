//! WavPack: blocks, their entropy coding and decorrelation, and playing back.
//!
//! `header` splits a file into blocks and a block into its parts, which `parts` reads;
//! `bitstream` and `words` decode the residuals, `decorr` turns them into samples, and
//! `fixup` restores what does not fit in them; `stream` puts a block together and
//! `backend` plays the file.

pub mod backend;
pub mod bitstream;
pub mod coded;
pub mod coded_words;
pub mod decorr;
pub mod fixup;
pub mod forecast;
pub mod header;
pub mod logarithm;
pub mod parts;
pub mod stream;
pub mod words;
pub mod written;
pub mod written_block;
pub mod written_file;
pub mod written_low;
