//! Which decoder a file goes to: by its name in any case, or by its first bytes.

use crate::bytes::{has_at, stands};
use crate::chars::{caseless, fold_code};
use crate::decoder::{routed, Route};
use crate::flac::metadata::flac_magic;
use crate::ogg_opus::capture_pattern;
use crate::wav::is_riff_wave;
use vstd::prelude::*;

verus! {

/// Letters count as the same in both cases, and no other two characters do.
pub proof fn law_case_folded(a: char, b: char)
    ensures
        fold_code(a) == fold_code(b) <==> {
            ||| a == b
            ||| 'A' <= a <= 'Z' && b as int == a as int + 32
            ||| 'A' <= b <= 'Z' && a as int == b as int + 32
        },
{
}

/// How a name is written, in capitals or not, makes no difference to the decoder.
pub proof fn law_case_ignored(e: Seq<char>, f: Seq<char>, data: Seq<u8>)
    requires
        e.len() == f.len(),
        forall|i: int|
            #![trigger e[i]]
            0 <= i < e.len() ==> {
                ||| e[i] == f[i]
                ||| 'A' <= e[i] <= 'Z' && f[i] as int == e[i] as int + 32
                ||| 'A' <= f[i] <= 'Z' && e[i] as int == f[i] as int + 32
            },
    ensures
        routed(Some(e), data) == routed(Some(f), data),
{
    assert forall|i: int| 0 <= i < e.len() implies caseless(e)[i] == caseless(f)[i] by {
        let a = e[i];
        law_case_folded(a, f[i]);
    }
    assert(caseless(e) =~= caseless(f));
}

/// A file without an extension goes to the decoder for what its first bytes say.
pub proof fn law_first_bytes(data: Seq<u8>)
    ensures
        stands(data, 0, seq![0x66u8, 0x4Cu8, 0x61u8, 0x43u8]) ==> routed(None, data)
            == Route::Flac,
        stands(data, 0, seq![0x52u8, 0x49u8, 0x46u8, 0x46u8]) && stands(
            data,
            8,
            seq![0x57u8, 0x41u8, 0x56u8, 0x45u8],
        ) ==> routed(None, data) == Route::Wav,
{
    let flac = seq![0x66u8, 0x4Cu8, 0x61u8, 0x43u8];
    let riff = seq![0x52u8, 0x49u8, 0x46u8, 0x46u8];
    let wave = seq![0x57u8, 0x41u8, 0x56u8, 0x45u8];
    if has_at(data, 0, capture_pattern()) {
        assert(data.subrange(0, 4)[0] == capture_pattern()[0]);
        assert(data[0] == 0x4F);
    }
    if stands(data, 0, flac) {
        assert(data[0int + 0] == flac[0]);
        assert forall|j: int| 0 <= j < 4 implies data.subrange(0, 4)[j] == flac_magic()[j] by {
            assert(data[0 + j] == flac[j]);
        }
        assert(data.subrange(0, 4) =~= flac_magic());
        if is_riff_wave(data) {
            assert(data.subrange(0, 4)[0] == crate::wav::riff()[0]);
        }
    }
    if stands(data, 0, riff) && stands(data, 8, wave) {
        assert(data[0int + 0] == riff[0]);
        assert forall|j: int| 0 <= j < 4 implies data.subrange(0, 4)[j] == crate::wav::riff()[j] by {
            assert(data[0 + j] == riff[j]);
        }
        assert(data.subrange(0, 4) =~= crate::wav::riff());
        assert forall|j: int| 0 <= j < 4 implies data.subrange(8, 12)[j] == crate::wav::wave()[j] by {
            assert(data[8 + j] == wave[j]);
        }
        assert(data.subrange(8, 12) =~= crate::wav::wave());
    }
}

} // verus!
