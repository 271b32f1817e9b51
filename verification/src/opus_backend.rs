//! Playing Opus files: what to hand to the decoder, and what to make of what it
//! gives. The samples in front of the sound are dropped, and a position is found to
//! the sample. The decoder itself stands outside, because it may panic on a damaged
//! packet; each step here says what to do with it.

use crate::decoder::{AudioParams, Params};
use crate::error::{DecodeError, Fault};
use crate::opus::{choose_output_rate, map_opus_error, next_audio, opened, opus_fault, OpusFault};
use crate::opus::{lemma_packet_progress, OpusStream, Search, Session};
use vstd::prelude::*;

verus! {

/// A file being played.
#[verifier::ext_equal]
pub struct Sound {
    /// The packets and what is to be dropped.
    pub session: Session,
    /// Samples decoded and not given out.
    pub pending: Seq<i16>,
    /// During a seek, the samples per channel still to be passed over.
    pub searching: Option<nat>,
}

/// What is to be done next.
pub enum Step {
    /// The packet is to be decoded.
    Decode(Seq<u8>),
    /// The samples are what was asked for.
    Give(Seq<i16>),
    /// The decoder is to forget the packets before.
    Reset,
    /// The position is reached.
    Arrived,
    /// There is no more sound.
    End,
    /// Nothing can be done.
    Fail(Fault),
}

impl Sound {
    /// The next packet is handed to the decoder. Where there is none, playback has
    /// ended, and a seek has failed.
    pub open spec fn fetched(self) -> (Sound, Step) {
        let (p, stream) = next_audio(self.session.stream);
        let s = Sound { session: Session { stream, ..self.session }, ..self };
        let idle = Sound { searching: None, ..s };
        match p {
            Ok(Some(p)) => (s, Step::Decode(p)),
            Ok(None) => if self.searching is Some {
                (idle, Step::Fail(Fault::Seek("目标位置超出文件末尾"@)))
            } else {
                (s, Step::End)
            },
            Err(f) => (idle, Step::Fail(f)),
        }
    }

    /// Samples are asked for: what is waiting comes first.
    pub open spec fn asked(self) -> (Sound, Step) {
        let s = Sound { searching: None, ..self };
        if self.pending.len() > 0 {
            (Sound { pending: Seq::empty(), ..s }, Step::Give(self.pending))
        } else {
            s.fetched()
        }
    }

    /// A position is asked for. What was waiting is lost once playback has moved
    /// near it.
    pub open spec fn sought(self, granule: u64, from_start: nat) -> (Sound, Step) {
        match self.session.sought(granule, from_start) {
            (Err(f), session) => (
                Sound { session, pending: self.pending, searching: None },
                Step::Fail(f),
            ),
            (Ok(n), session) => (
                Sound { session, pending: Seq::empty(), searching: Some(n) },
                Step::Reset,
            ),
        }
    }

    /// The decoder made `out` of the packet it was handed. The samples that belong to
    /// the start of the stream are dropped. In playback the rest is given out, if
    /// there is any. In a seek, samples are passed over up to the position, and what
    /// lies behind it waits.
    pub open spec fn took(self, out: Result<Seq<i16>, Fault>) -> (Sound, Step) {
        match out {
            Err(f) => (Sound { searching: None, ..self }, Step::Fail(f)),
            Ok(v) => {
                let ch = self.session.channels as nat;
                let k = self.session.dropped(v.len() / ch);
                let rest = v.skip((k * ch) as int);
                let session = Session {
                    to_skip: (self.session.to_skip - k) as nat,
                    ..self.session
                };
                match self.searching {
                    None => if rest.len() == 0 {
                        (Sound { session, ..self }).fetched()
                    } else {
                        (Sound { session, ..self }, Step::Give(rest))
                    },
                    Some(left) => {
                        let frames = rest.len() / ch;
                        if frames < left {
                            (Sound {
                                session,
                                searching: Some((left - frames) as nat),
                                ..self
                            }).fetched()
                        } else {
                            (
                                Sound {
                                    session,
                                    pending: rest.skip((left * ch) as int),
                                    searching: None,
                                },
                                Step::Arrived,
                            )
                        }
                    },
                }
            },
        }
    }

    /// Where a step leads in the end, if the decoder makes `outs` of the packets that
    /// it is handed. `None` where these are not as many as it is handed.
    pub open spec fn after(self, step: Step, outs: Seq<Result<Seq<i16>, Fault>>) -> Option<
        (Sound, Step),
    >
        decreases outs.len(),
    {
        if step is Decode {
            if outs.len() == 0 {
                None
            } else {
                let (s, next) = self.took(outs[0]);
                s.after(next, outs.drop_first())
            }
        } else if outs.len() == 0 {
            Some((self, step))
        } else {
            None
        }
    }

    /// What is given out next, if the decoder makes `outs` of the packets.
    pub open spec fn heard(self, outs: Seq<Result<Seq<i16>, Fault>>) -> Option<(Sound, Step)> {
        let (s, step) = self.asked();
        s.after(step, outs)
    }

    /// Where a seek leads once the decoder is reset, if it makes `outs` of the
    /// packets.
    pub open spec fn passed(self, outs: Seq<Result<Seq<i16>, Fault>>) -> Option<(Sound, Step)> {
        let (s, step) = self.fetched();
        s.after(step, outs)
    }
}

/// What the decoder made of a packet: it was handed a buffer, and filled it with a
/// number of samples per channel, or failed.
pub open spec fn made_of(
    pcm: Seq<i16>,
    out: Result<usize, OpusFault>,
    channels: nat,
) -> Result<Seq<i16>, Fault> {
    match out {
        Ok(n) => if n * channels < pcm.len() {
            Ok(pcm.take((n * channels) as int))
        } else {
            Ok(pcm)
        },
        Err(e) => Err(opus_fault(e)),
    }
}

/// What is to be done with the decoder, or with what it gave.
pub enum Action {
    /// Decode the packet and hand over what comes of it.
    Decode(Vec<u8>),
    /// The samples are what was asked for.
    Give(Vec<i16>),
    /// Let the decoder forget the packets before.
    Reset,
    /// The position is reached.
    Arrived,
    /// There is no more sound.
    End,
}

/// Whether a result is a step.
pub open spec fn says(r: Result<Action, DecodeError>, step: Step) -> bool {
    match step {
        Step::Decode(p) => r matches Ok(Action::Decode(w)) && w@ == p,
        Step::Give(v) => r matches Ok(Action::Give(w)) && w@ == v,
        Step::Reset => r matches Ok(Action::Reset),
        Step::Arrived => r matches Ok(Action::Arrived),
        Step::End => r matches Ok(Action::End),
        Step::Fail(f) => r matches Err(e) && e@ == f,
    }
}

/// The error where no decoder can be made, with the reason.
pub fn no_decoder(reason: &str) -> (e: DecodeError)
    ensures
        e@ == Fault::Unsupported("Opus 解码器初始化失败："@ + reason@),
{
    let mut text: String = "Opus 解码器初始化失败：".to_owned();
    text.append(reason);
    DecodeError::Unsupported(text)
}

/// Plays an Opus file.
pub struct OpusBackend {
    stream: OpusStream,
    pending_samples: Vec<i16>,
    search: Option<Search>,
}

impl View for OpusBackend {
    type V = Sound;

    closed spec fn view(&self) -> Sound {
        Sound {
            session: self.stream@,
            pending: self.pending_samples@,
            searching: match self.search {
                Some(s) => Some((s.skip - s.passed) as nat),
                None => None,
            },
        }
    }
}

impl OpusBackend {
    /// The stream is one that can be played, and a seek does not pass over more than
    /// it has to.
    pub closed spec fn inv(&self) -> bool {
        &&& self.stream.inv()
        &&& self.search matches Some(s) ==> s.inv()
    }

    /// Opens a file. (No vector is longer than is asked here.)
    pub fn open(data: Vec<u8>) -> (r: Result<OpusBackend, DecodeError>)
        requires
            data.len() <= i64::MAX,
        ensures
            match opened(data@) {
                Ok(s) => {
                    &&& r matches Ok(b)
                    &&& b.inv()
                    &&& b@ == (Sound { session: s, pending: Seq::empty(), searching: None })
                },
                Err(f) => r matches Err(e) && e@ == f,
            },
    {
        match OpusStream::open(data) {
            Ok(stream) => Ok(
                OpusBackend { stream, pending_samples: Vec::new(), search: None },
            ),
            Err(e) => Err(e),
        }
    }

    /// The sample rate of what is given out: the decoder is made for it.
    pub fn sample_rate(&self) -> (rate: u32)
        requires
            self.inv(),
        ensures
            rate == self@.session.rate,
            rate == choose_output_rate(rate),
    {
        self.stream.sample_rate()
    }

    /// The number of channels: the decoder is made for it.
    pub fn channels(&self) -> (n: u8)
        requires
            self.inv(),
        ensures
            n == self@.session.channels,
            1 <= n <= 2,
    {
        self.stream.channels()
    }

    /// What is known of the file. Its length is not.
    pub fn params(&self) -> (p: AudioParams)
        requires
            self.inv(),
        ensures
            p@ == (Params {
                sample_rate: Some(self@.session.rate),
                channels: Some(self@.session.channels as u16),
                bits_per_sample: Some(16),
                codec_name: "Opus"@,
                track_id: 0,
                duration: None,
            }),
    {
        AudioParams::new(
            Some(self.stream.sample_rate()),
            Some(self.stream.channels() as u16),
            Some(16),
            "Opus".to_owned(),
            0,
            None,
        )
    }

    /// The length of the buffer to be handed to a decoder that fills it with up to
    /// `max_frame` samples per channel.
    pub fn buffer_len(&self, max_frame: usize) -> (n: usize)
        requires
            self.inv(),
            max_frame * self@.session.channels <= usize::MAX,
        ensures
            n == max_frame * self@.session.channels,
    {
        max_frame * self.stream.channels() as usize
    }

    /// Reads the next packet for the decoder.
    fn fetch(&mut self) -> (r: Result<Action, DecodeError>)
        requires
            old(self).inv(),
        ensures
            final(self).inv(),
            final(self)@ == old(self)@.fetched().0,
            says(r, old(self)@.fetched().1),
    {
        match self.stream.next_audio_packet() {
            Ok(Some(p)) => Ok(Action::Decode(p)),
            Ok(None) => {
                if self.search.is_some() {
                    self.search = None;
                    return Err(Search::beyond_end());
                }
                Ok(Action::End)
            },
            Err(e) => {
                self.search = None;
                Err(e)
            },
        }
    }

    /// Asks for the next samples.
    pub fn decode_next(&mut self) -> (r: Result<Action, DecodeError>)
        requires
            old(self).inv(),
        ensures
            final(self).inv(),
            final(self)@ == old(self)@.asked().0,
            says(r, old(self)@.asked().1),
    {
        self.search = None;
        if self.pending_samples.len() > 0 {
            let mut out: Vec<i16> = Vec::new();
            std::mem::swap(&mut out, &mut self.pending_samples);
            return Ok(Action::Give(out));
        }
        self.fetch()
    }

    /// Asks for a position, given in samples at 48 kHz and, from the start, at the
    /// rate of the decoder.
    pub fn seek(&mut self, granule: u64, from_start: u64) -> (r: Result<Action, DecodeError>)
        requires
            old(self).inv(),
        ensures
            final(self).inv(),
            final(self)@ == old(self)@.sought(granule, from_start as nat).0,
            says(r, old(self)@.sought(granule, from_start as nat).1),
    {
        self.search = None;
        match self.stream.seek(granule, from_start) {
            Ok(s) => {
                self.pending_samples = Vec::new();
                self.search = Some(s);
                Ok(Action::Reset)
            },
            Err(e) => Err(e),
        }
    }

    /// Goes on once the decoder is reset.
    pub fn after_reset(&mut self) -> (r: Result<Action, DecodeError>)
        requires
            old(self).inv(),
        ensures
            final(self).inv(),
            final(self)@ == old(self)@.fetched().0,
            says(r, old(self)@.fetched().1),
    {
        self.fetch()
    }

    /// Goes on with what the decoder made of a packet: it was handed `pcm`, and
    /// filled it with so many samples per channel, or failed.
    pub fn decoded(&mut self, pcm: Vec<i16>, out: Result<usize, OpusFault>) -> (r: Result<
        Action,
        DecodeError,
    >)
        requires
            old(self).inv(),
        ensures
            final(self).inv(),
            ({
                let made = made_of(pcm@, out, old(self)@.session.channels as nat);
                let (s, step) = old(self)@.took(made);
                final(self)@ == s && says(r, step)
            }),
    {
        let n: usize = match out {
            Ok(n) => n,
            Err(e) => {
                self.search = None;
                return Err(map_opus_error(e));
            },
        };
        let mut samples: Vec<i16> = pcm;
        self.cut(&mut samples, n);
        self.apply_pre_skip(&mut samples);
        match self.search {
            None => {
                if samples.len() == 0 {
                    return self.fetch();
                }
                Ok(Action::Give(samples))
            },
            Some(s) => {
                let mut search: Search = s;
                let channels: usize = self.stream.channels() as usize;
                let frames: usize = samples.len() / channels;
                match search.take(frames as u64) {
                    Some(n) => {
                        proof {
                            lemma_share(n as int, samples@.len() as int, channels as int);
                        }
                        let ghost rest = samples@;
                        self.pending_samples = samples.split_off(n as usize * channels);
                        assert(self.pending_samples@ =~= rest.skip(n * channels));
                        self.search = None;
                        Ok(Action::Arrived)
                    },
                    None => {
                        self.search = Some(search);
                        self.fetch()
                    },
                }
            },
        }
    }

    /// Cuts a buffer down to `n` samples per channel.
    fn cut(&self, pcm: &mut Vec<i16>, n: usize)
        requires
            self.inv(),
        ensures
            Ok::<Seq<i16>, Fault>(final(pcm)@) == made_of(
                old(pcm)@,
                Ok(n),
                self@.session.channels as nat,
            ),
    {
        let channels: usize = self.stream.channels() as usize;
        let frames: usize = pcm.len() / channels;
        if n <= frames {
            proof {
                lemma_share(n as int, pcm@.len() as int, channels as int);
            }
            pcm.truncate(n * channels);
            assert(pcm@ =~= old(pcm)@.take(n * channels));
            assert(n * channels == old(pcm)@.len() ==> pcm@ =~= old(pcm)@);
        } else {
            proof {
                lemma_more(n as int, pcm@.len() as int, channels as int);
            }
        }
    }

    /// Drops the samples that belong to the start of the stream.
    fn apply_pre_skip(&mut self, samples: &mut Vec<i16>)
        requires
            old(self).inv(),
        ensures
            final(self).inv(),
            ({
                let s = old(self)@.session;
                let k = s.dropped(old(samples)@.len() / (s.channels as nat));
                &&& final(samples)@ == old(samples)@.skip(k * s.channels)
                &&& final(self)@ == (Sound {
                    session: Session { to_skip: (s.to_skip - k) as nat, ..s },
                    ..old(self)@
                })
            }),
    {
        let channels: usize = self.stream.channels() as usize;
        let frames: usize = samples.len() / channels;
        let k: u64 = self.stream.apply_pre_skip(frames as u64);
        proof {
            lemma_share(k as int, samples@.len() as int, channels as int);
        }
        let mut rest: Vec<i16> = samples.split_off(k as usize * channels);
        std::mem::swap(samples, &mut rest);
        assert(samples@ =~= old(samples)@.skip(k * channels));
    }
}

/// Not more than all frames are not more than all samples.
proof fn lemma_share(k: int, len: int, channels: int)
    requires
        0 <= k <= len / channels,
        0 <= len,
        1 <= channels <= 2,
    ensures
        0 <= k * channels <= len,
        k * channels == len ==> k == len / channels,
        len % channels == 0 ==> (len - k * channels) % channels == 0,
        len % channels == 0 && k == len / channels ==> k * channels == len,
{
    if channels == 1 {
        assert(k * 1 == k);
    } else {
        assert(k * 2 == k + k);
    }
}

/// More than all frames are more than all samples.
proof fn lemma_more(k: int, len: int, channels: int)
    requires
        k > len / channels,
        0 <= len,
        1 <= channels <= 2,
    ensures
        k * channels > len,
{
    if channels == 1 {
        assert(k * 1 == k);
    } else {
        assert(k * 2 == k + k);
    }
}

/// Reading a packet with sound gets on.
proof fn lemma_audio_progress(s: crate::ogg_opus::Stream)
    ensures
        next_audio(s).0 matches Ok(Some(_)) ==> gets_on(s, next_audio(s).1),
    decreases
        if s.pos < s.data.len() {
            s.data.len() - s.pos
        } else {
            0
        },
        s.queue.len(),
{
    lemma_packet_progress(s);
    match s.next_packet() {
        (Ok(Some(p)), t) => {
            if crate::opus::is_header(p) {
                lemma_audio_progress(t);
            }
        },
        _ => {},
    }
}

/// Whether less of a file is ahead: the place in it is further on, or fewer packets
/// of what was read are left.
pub open spec fn gets_on(s: crate::ogg_opus::Stream, t: crate::ogg_opus::Stream) -> bool {
    &&& t.data == s.data
    &&& s.pos < t.pos <= s.data.len() || t.pos == s.pos && t.queue.len() < s.queue.len()
}

/// Playback and seeks end: whatever the decoder makes of a packet, where it is handed
/// another one, less of the file is ahead.
pub proof fn law_gets_on(s: Sound, out: Result<Seq<i16>, Fault>)
    ensures
        s.asked().1 is Decode ==> gets_on(s.session.stream, s.asked().0.session.stream),
        s.fetched().1 is Decode ==> gets_on(s.session.stream, s.fetched().0.session.stream),
        s.took(out).1 is Decode ==> gets_on(s.session.stream, s.took(out).0.session.stream),
{
    lemma_audio_progress(s.session.stream);
}

/// Whether packets gave whole frames.
pub open spec fn whole(outs: Seq<Result<Seq<i16>, Fault>>, channels: nat) -> bool {
    forall|i: int| #![trigger outs[i]]
        0 <= i < outs.len() ==> (outs[i] matches Ok(v) ==> v.len() % channels == 0)
}

/// A decoder that is handed a buffer for whole frames gives whole frames, however
/// many of them it fills.
pub proof fn law_whole(pcm: Seq<i16>, out: Result<usize, OpusFault>, channels: nat)
    requires
        1 <= channels <= 2,
        pcm.len() % channels == 0,
    ensures
        made_of(pcm, out, channels) matches Ok(v) ==> v.len() % channels == 0,
{
    if out is Ok {
        let n = out->Ok_0;
        if channels == 1 {
            assert(n * 1 == n);
        } else {
            assert(n * 2 == n + n);
        }
    }
}

/// The samples of packets, one after the other.
pub open spec fn joined(outs: Seq<Result<Seq<i16>, Fault>>) -> Seq<i16>
    decreases outs.len(),
{
    if outs.len() == 0 {
        Seq::empty()
    } else {
        (match outs[0] {
            Ok(v) => v,
            Err(_) => Seq::empty(),
        }) + joined(outs.drop_first())
    }
}

proof fn lemma_skip_more(a: Seq<i16>, b: Seq<i16>, n: int)
    requires
        0 <= n <= b.len(),
    ensures
        (a + b).skip(a.len() + n) == b.skip(n),
{
    assert((a + b).skip(a.len() + n) =~= b.skip(n));
}

/// However the sound is cut into packets, playback starts behind exactly the samples
/// that belong to the start of the stream: what is given out are the samples of the
/// packets read, without the first of them that were still to be dropped, and none
/// are to be dropped after it.
pub proof fn law_start_dropped(s: Sound, outs: Seq<Result<Seq<i16>, Fault>>)
    requires
        1 <= s.session.channels <= 2,
        s.pending.len() == 0,
        whole(outs, s.session.channels as nat),
    ensures
        match s.heard(outs) {
            Some((t, Step::Give(v))) => {
                let dropped = s.session.to_skip * s.session.channels;
                &&& t.session.to_skip == 0
                &&& dropped <= joined(outs).len()
                &&& v == joined(outs).skip(dropped)
            },
            _ => true,
        },
{
    let (t, step) = s.asked();
    if step is Decode {
        lemma_drops(t, step, outs);
    }
}

/// What is given out after a packet was handed to the decoder.
proof fn lemma_drops(s: Sound, step: Step, outs: Seq<Result<Seq<i16>, Fault>>)
    requires
        1 <= s.session.channels <= 2,
        s.searching is None,
        step is Decode,
        whole(outs, s.session.channels as nat),
    ensures
        match s.after(step, outs) {
            Some((t, Step::Give(v))) => {
                let dropped = s.session.to_skip * s.session.channels;
                &&& t.session.to_skip == 0
                &&& dropped <= joined(outs).len()
                &&& v == joined(outs).skip(dropped)
            },
            _ => true,
        },
    decreases outs.len(),
{
    reveal_with_fuel(Sound::after, 2);
    if outs.len() > 0 && outs[0] is Ok {
        let ch = s.session.channels as int;
        let all = outs[0]->Ok_0;
        let rest = outs.drop_first();
        let k = s.session.dropped(all.len() / (ch as nat)) as int;
        lemma_share(k, all.len() as int, ch);
        let (t, next) = s.took(outs[0]);
        if next is Decode {
            lemma_drops(t, next, rest);
            let later = t.session.to_skip * ch;
            assert(s.session.to_skip * ch == k * ch + later) by (nonlinear_arith)
                requires
                    t.session.to_skip == s.session.to_skip - k,
                    later == t.session.to_skip * ch,
            ;
            if let Some((_, Step::Give(_))) = t.after(next, rest) {
                lemma_skip_more(all, joined(rest), later);
            }
        } else if outs.len() == 1 {
            assert(joined(rest) =~= Seq::empty());
            assert(joined(outs) =~= all);
        }
    }
}

/// However the sound is cut into packets, a seek lands on the sample: what is waiting
/// after it are the samples of the packets read, without those that belong to the
/// start of the stream and without exactly those that were to be passed over.
pub proof fn law_seek_lands(s: Sound, outs: Seq<Result<Seq<i16>, Fault>>)
    requires
        1 <= s.session.channels <= 2,
        s.searching is Some,
        whole(outs, s.session.channels as nat),
    ensures
        match s.passed(outs) {
            Some((t, Step::Arrived)) => {
                let left = s.searching.unwrap();
                let gone = (s.session.to_skip - t.session.to_skip + left) * s.session.channels;
                &&& 0 <= gone <= joined(outs).len()
                &&& left > 0 ==> t.session.to_skip == 0
                &&& t.pending == joined(outs).skip(gone)
                &&& t.searching is None
            },
            _ => true,
        },
{
    let (t, step) = s.fetched();
    if step is Decode {
        lemma_lands(t, step, outs);
    }
}

/// Where a seek lands after a packet was handed to the decoder.
proof fn lemma_lands(s: Sound, step: Step, outs: Seq<Result<Seq<i16>, Fault>>)
    requires
        1 <= s.session.channels <= 2,
        s.searching is Some,
        step is Decode,
        whole(outs, s.session.channels as nat),
    ensures
        match s.after(step, outs) {
            Some((t, Step::Arrived)) => {
                let left = s.searching.unwrap();
                let gone = (s.session.to_skip - t.session.to_skip + left) * s.session.channels;
                &&& 0 <= gone <= joined(outs).len()
                &&& left > 0 ==> t.session.to_skip == 0
                &&& t.pending == joined(outs).skip(gone)
                &&& t.searching is None
            },
            _ => true,
        },
    decreases outs.len(),
{
    reveal_with_fuel(Sound::after, 2);
    if outs.len() > 0 && outs[0] is Ok {
        let ch = s.session.channels as int;
        let left = s.searching.unwrap() as int;
        let all = outs[0]->Ok_0;
        let rest = outs.drop_first();
        let k = s.session.dropped(all.len() / (ch as nat)) as int;
        lemma_share(k, all.len() as int, ch);
        let kept = all.skip(k * ch);
        let frames = kept.len() as int / ch;
        lemma_share(frames, kept.len() as int, ch);
        let (t, next) = s.took(outs[0]);
        if next is Decode {
            lemma_lands(t, next, rest);
            if let Some((u, Step::Arrived)) = t.after(next, rest) {
                let later = (t.session.to_skip - u.session.to_skip + (left - frames)) * ch;
                assert((s.session.to_skip - u.session.to_skip + left) * ch == k * ch + frames * ch
                    + later) by (nonlinear_arith)
                    requires
                        t.session.to_skip == s.session.to_skip - k,
                        later == (t.session.to_skip - u.session.to_skip + (left - frames)) * ch,
                ;
                lemma_skip_more(all, joined(rest), later);
            }
        } else if outs.len() == 1 && next is Arrived {
            lemma_share(left, kept.len() as int, ch);
            assert(joined(rest) =~= Seq::empty());
            assert(joined(outs) =~= all);
            assert((k + left) * ch == k * ch + left * ch) by (nonlinear_arith);
            assert(kept.skip(left * ch) =~= all.skip(k * ch + left * ch));
        }
    }
}

} // verus!
