//! CUE sheets as they are written, and what reading them gives back.

use crate::chars::{
    digits_value, is_white, trim_end, trim_start, trimmed, u32_of, until, word, word_len,
};
use crate::cue::{audio_places, time_of, Track};
use crate::text::{decimal, digit_char, numeral};
use vstd::prelude::*;

verus! {

/// A number as it is written: with zeros in front.
pub struct Number {
    /// How many zeros stand in front.
    pub zeros: nat,
    /// The number.
    pub value: u32,
}

impl Number {
    /// Its digits.
    pub open spec fn text(self) -> Seq<char> {
        Seq::new(self.zeros, |i: int| '0') + numeral(self.value as nat, 10)
    }
}

/// A time as it is written.
pub struct Time {
    /// Minutes.
    pub minutes: Number,
    /// Seconds.
    pub seconds: Number,
    /// Frames.
    pub frames: Number,
}

impl Time {
    /// The three numbers joined by colons.
    pub open spec fn text(self) -> Seq<char> {
        self.minutes.text() + (seq![':'] + (self.seconds.text() + (seq![':']
            + self.frames.text())))
    }

    /// Whether there is such a time.
    pub open spec fn exists_so(self) -> bool {
        self.seconds.value < 60 && self.frames.value < 75
    }

    /// The frames up to it, 75 to the second.
    pub open spec fn count(self) -> int {
        (self.minutes.value * 60 + self.seconds.value) * 75 + self.frames.value
    }
}

/// Whether all characters are decimal digits.
pub open spec fn all_digits(s: Seq<char>) -> bool {
    forall|i: int| 0 <= i < s.len() ==> '0' <= #[trigger] s[i] <= '9'
}

/// Whether a character does not occur.
pub open spec fn lacks(s: Seq<char>, c: char) -> bool {
    forall|i: int| 0 <= i < s.len() ==> #[trigger] s[i] != c
}

/// Whether no character is white space.
pub open spec fn solid(s: Seq<char>) -> bool {
    forall|i: int| 0 <= i < s.len() ==> !is_white(#[trigger] s[i])
}

/// Whether all characters are white space.
pub open spec fn blank(s: Seq<char>) -> bool {
    forall|i: int| 0 <= i < s.len() ==> is_white(#[trigger] s[i])
}

proof fn lemma_numeral(n: nat)
    ensures
        all_digits(numeral(n, 10)),
        numeral(n, 10).len() > 0,
        digits_value(numeral(n, 10)) == Some(n),
    decreases n,
{
    let t = numeral(n, 10);
    if n < 10 {
        assert(t =~= seq![digit_char(n)]);
        assert(t.drop_last() =~= Seq::empty());
        assert(t.last() == digit_char(n));
        reveal_with_fuel(digits_value, 2);
    } else {
        lemma_numeral(n / 10);
        let front = numeral(n / 10, 10);
        assert(t == front.push(digit_char(n % 10)));
        assert(t.drop_last() =~= front);
        assert(t.last() == digit_char(n % 10));
        assert forall|i: int| 0 <= i < t.len() implies '0' <= #[trigger] t[i] <= '9' by {
            if i < front.len() {
                assert(t[i] == front[i]);
            }
        }
    }
}

proof fn lemma_zeros(zeros: nat, s: Seq<char>)
    requires
        all_digits(s),
    ensures
        digits_value(Seq::new(zeros, |i: int| '0') + s) == digits_value(s),
        all_digits(Seq::new(zeros, |i: int| '0') + s),
    decreases s.len(), zeros,
{
    let z = Seq::new(zeros, |i: int| '0');
    let all = z + s;
    if s.len() > 0 {
        let front = s.drop_last();
        lemma_zeros(zeros, front);
        assert(all.drop_last() =~= z + front);
        assert(all.last() == s.last());
    } else if zeros > 0 {
        let fewer = Seq::new((zeros - 1) as nat, |i: int| '0');
        lemma_zeros((zeros - 1) as nat, s);
        assert(all.drop_last() =~= fewer + s);
        assert(all.last() == '0');
        assert(digits_value(s) == Some(0nat));
    } else {
        assert(all =~= s);
    }
}

/// A number that is written in decimal is read, with any zeros in front, and with a
/// plus sign or without one.
pub proof fn law_number_read(n: Number)
    ensures
        u32_of(n.text()) == Some(n.value),
        u32_of(seq!['+'] + n.text()) == Some(n.value),
        all_digits(n.text()),
        n.text().len() > 0,
{
    lemma_numeral(n.value as nat);
    lemma_zeros(n.zeros, numeral(n.value as nat, 10));
    assert('0' <= n.text()[0]);
    assert((seq!['+'] + n.text()).drop_first() =~= n.text());
}

pub proof fn lemma_until(front: Seq<char>, c: char, rest: Seq<char>)
    requires
        lacks(front, c),
        rest.len() == 0 || rest[0] == c,
    ensures
        until(front + rest, c) == front.len(),
    decreases front.len(),
{
    let s = front + rest;
    if front.len() > 0 {
        assert(s[0] == front[0]);
        assert(s.drop_first() =~= front.drop_first() + rest);
        lemma_until(front.drop_first(), c, rest);
    } else {
        assert(s =~= rest);
    }
}

proof fn lemma_three(a: Seq<char>, b: Seq<char>, c: Seq<char>, tail: Seq<char>)
    requires
        all_digits(a),
        all_digits(b),
        all_digits(c),
        tail.len() == 0 || tail[0] == ':',
    ensures
        ({
            let s = a + (seq![':'] + (b + (seq![':'] + (c + tail))));
            let s1 = s.skip(a.len() as int + 1);
            let s2 = s1.skip(b.len() as int + 1);
            &&& until(s, ':') == a.len()
            &&& a.len() < s.len()
            &&& s.take(a.len() as int) == a
            &&& until(s1, ':') == b.len()
            &&& b.len() < s1.len()
            &&& s1.take(b.len() as int) == b
            &&& until(s2, ':') == c.len()
            &&& s2.take(c.len() as int) == c
        }),
{
    let r2 = seq![':'] + (c + tail);
    let r1 = seq![':'] + (b + r2);
    let s = a + r1;
    lemma_until(a, ':', r1);
    lemma_until(b, ':', r2);
    lemma_until(c, ':', tail);
    assert(s.skip(a.len() as int + 1) =~= b + r2);
    assert((b + r2).skip(b.len() as int + 1) =~= c + tail);
    assert(s.take(a.len() as int) =~= a);
    assert((b + r2).take(b.len() as int) =~= b);
    assert((c + tail).take(c.len() as int) =~= c);
}

/// A time that is written is read: sixty seconds to the minute and 75 frames to the
/// second. With more seconds or frames than that there is no such time. What follows
/// behind a third colon does not count.
pub proof fn law_time_read(t: Time, tail: Seq<char>)
    requires
        tail.len() == 0 || tail[0] == ':',
    ensures
        time_of(t.text() + tail) == (if t.exists_so() {
            Some(t.count() as u64)
        } else {
            None
        }),
        t.exists_so() ==> t.count() < 0x1_0000_0000_0000_0000,
{
    let a = t.minutes.text();
    let b = t.seconds.text();
    let c = t.frames.text();
    law_number_read(t.minutes);
    law_number_read(t.seconds);
    law_number_read(t.frames);
    lemma_three(a, b, c, tail);
    assert(t.text() + tail =~= a + (seq![':'] + (b + (seq![':'] + (c + tail)))));
}

/// Different times are read as different: texts that are read as the same time have the
/// same minutes, seconds and frames.
pub proof fn law_times_differ(t: Time, u: Time)
    requires
        t.exists_so(),
        u.exists_so(),
        time_of(t.text()) == time_of(u.text()),
    ensures
        t.minutes.value == u.minutes.value,
        t.seconds.value == u.seconds.value,
        t.frames.value == u.frames.value,
{
    law_time_read(t, Seq::empty());
    law_time_read(u, Seq::empty());
    assert(t.text() + Seq::<char>::empty() =~= t.text());
    assert(u.text() + Seq::<char>::empty() =~= u.text());
}

proof fn lemma_trim_start(front: Seq<char>, s: Seq<char>)
    requires
        blank(front),
        s.len() == 0 || !is_white(s[0]),
    ensures
        trim_start(front + s) == s,
    decreases front.len(),
{
    let all = front + s;
    if front.len() > 0 {
        assert(all[0] == front[0]);
        assert(all.drop_first() =~= front.drop_first() + s);
        lemma_trim_start(front.drop_first(), s);
    } else {
        assert(all =~= s);
    }
}

proof fn lemma_trim_end(s: Seq<char>, back: Seq<char>)
    requires
        blank(back),
        s.len() == 0 || !is_white(s.last()),
    ensures
        trim_end(s + back) == s,
    decreases back.len(),
{
    let all = s + back;
    if back.len() > 0 {
        assert(all.last() == back.last());
        assert(all.drop_last() =~= s + back.drop_last());
        lemma_trim_end(s, back.drop_last());
    } else {
        assert(all =~= s);
    }
}

/// White space in front and behind is cut off, and nothing else.
pub proof fn law_trimmed(front: Seq<char>, s: Seq<char>, back: Seq<char>)
    requires
        blank(front),
        blank(back),
        s.len() > 0,
        !is_white(s[0]),
        !is_white(s.last()),
    ensures
        trimmed(front + (s + back)) == s,
{
    assert((s + back)[0] == s[0]);
    lemma_trim_start(front, s + back);
    lemma_trim_end(s, back);
}

proof fn lemma_word_len(w: Seq<char>, rest: Seq<char>)
    requires
        solid(w),
        rest.len() == 0 || is_white(rest[0]),
    ensures
        word_len(w + rest) == w.len(),
    decreases w.len(),
{
    let s = w + rest;
    if w.len() > 0 {
        assert(s[0] == w[0]);
        assert(s.drop_first() =~= w.drop_first() + rest);
        lemma_word_len(w.drop_first(), rest);
    } else {
        assert(s =~= rest);
    }
}

/// The words of a text are what stands between white space.
pub proof fn law_words(gap: Seq<char>, w: Seq<char>, rest: Seq<char>, k: nat)
    requires
        blank(gap),
        solid(w),
        w.len() > 0,
        rest.len() == 0 || is_white(rest[0]),
    ensures
        word(gap + (w + rest), 0) == Some(w),
        word(gap + (w + rest), k + 1) == word(rest, k),
{
    let t = w + rest;
    assert(t[0] == w[0]);
    lemma_trim_start(gap, t);
    lemma_word_len(w, rest);
    assert(t.take(w.len() as int) =~= w);
    assert(t.skip(w.len() as int) =~= rest);
}

pub proof fn lemma_digits_solid(s: Seq<char>)
    requires
        all_digits(s),
    ensures
        solid(s),
        lacks(s, ' '),
        lacks(s, '\n'),
{
    assert forall|i: int| 0 <= i < s.len() implies !is_white(#[trigger] s[i]) by {
        assert('0' <= s[i] <= '9');
    }
    assert forall|i: int| 0 <= i < s.len() implies #[trigger] s[i] != ' ' by {
        assert('0' <= s[i] <= '9');
    }
    assert forall|i: int| 0 <= i < s.len() implies #[trigger] s[i] != '\n' by {
        assert('0' <= s[i] <= '9');
    }
}

pub proof fn lemma_time_solid(t: Time)
    ensures
        solid(t.text()),
        lacks(t.text(), '\n'),
        t.text().len() > 0,
{
    law_number_read(t.minutes);
    law_number_read(t.seconds);
    law_number_read(t.frames);
    let a = t.minutes.text();
    let b = t.seconds.text();
    let c = t.frames.text();
    let all = t.text();
    assert forall|i: int| 0 <= i < all.len() implies ('0' <= #[trigger] all[i] <= '9' || all[i]
        == ':') by {
        let j = i - a.len() - 1;
        let k = j - b.len() - 1;
        if i < a.len() {
            assert(all[i] == a[i]);
        } else if 0 <= j < b.len() {
            assert(all[i] == b[j]);
        } else if k >= 0 {
            assert(all[i] == c[k]);
        }
    }
    assert forall|i: int| 0 <= i < all.len() implies !is_white(#[trigger] all[i]) by {
        assert('0' <= all[i] <= '9' || all[i] == ':');
    }
    assert forall|i: int| 0 <= i < all.len() implies #[trigger] all[i] != '\n' by {
        assert('0' <= all[i] <= '9' || all[i] == ':');
    }
}

/// The audio tracks of a sheet: each place once and in order, no place of another track,
/// and none left out.
pub proof fn law_audio_places(ts: Seq<Track>, n: nat)
    requires
        n <= ts.len(),
    ensures
        forall|i: int|
            #![trigger audio_places(ts, n)[i]]
            0 <= i < audio_places(ts, n).len() ==> 0 <= audio_places(ts, n)[i] < n
                && ts[audio_places(ts, n)[i]].is_audio,
        forall|i: int, j: int|
            0 <= i < j < audio_places(ts, n).len() ==> audio_places(ts, n)[i] < audio_places(
                ts,
                n,
            )[j],
        forall|k: int|
            #![trigger ts[k]]
            0 <= k < n && ts[k].is_audio ==> audio_places(ts, n).contains(k),
    decreases n,
{
    if n > 0 {
        let before = audio_places(ts, (n - 1) as nat);
        law_audio_places(ts, (n - 1) as nat);
        let now = audio_places(ts, n);
        assert forall|k: int|
            #![trigger ts[k]]
            0 <= k < n && ts[k].is_audio implies now.contains(k) by {
            if k == n - 1 {
                assert(now[before.len() as int] == k);
            } else {
                assert(before.contains(k));
                let i = choose|i: int| 0 <= i < before.len() && before[i] == k;
                assert(now[i] == k);
            }
        }
    }
}

} // verus!
