//! Text taken apart: white space, words and numerals.

use vstd::prelude::*;

verus! {

/// White space, as Unicode defines it.
pub open spec fn is_white(c: char) -> bool {
    ||| '\u{9}' <= c <= '\u{d}'
    ||| c == ' '
    ||| c == '\u{85}'
    ||| c == '\u{a0}'
    ||| c == '\u{1680}'
    ||| '\u{2000}' <= c <= '\u{200a}'
    ||| c == '\u{2028}'
    ||| c == '\u{2029}'
    ||| c == '\u{202f}'
    ||| c == '\u{205f}'
    ||| c == '\u{3000}'
}

/// Without white space in front.
pub open spec fn trim_start(s: Seq<char>) -> Seq<char>
    decreases s.len(),
{
    if s.len() > 0 && is_white(s[0]) {
        trim_start(s.drop_first())
    } else {
        s
    }
}

/// Without white space behind.
pub open spec fn trim_end(s: Seq<char>) -> Seq<char>
    decreases s.len(),
{
    if s.len() > 0 && is_white(s.last()) {
        trim_end(s.drop_last())
    } else {
        s
    }
}

/// Without white space in front and behind.
pub open spec fn trimmed(s: Seq<char>) -> Seq<char> {
    trim_end(trim_start(s))
}

/// The number of characters before the first white space.
pub open spec fn word_len(s: Seq<char>) -> nat
    decreases s.len(),
{
    if s.len() == 0 || is_white(s[0]) {
        0
    } else {
        1 + word_len(s.drop_first())
    }
}

/// Word number `k` of a text, words being separated by white space.
pub open spec fn word(s: Seq<char>, k: nat) -> Option<Seq<char>>
    decreases k,
{
    let t = trim_start(s);
    if t.len() == 0 {
        None
    } else if k == 0 {
        Some(t.take(word_len(t) as int))
    } else {
        word(t.skip(word_len(t) as int), (k - 1) as nat)
    }
}

/// The number of characters before the first `c`.
pub open spec fn until(s: Seq<char>, c: char) -> nat
    decreases s.len(),
{
    if s.len() == 0 || s[0] == c {
        0
    } else {
        1 + until(s.drop_first(), c)
    }
}

/// The value of a decimal digit.
pub open spec fn digit_value(c: char) -> Option<nat> {
    if '0' <= c <= '9' {
        Some((c as nat - '0' as nat) as nat)
    } else {
        None
    }
}

/// The number that a row of decimal digits stands for; none where another
/// character stands among them.
pub open spec fn digits_value(s: Seq<char>) -> Option<nat>
    decreases s.len(),
{
    if s.len() == 0 {
        Some(0)
    } else {
        match (digits_value(s.drop_last()), digit_value(s.last())) {
            (Some(n), Some(d)) => Some(10 * n + d),
            _ => None,
        }
    }
}

/// A decimal numeral of 32 bits, which may have a plus sign.
pub open spec fn u32_of(s: Seq<char>) -> Option<u32> {
    let digits = if s.len() > 0 && s[0] == '+' {
        s.drop_first()
    } else {
        s
    };
    match digits_value(digits) {
        Some(n) => if digits.len() > 0 && n <= u32::MAX {
            Some(n as u32)
        } else {
            None
        },
        None => None,
    }
}

/// Whether a text begins with `p`.
pub open spec fn begins(s: Seq<char>, p: Seq<char>) -> bool {
    p.len() <= s.len() && s.take(p.len() as int) == p
}

/// Whether `p` occurs in a text.
pub open spec fn mentions(s: Seq<char>, p: Seq<char>) -> bool {
    exists|i: int| 0 <= i <= s.len() && #[trigger] begins(s.skip(i), p)
}

/// The code of a character, with the capital letters of ASCII as small ones.
pub open spec fn fold_code(c: char) -> u32 {
    if 'A' <= c <= 'Z' {
        (c as u32 + 32) as u32
    } else {
        c as u32
    }
}

/// A text without its case, as far as ASCII goes.
pub open spec fn caseless(s: Seq<char>) -> Seq<u32> {
    Seq::new(s.len(), |i: int| fold_code(s[i]))
}

/// The characters of a text.
pub fn chars_of(s: &str) -> (v: Vec<char>)
    ensures
        v@ == s@,
{
    let mut v: Vec<char> = Vec::new();
    for c in it: s.chars()
        invariant
            it.seq() == s@,
            v@ == s@.take(it.index()),
    {
        v.push(c);
        assert(s@.take(it.index() + 1) =~= s@.take(it.index()).push(c));
    }
    assert(s@.take(s@.len() as int) =~= s@);
    v
}

/// Tests for white space.
pub fn is_white_char(c: char) -> (r: bool)
    ensures
        r == is_white(c),
{
    ('\u{9}' <= c && c <= '\u{d}') || c == ' ' || c == '\u{85}' || c == '\u{a0}' || c == '\u{1680}'
        || ('\u{2000}' <= c && c <= '\u{200a}') || c == '\u{2028}' || c == '\u{2029}' || c
        == '\u{202f}' || c == '\u{205f}' || c == '\u{3000}'
}

/// `String::push` of the standard library puts one character behind a text.
pub assume_specification[ String::push ](s: &mut String, ch: char)
    ensures
        final(s)@ == old(s)@.push(ch),
;

/// Makes a text of characters.
pub fn string_of(cs: &[char]) -> (s: String)
    ensures
        s@ == cs@,
{
    let mut s: String = String::new();
    let mut i: usize = 0;
    while i < cs.len()
        invariant
            i <= cs.len(),
            s@ == cs@.take(i as int),
        decreases cs.len() - i,
    {
        s.push(cs[i]);
        i = i + 1;
        assert(cs@.take(i as int) =~= cs@.take(i - 1).push(cs@[i - 1]));
    }
    assert(cs@.take(i as int) =~= cs@);
    s
}

/// Cuts white space off the front.
pub fn trim_front<'a>(cs: &'a [char]) -> (r: &'a [char])
    ensures
        r@ == trim_start(cs@),
        r@.len() <= cs@.len(),
{
    let mut i: usize = 0;
    assert(cs@.skip(0) =~= cs@);
    while i < cs.len() && is_white_char(cs[i])
        invariant
            i <= cs.len(),
            trim_start(cs@) == trim_start(cs@.skip(i as int)),
        decreases cs.len() - i,
    {
        assert(cs@.skip(i as int).drop_first() =~= cs@.skip(i + 1));
        i = i + 1;
    }
    let r = &cs[i..cs.len()];
    assert(r@ =~= cs@.skip(i as int));
    r
}

/// Cuts white space off the end.
pub fn trim_back<'a>(cs: &'a [char]) -> (r: &'a [char])
    ensures
        r@ == trim_end(cs@),
        r@.len() <= cs@.len(),
{
    let mut n: usize = cs.len();
    assert(cs@.take(n as int) =~= cs@);
    while n > 0 && is_white_char(cs[n - 1])
        invariant
            n <= cs.len(),
            trim_end(cs@) == trim_end(cs@.take(n as int)),
        decreases n,
    {
        assert(cs@.take(n as int).drop_last() =~= cs@.take(n - 1));
        n = n - 1;
    }
    let r = &cs[0..n];
    assert(r@ =~= cs@.take(n as int));
    r
}

/// Cuts white space off both ends.
pub fn trim<'a>(cs: &'a [char]) -> (r: &'a [char])
    ensures
        r@ == trimmed(cs@),
        r@.len() <= cs@.len(),
{
    trim_back(trim_front(cs))
}

/// Counts the characters before the first white space.
fn word_length(cs: &[char]) -> (n: usize)
    ensures
        n == word_len(cs@),
        n <= cs@.len(),
{
    let mut i: usize = 0;
    assert(cs@.skip(0) =~= cs@);
    while i < cs.len() && !is_white_char(cs[i])
        invariant
            i <= cs.len(),
            word_len(cs@) == i + word_len(cs@.skip(i as int)),
        decreases cs.len() - i,
    {
        assert(cs@.skip(i as int).drop_first() =~= cs@.skip(i + 1));
        i = i + 1;
    }
    i
}

/// Finds word number `k`.
pub fn word_at<'a>(cs: &'a [char], k: usize) -> (r: Option<&'a [char]>)
    ensures
        match word(cs@, k as nat) {
            Some(w) => r matches Some(b) && b@ == w,
            None => r is None,
        },
{
    let mut rest: &'a [char] = cs;
    let mut left: usize = k;
    loop
        invariant
            word(cs@, k as nat) == word(rest@, left as nat),
        decreases left,
    {
        let t: &'a [char] = trim_front(rest);
        if t.len() == 0 {
            return None;
        }
        let n: usize = word_length(t);
        if left == 0 {
            let w = &t[0..n];
            assert(w@ =~= t@.take(n as int));
            return Some(w);
        }
        rest = &t[n..t.len()];
        assert(rest@ =~= t@.skip(n as int));
        left = left - 1;
    }
}

/// Counts the characters before the first `c`.
pub fn find(cs: &[char], c: char) -> (n: usize)
    ensures
        n == until(cs@, c),
        n <= cs@.len(),
{
    let mut i: usize = 0;
    assert(cs@.skip(0) =~= cs@);
    while i < cs.len() && cs[i] != c
        invariant
            i <= cs.len(),
            until(cs@, c) == i + until(cs@.skip(i as int), c),
        decreases cs.len() - i,
    {
        assert(cs@.skip(i as int).drop_first() =~= cs@.skip(i + 1));
        i = i + 1;
    }
    i
}

/// A prefix that is no number stays none with more digits.
proof fn lemma_digits_prefix(s: Seq<char>, n: int)
    requires
        0 <= n <= s.len(),
    ensures
        digits_value(s.take(n)) is None ==> digits_value(s) is None,
        digits_value(s) is Some ==> digits_value(s.take(n)) is Some && digits_value(
            s.take(n),
        )->Some_0 <= digits_value(s)->Some_0,
    decreases s.len() - n,
{
    if n == s.len() {
        assert(s.take(n) =~= s);
    } else {
        lemma_digits_prefix(s, n + 1);
        assert(s.take(n + 1).drop_last() =~= s.take(n));
    }
}

/// Reads a decimal numeral of 32 bits.
pub fn parse_u32(cs: &[char]) -> (r: Option<u32>)
    ensures
        r == u32_of(cs@),
{
    let start: usize = if cs.len() > 0 && cs[0] == '+' {
        1
    } else {
        0
    };
    let digits = &cs[start..cs.len()];
    assert(digits@ =~= (if cs@.len() > 0 && cs@[0] == '+' {
        cs@.drop_first()
    } else {
        cs@
    }));
    if digits.len() == 0 {
        return None;
    }
    let mut value: u64 = 0;
    let mut i: usize = 0;
    assert(digits@.take(0) =~= Seq::empty());
    while i < digits.len()
        invariant
            i <= digits.len(),
            value <= u32::MAX,
            digits@ == (if cs@.len() > 0 && cs@[0] == '+' {
                cs@.drop_first()
            } else {
                cs@
            }),
            digits_value(digits@.take(i as int)) == Some(value as nat),
        decreases digits.len() - i,
    {
        let c: char = digits[i];
        assert(digits@.take(i + 1).drop_last() =~= digits@.take(i as int));
        proof {
            lemma_digits_prefix(digits@, i + 1);
        }
        if !('0' <= c && c <= '9') {
            return None;
        }
        value = 10 * value + (c as u32 as u64 - '0' as u32 as u64);
        if value > u32::MAX as u64 {
            return None;
        }
        i = i + 1;
    }
    assert(digits@.take(i as int) =~= digits@);
    Some(value as u32)
}

/// Tests how a text begins.
pub fn starts(cs: &[char], p: &str) -> (r: bool)
    ensures
        r == begins(cs@, p@),
{
    let pat: Vec<char> = chars_of(p);
    if pat.len() > cs.len() {
        return false;
    }
    let mut i: usize = 0;
    while i < pat.len()
        invariant
            i <= pat@.len() <= cs@.len(),
            pat@ == p@,
            forall|j: int| 0 <= j < i ==> cs@[j] == p@[j],
        decreases pat@.len() - i,
    {
        if cs[i] != pat[i] {
            assert(cs@.take(p@.len() as int)[i as int] != p@[i as int]);
            return false;
        }
        i = i + 1;
    }
    assert(cs@.take(p@.len() as int) =~= p@);
    true
}

/// Tests whether one text occurs in another.
pub fn contains(text: &str, p: &str) -> (r: bool)
    ensures
        r == mentions(text@, p@),
{
    let cs: Vec<char> = chars_of(text);
    let mut i: usize = 0;
    while i < cs.len()
        invariant
            i <= cs.len(),
            cs@ == text@,
            forall|j: int| 0 <= j < i ==> !#[trigger] begins(text@.skip(j), p@),
        decreases cs.len() - i,
    {
        let rest: &[char] = &cs.as_slice()[i..cs.len()];
        assert(rest@ =~= text@.skip(i as int));
        if starts(rest, p) {
            return true;
        }
        i = i + 1;
    }
    let none: Vec<char> = Vec::new();
    assert(none@ =~= text@.skip(i as int));
    starts(none.as_slice(), p)
}

/// Compares characters with a text.
pub fn same(cs: &[char], p: &str) -> (r: bool)
    ensures
        r == (cs@ == p@),
{
    let n: usize = p.unicode_len();
    if cs.len() != n {
        return false;
    }
    assert(cs@.take(p@.len() as int) =~= cs@);
    starts(cs, p)
}

fn fold(c: char) -> (code: u32)
    ensures
        code == fold_code(c),
{
    if 'A' <= c && c <= 'Z' {
        c as u32 + 32
    } else {
        c as u32
    }
}

/// Compares characters with a text, without regard to the case of ASCII
/// letters.
pub fn same_caseless(cs: &[char], p: &str) -> (r: bool)
    ensures
        r == (caseless(cs@) == caseless(p@)),
{
    let pat: Vec<char> = chars_of(p);
    if pat.len() != cs.len() {
        assert(caseless(cs@).len() != caseless(p@).len());
        return false;
    }
    let mut i: usize = 0;
    while i < pat.len()
        invariant
            i <= pat@.len() == cs@.len(),
            pat@ == p@,
            forall|j: int| 0 <= j < i ==> caseless(cs@)[j] == #[trigger] caseless(p@)[j],
        decreases pat@.len() - i,
    {
        if fold(cs[i]) != fold(pat[i]) {
            assert(caseless(cs@)[i as int] != caseless(p@)[i as int]);
            return false;
        }
        i = i + 1;
    }
    assert(caseless(cs@) =~= caseless(p@));
    true
}

} // verus!
