//! Numerals in messages.

use vstd::prelude::*;

verus! {

/// The character of a digit below 16.
pub open spec fn digit_char(d: nat) -> char {
    if d == 0 {
        '0'
    } else if d == 1 {
        '1'
    } else if d == 2 {
        '2'
    } else if d == 3 {
        '3'
    } else if d == 4 {
        '4'
    } else if d == 5 {
        '5'
    } else if d == 6 {
        '6'
    } else if d == 7 {
        '7'
    } else if d == 8 {
        '8'
    } else if d == 9 {
        '9'
    } else if d == 10 {
        'a'
    } else if d == 11 {
        'b'
    } else if d == 12 {
        'c'
    } else if d == 13 {
        'd'
    } else if d == 14 {
        'e'
    } else {
        'f'
    }
}

/// The numeral of `n` to the given base, highest digit first.
pub open spec fn numeral(n: nat, base: nat) -> Seq<char>
    decreases n,
{
    if n < base || base < 2 {
        seq![digit_char(n)]
    } else {
        proof {
            assert(n / base < n) by (nonlinear_arith)
                requires
                    base >= 2,
                    n >= base,
            ;
        }
        numeral(n / base, base).push(digit_char(n % base))
    }
}

/// The decimal numeral of an integer.
pub open spec fn decimal(n: int) -> Seq<char> {
    if n < 0 {
        seq!['-'] + numeral((-n) as nat, 10)
    } else {
        numeral(n as nat, 10)
    }
}

/// The hexadecimal numeral with its `0x` prefix.
pub open spec fn hexadecimal(n: nat) -> Seq<char> {
    "0x"@ + numeral(n, 16)
}

/// A numeral with zeros in front, up to `digits` digits.
pub open spec fn padded(s: Seq<char>, digits: nat) -> Seq<char>
    decreases digits - s.len(),
{
    if s.len() >= digits {
        s
    } else {
        padded(seq!['0'] + s, digits)
    }
}

/// The hexadecimal numeral with its `0x` prefix and at least so many digits.
pub open spec fn hexadecimal_padded(n: nat, digits: nat) -> Seq<char> {
    "0x"@ + padded(numeral(n, 16), digits)
}

/// The value of a digit: those below ten by their place behind `0`, the others by their
/// place behind `a`.
pub open spec fn digit_value(c: char) -> int {
    if c <= '9' {
        c as int - '0' as int
    } else {
        c as int - 'a' as int + 10
    }
}

/// The value of a row of digits, the highest first.
pub open spec fn value_to(s: Seq<char>, base: nat) -> int
    decreases s.len(),
{
    if s.len() == 0 {
        0
    } else {
        value_to(s.drop_last(), base) * base + digit_value(s.last())
    }
}

/// A numeral has the value of its number, and no zero in front but for zero itself.
pub proof fn law_numeral_value(n: nat, base: nat)
    requires
        2 <= base <= 16,
    ensures
        value_to(numeral(n, base), base) == n,
        numeral(n, base).len() > 0,
        n > 0 ==> numeral(n, base)[0] != '0',
        n == 0 ==> numeral(n, base).len() == 1,
    decreases n,
{
    reveal_with_fuel(value_to, 2);
    if n < base {
        let s = numeral(n, base);
        assert(s.drop_last() =~= Seq::empty());
        assert(0 * base == 0) by (nonlinear_arith);
    } else {
        assert(0 < n / base < n && n / base * base + n % base == n && n % base < base)
            by (nonlinear_arith)
            requires
                base >= 2,
                n >= base,
        ;
        law_numeral_value(n / base, base);
        let front = numeral(n / base, base);
        let s = numeral(n, base);
        assert(s.drop_last() =~= front);
        assert(s[0] == front[0]);
    }
}

/// Zeros in front of a numeral leave its value as it is, and make it as long as is asked.
pub proof fn law_padded_value(s: Seq<char>, digits: nat, base: nat)
    ensures
        value_to(padded(s, digits), base) == value_to(s, base),
        padded(s, digits).len() == if s.len() < digits {
            digits
        } else {
            s.len()
        },
    decreases digits - s.len(),
{
    if s.len() < digits {
        lemma_zero_in_front(s, base);
        law_padded_value(seq!['0'] + s, digits, base);
    }
}

proof fn lemma_zero_in_front(s: Seq<char>, base: nat)
    ensures
        value_to(seq!['0'] + s, base) == value_to(s, base),
    decreases s.len(),
{
    let t = seq!['0'] + s;
    if s.len() == 0 {
        reveal_with_fuel(value_to, 2);
        assert(t.drop_last() =~= Seq::empty());
        assert(0 * base == 0) by (nonlinear_arith);
    } else {
        lemma_zero_in_front(s.drop_last(), base);
        assert(t.drop_last() =~= seq!['0'] + s.drop_last());
        assert(t.last() == s.last());
    }
}

/// The text of a digit below 16.
fn digit_text(d: u64) -> (s: &'static str)
    requires
        d < 16,
    ensures
        s@ == seq![digit_char(d as nat)],
{
    proof {
        reveal_strlit("0");
        reveal_strlit("1");
        reveal_strlit("2");
        reveal_strlit("3");
        reveal_strlit("4");
        reveal_strlit("5");
        reveal_strlit("6");
        reveal_strlit("7");
        reveal_strlit("8");
        reveal_strlit("9");
        reveal_strlit("a");
        reveal_strlit("b");
        reveal_strlit("c");
        reveal_strlit("d");
        reveal_strlit("e");
        reveal_strlit("f");
    }
    match d {
        0 => "0",
        1 => "1",
        2 => "2",
        3 => "3",
        4 => "4",
        5 => "5",
        6 => "6",
        7 => "7",
        8 => "8",
        9 => "9",
        10 => "a",
        11 => "b",
        12 => "c",
        13 => "d",
        14 => "e",
        _ => "f",
    }
}

/// Writes the numeral of `n` to the given base.
fn numeral_text(n: u64, base: u64) -> (s: String)
    requires
        2 <= base <= 16,
    ensures
        s@ == numeral(n as nat, base as nat),
    decreases n,
{
    if n < base {
        digit_text(n).to_owned()
    } else {
        assert(n / base < n) by (nonlinear_arith)
            requires
                base >= 2,
                n >= base,
        ;
        let mut s: String = numeral_text(n / base, base);
        let ghost head = s@;
        s.append(digit_text(n % base));
        assert(s@ =~= head.push(digit_char((n % base) as nat)));
        s
    }
}

/// Writes a decimal numeral of a number that is not negative.
pub fn natural_text(n: u64) -> (s: String)
    ensures
        s@ == decimal(n as int),
{
    numeral_text(n, 10)
}

/// Writes a decimal numeral.
pub fn decimal_text(n: i64) -> (s: String)
    ensures
        s@ == decimal(n as int),
{
    if n < 0 {
        proof {
            reveal_strlit("-");
        }
        let mut s: String = "-".to_owned();
        assert(s@ =~= seq!['-']);
        let m: u64 = (-(n + 1)) as u64 + 1;
        s.append(numeral_text(m, 10).as_str());
        s
    } else {
        numeral_text(n as u64, 10)
    }
}

/// Writes a hexadecimal numeral with its `0x` prefix.
pub fn hexadecimal_text(n: u64) -> (s: String)
    ensures
        s@ == hexadecimal(n as nat),
{
    let mut s: String = "0x".to_owned();
    s.append(numeral_text(n, 16).as_str());
    s
}

/// Writes a hexadecimal numeral with its `0x` prefix and at least so many
/// digits.
pub fn hexadecimal_padded_text(n: u64, digits: usize) -> (s: String)
    ensures
        s@ == hexadecimal_padded(n as nat, digits as nat),
{
    let mut t: String = numeral_text(n, 16);
    let mut len: usize = t.as_str().unicode_len();
    while len < digits
        invariant
            len == t@.len(),
            padded(numeral(n as nat, 16), digits as nat) == padded(t@, digits as nat),
        decreases digits - len,
    {
        proof {
            reveal_strlit("0");
        }
        let mut longer: String = "0".to_owned();
        longer.append(t.as_str());
        assert(longer@ =~= seq!['0'] + t@);
        t = longer;
        len = len + 1;
    }
    let mut s: String = "0x".to_owned();
    s.append(t.as_str());
    s
}

/// Joins three texts.
pub fn join3(a: &str, b: &str, c: &str) -> (s: String)
    ensures
        s@ == a@ + b@ + c@,
{
    let mut s: String = a.to_owned();
    s.append(b);
    s.append(c);
    s
}

} // verus!
