//! Residuals as an encoder writes them: runs of digits for each, and how the intervals
//! that they are coded in move. Reading gives the residuals back.

use super::bitstream::{bit, bit_length, Cursor};
use vstd::arithmetic::power2::{lemma2_to64, lemma_pow2_unfold, pow2};
use vstd::prelude::*;

verus! {

/// A digit as a number.
pub open spec fn digit(d: bool) -> nat {
    if d {
        1
    } else {
        0
    }
}

/// Whether digits come next.
pub open spec fn lies(c: Cursor, row: Seq<bool>) -> bool {
    &&& c.pos + row.len() <= 8 * c.buf.len()
    &&& forall|j: int|
        0 <= j < row.len() ==> bit(c.buf, c.pos + j) == digit(#[trigger] row[j])
}

/// The place behind `n` digits.
pub open spec fn behind(c: Cursor, n: nat) -> Cursor {
    if n == 0 {
        c
    } else {
        c.advance(n)
    }
}

pub proof fn lemma_behind(c: Cursor, a: nat, b: nat)
    ensures
        behind(behind(c, a), b) == behind(c, a + b),
        behind(c, a).buf == c.buf,
        behind(c, a).pos == c.pos + a,
{
}

pub proof fn lemma_lies(c: Cursor, a: Seq<bool>, b: Seq<bool>)
    requires
        lies(c, a + b),
    ensures
        lies(c, a),
        lies(behind(c, a.len()), b),
{
    let all = a + b;
    assert forall|j: int| 0 <= j < a.len() implies bit(c.buf, c.pos + j) == digit(
        #[trigger] a[j],
    ) by {
        assert(all[j] == a[j]);
    }
    let d = behind(c, a.len());
    assert forall|j: int| 0 <= j < b.len() implies bit(d.buf, d.pos + j) == digit(
        #[trigger] b[j],
    ) by {
        assert(all[a.len() + j] == b[j]);
        assert(d.pos + j == c.pos + (a.len() + j));
    }
}

/// A number in `n` digits, the lowest first.
pub open spec fn low_digits(v: nat, n: nat) -> Seq<bool>
    decreases n,
{
    if n == 0 {
        Seq::empty()
    } else {
        seq![v % 2 == 1] + low_digits(v / 2, (n - 1) as nat)
    }
}

/// Ones, and a zero behind them.
pub open spec fn ones_row(n: nat) -> Seq<bool> {
    Seq::new(n, |i: int| true).push(false)
}

/// How many digits a number has.
pub open spec fn digits_of(v: nat) -> nat
    decreases v,
{
    if v == 0 {
        0
    } else {
        1 + digits_of(v / 2)
    }
}

/// A count: as many ones as it has digits, and then its digits without the highest.
pub open spec fn count_row(v: nat) -> Seq<bool> {
    let k = digits_of(v);
    if k == 0 {
        ones_row(0)
    } else {
        ones_row(k) + low_digits((v - pow2((k - 1) as nat)) as nat, (k - 1) as nat)
    }
}

/// The count in front of a residual; a large one goes on as a count behind sixteen ones.
pub open spec fn prefix_row(v: nat) -> Seq<bool> {
    if v < 16 {
        ones_row(v)
    } else {
        ones_row(16) + count_row((v - 16) as nat)
    }
}

/// One of `span` numbers, in as many digits as they need or one less: the lowest of them
/// are the short ones.
pub open spec fn choice_row(span: nat, v: nat) -> Seq<bool> {
    let n = digits_of((span - 1) as nat);
    let short = pow2(n) - span;
    if n == 0 {
        Seq::empty()
    } else if v < short {
        low_digits(v, (n - 1) as nat)
    } else {
        low_digits(((v + short) / 2) as nat, (n - 1) as nat).push((v + short) % 2 == 1)
    }
}

pub proof fn lemma_digits(v: nat)
    ensures
        bit_length(v) == digits_of(v),
        v < pow2(digits_of(v)),
        v > 0 ==> digits_of(v) > 0 && pow2((digits_of(v) - 1) as nat) <= v,
    decreases v,
{
    if v == 0 {
        lemma2_to64();
    } else {
        lemma_digits(v / 2);
        lemma_pow2_unfold(digits_of(v));
        if v == 1 {
            assert(digits_of(0) == 0);
            lemma2_to64();
        } else {
            lemma_pow2_unfold(digits_of(v / 2));
        }
    }
}

proof fn lemma_digits_bound(v: nat, n: nat)
    requires
        v < pow2(n),
    ensures
        digits_of(v) <= n,
    decreases v,
{
    if v > 0 {
        if n == 0 {
            lemma2_to64();
        } else {
            lemma_pow2_unfold(n);
            lemma_digits_bound(v / 2, (n - 1) as nat);
        }
    }
}

pub proof fn lemma_low_len(v: nat, n: nat)
    ensures
        low_digits(v, n).len() == n,
    decreases n,
{
    if n > 0 {
        lemma_low_len(v / 2, (n - 1) as nat);
    }
}

/// Digits that are written lowest first are read as their number.
pub proof fn law_low_digits(c: Cursor, v: nat, n: nat)
    requires
        lies(c, low_digits(v, n)),
        v < pow2(n),
    ensures
        c.value(n) == v,
    decreases n,
{
    lemma_low_len(v, n);
    if n == 0 {
        lemma2_to64();
    } else {
        let first = seq![v % 2 == 1];
        let rest = low_digits(v / 2, (n - 1) as nat);
        lemma_lies(c, first, rest);
        lemma_pow2_unfold(n);
        let d = behind(c, 1);
        law_low_digits(d, v / 2, (n - 1) as nat);
        assert(bit(c.buf, c.pos + 0int) == digit(first[0]));
    }
}

proof fn lemma_ones(c: Cursor, n: nat, max: nat)
    requires
        lies(c, ones_row(n)),
        n < max,
    ensures
        c.ones(max) == (n, behind(c, n + 1)),
    decreases n,
{
    let row = ones_row(n);
    assert(bit(c.buf, c.pos + 0int) == digit(row[0]));
    if n > 0 {
        let d = behind(c, 1);
        let rest = ones_row((n - 1) as nat);
        assert(row =~= seq![true] + rest);
        lemma_lies(c, seq![true], rest);
        lemma_ones(d, (n - 1) as nat, (max - 1) as nat);
        lemma_behind(c, 1, n);
    }
}

/// A count that is written is read.
pub proof fn law_count_read(c: Cursor, v: nat)
    requires
        lies(c, count_row(v)),
        v < 0x1_0000_0000,
    ensures
        c.gamma() == (Some(v), behind(c, count_row(v).len())),
{
    let k = digits_of(v);
    lemma_digits(v);
    lemma2_to64();
    lemma_digits_bound(v, 32);
    if k == 0 {
        lemma_ones(c, 0, 33);
    } else {
        let low = (v - pow2((k - 1) as nat)) as nat;
        let rest = low_digits(low, (k - 1) as nat);
        lemma_low_len(low, (k - 1) as nat);
        lemma_lies(c, ones_row(k), rest);
        lemma_ones(c, k, 33);
        lemma_pow2_unfold(k);
        let d = behind(c, k + 1);
        law_low_digits(d, low, (k - 1) as nat);
        lemma_behind(c, k + 1, (k - 1) as nat);
        if k == 1 {
            assert(pow2(0) == 1);
            assert(v == 1);
        }
    }
}

/// The count in front of a residual is read.
pub proof fn law_prefix_read(c: Cursor, v: nat)
    requires
        lies(c, prefix_row(v)),
        v < 0x8000_0000,
    ensures
        c.ones_count(16) == (Some(v as u32), behind(c, prefix_row(v).len())),
{
    if v < 16 {
        lemma_ones(c, v, 17);
    } else {
        let rest = count_row((v - 16) as nat);
        lemma_lies(c, ones_row(16), rest);
        lemma_ones(c, 16, 17);
        law_count_read(behind(c, 17), (v - 16) as nat);
        lemma_behind(c, 17, rest.len());
    }
}

/// One of `span` numbers is read, and the sign behind it.
pub proof fn law_choice_read(c: Cursor, span: nat, v: nat, negative: bool)
    requires
        v < span,
        lies(c, choice_row(span, v).push(negative)),
    ensures
        ({
            let (code, d) = c.code((span - 1) as nat);
            &&& code == v
            &&& d.head() == digit(negative)
            &&& d.advance(1) == behind(c, choice_row(span, v).len() + 1)
        }),
{
    let most = (span - 1) as nat;
    let n = digits_of(most);
    lemma_digits(most);
    let row = choice_row(span, v);
    let all = row.push(negative);
    assert(all =~= row + seq![negative]);
    lemma_lies(c, row, seq![negative]);
    let last = seq![negative];
    let e = behind(c, row.len());
    assert(bit(e.buf, e.pos + 0int) == digit(last[0]));
    lemma2_to64();
    if most == 0 {
        assert(n == 0);
    } else {
        let k = (n - 1) as nat;
        let short = pow2(n) - span;
        lemma_pow2_unfold(n);
        if v < short {
            lemma_low_len(v, k);
            if most == 1 {
                assert(digits_of(1) == 1) by {
                    reveal_with_fuel(digits_of, 2);
                }
                assert(pow2(1) == 2);
            } else {
                law_low_digits(c, v, k);
                lemma_behind(c, k, 1);
            }
        } else {
            let t = (v + short) as nat;
            let front = low_digits(t / 2, k);
            let low = seq![t % 2 == 1];
            lemma_low_len(t / 2, k);
            assert(row =~= front + low);
            lemma_lies(c, front, low);
            let d = behind(c, k);
            assert(bit(d.buf, d.pos + 0int) == digit(low[0]));
            assert(t < pow2(n));
            law_low_digits(c, t / 2, k);
            lemma_behind(c, n, 1);
            if most == 1 {
                assert(digits_of(1) == 1) by {
                    reveal_with_fuel(digits_of, 2);
                }
                assert(pow2(1) == 2);
            } else {
                assert(bit(c.buf, c.pos + n - 1) == digit(low[0]));
            }
        }
    }
}

} // verus!
