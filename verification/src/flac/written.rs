//! How an encoder writes what is decoded here: as a row of bits, from numbers and
//! samples. What it writes is read back.

use super::bits::{bit, bits_value, lemma_byte_middle, Bits, MAX_UNARY};
use super::subframe::{partition, partitions_from, residual, rice, rice_run, signed_run, unfolded};
use crate::error::Fault;
use vstd::arithmetic::div_mod::lemma_fundamental_div_mod;
use vstd::arithmetic::power2::{lemma2_to64, lemma_pow2_pos, lemma_pow2_unfold, pow2};
use vstd::prelude::*;

verus! {

/// Binary digit `i` of data, each byte from its highest digit down.
pub open spec fn digit(data: Seq<u8>, i: int) -> bool {
    (data[i / 8] as int / pow2((7 - i % 8) as nat) as int) % 2 == 1
}

/// Whether a row of digits stands at a place in data.
pub open spec fn stands_at(b: Bits, row: Seq<bool>) -> bool {
    &&& b.pos + row.len() <= 8 * b.data.len()
    &&& forall|i: int| 0 <= i < row.len() ==> digit(b.data, b.pos + i) == #[trigger] row[i]
}

/// The place so many digits on.
pub open spec fn on(b: Bits, n: nat) -> Bits {
    Bits { data: b.data, pos: b.pos + n }
}

/// The `n` lowest binary digits of a number, highest first.
pub open spec fn binary(v: nat, n: nat) -> Seq<bool>
    decreases n,
{
    if n == 0 {
        Seq::empty()
    } else {
        binary(v / 2, (n - 1) as nat).push(v % 2 == 1)
    }
}

/// A number as it is written in `n` digits, in two's complement.
pub open spec fn twos(v: int, n: nat) -> nat {
    (if v < 0 {
        v + pow2(n)
    } else {
        v
    }) as nat
}

/// Whether a number can be written in `n` digits, in two's complement.
pub open spec fn in_digits(v: int, n: nat) -> bool {
    &&& 1 <= n <= 63
    &&& -pow2((n - 1) as nat) <= v < pow2((n - 1) as nat)
}

/// So many zeros and a one.
pub open spec fn unary(q: nat) -> Seq<bool> {
    Seq::new(q, |i: int| false).push(true)
}

/// A number without its sign: twice a number from zero up, and one less than twice
/// the size of one below.
pub open spec fn without_sign(v: int) -> nat {
    (if v >= 0 {
        2 * v
    } else {
        -2 * v - 1
    }) as nat
}

/// A number in Rice code.
pub open spec fn rice_code(v: int, param: nat) -> Seq<bool> {
    unary((without_sign(v) / pow2(param)) as nat) + binary(without_sign(v) % pow2(param), param)
}

/// What stands in a row stands in its parts.
pub proof fn lemma_parts(b: Bits, x: Seq<bool>, y: Seq<bool>)
    requires
        stands_at(b, x + y),
    ensures
        stands_at(b, x),
        stands_at(on(b, x.len()), y),
{
    let all = x + y;
    assert forall|i: int| 0 <= i < x.len() implies digit(b.data, b.pos + i) == #[trigger] x[i] by {
        assert(all[i] == x[i]);
    }
    assert forall|i: int| 0 <= i < y.len() implies digit(b.data, b.pos + x.len() + i)
        == #[trigger] y[i] by {
        assert(all[x.len() + i] == y[i]);
    }
}

proof fn lemma_digit(data: Seq<u8>, i: int)
    requires
        0 <= i < 8 * data.len(),
    ensures
        bit(data, i) == if digit(data, i) {
            1nat
        } else {
            0nat
        },
{
    lemma_byte_middle(data, i / 8, (i % 8) as nat, 1);
    lemma2_to64();
    assert(8 * (i / 8) + (i % 8) as nat == i);
    reveal_with_fuel(bits_value, 2);
    assert(bits_value(data, i, 1) == bit(data, i));
}

proof fn lemma_binary_len(v: nat, n: nat)
    ensures
        binary(v, n).len() == n,
    decreases n,
{
    if n > 0 {
        lemma_binary_len(v / 2, (n - 1) as nat);
    }
}

proof fn lemma_value(data: Seq<u8>, pos: nat, v: nat, n: nat)
    requires
        v < pow2(n),
        stands_at(Bits { data, pos }, binary(v, n)),
    ensures
        bits_value(data, pos as int, n) == v,
    decreases n,
{
    if n == 0 {
        lemma2_to64();
    } else {
        let m = (n - 1) as nat;
        let row = binary(v, n);
        let front = binary(v / 2, m);
        lemma_binary_len(v, n);
        lemma_binary_len(v / 2, m);
        lemma_pow2_unfold(n);
        assert forall|i: int| 0 <= i < front.len() implies digit(data, pos + i)
            == #[trigger] front[i] by {
            assert(row[i] == front[i]);
        }
        lemma_value(data, pos, v / 2, m);
        assert(row[m as int] == (v % 2 == 1));
        lemma_digit(data, (pos + m) as int);
    }
}

/// A number that is written in binary digits is read.
pub proof fn law_number_read(b: Bits, v: nat, n: nat)
    requires
        v < pow2(n),
        stands_at(b, binary(v, n)),
    ensures
        b.read(n) == (Ok::<nat, Fault>(v), on(b, n)),
        binary(v, n).len() == n,
{
    lemma_binary_len(v, n);
    lemma_value(b.data, b.pos, v, n);
}

/// A number that is written in two's complement is read.
pub proof fn law_signed_read(b: Bits, v: int, n: nat)
    requires
        in_digits(v, n),
        stands_at(b, binary(twos(v, n), n)),
    ensures
        b.read_signed(n) == (Ok::<int, Fault>(v), on(b, n)),
        binary(twos(v, n), n).len() == n,
{
    lemma_pow2_unfold(n);
    law_number_read(b, twos(v, n), n);
}

proof fn lemma_unary(b: Bits, q: nat, done: nat)
    requires
        q + done <= MAX_UNARY,
        stands_at(b, unary(q)),
    ensures
        b.unary(done) == (Ok::<nat, Fault>(q + done), on(b, q + 1)),
    decreases q,
{
    let row = unary(q);
    lemma2_to64();
    lemma_digit(b.data, b.pos as int);
    reveal_with_fuel(bits_value, 2);
    assert(bits_value(b.data, b.pos as int, 1) == bit(b.data, b.pos as int));
    assert(digit(b.data, b.pos as int + 0) == row[0]);
    if q > 0 {
        let rest = on(b, 1);
        let less = unary((q - 1) as nat);
        assert forall|i: int| 0 <= i < less.len() implies digit(rest.data, rest.pos + i)
            == #[trigger] less[i] by {
            assert(row[i + 1] == less[i]);
            assert(digit(b.data, b.pos + (i + 1)) == row[i + 1]);
        }
        lemma_unary(rest, (q - 1) as nat, done + 1);
    }
}

/// A count that is written in unary is read.
pub proof fn law_unary_read(b: Bits, q: nat)
    requires
        q <= MAX_UNARY,
        stands_at(b, unary(q)),
    ensures
        b.unary(0) == (Ok::<nat, Fault>(q), on(b, q + 1)),
{
    lemma_unary(b, q, 0);
}

/// Whether a number can be written in Rice code.
pub open spec fn in_rice(v: int, param: nat) -> bool {
    &&& param <= 30
    &&& without_sign(v) / pow2(param) <= MAX_UNARY
    &&& i64::MIN <= v <= i64::MAX
}

/// A number that is written in Rice code is read.
pub proof fn law_rice_read(b: Bits, v: int, param: nat)
    requires
        in_rice(v, param),
        stands_at(b, rice_code(v, param)),
    ensures
        ({
            let (n, rest) = rice(b, param);
            &&& n matches Ok(n)
            &&& unfolded(n) == v
            &&& rest == on(b, rice_code(v, param).len())
        }),
{
    let f = without_sign(v);
    lemma_pow2_pos(param);
    lemma_fundamental_div_mod(f as int, pow2(param) as int);
    let q = (f / pow2(param)) as nat;
    let r = f % pow2(param);
    lemma_parts(b, unary(q), binary(r, param));
    law_unary_read(b, q);
    law_number_read(on(b, q + 1), r, param);
    assert(q * pow2(param) + r == f) by (nonlinear_arith)
        requires
            f == pow2(param) * q + r,
    ;
    assert(on(on(b, q + 1), param) == on(b, rice_code(v, param).len()));
}

/// Numbers one after the other, in two's complement.
pub open spec fn plain_row(vs: Seq<i64>, width: nat) -> Seq<bool>
    decreases vs.len(),
{
    if vs.len() == 0 {
        Seq::empty()
    } else {
        binary(twos(vs[0] as int, width), width) + plain_row(vs.drop_first(), width)
    }
}

/// Numbers one after the other, in Rice code.
pub open spec fn rice_row(vs: Seq<i64>, param: nat) -> Seq<bool>
    decreases vs.len(),
{
    if vs.len() == 0 {
        Seq::empty()
    } else {
        rice_code(vs[0] as int, param) + rice_row(vs.drop_first(), param)
    }
}

/// Numbers that are written in two's complement are read.
pub proof fn law_plain_row_read(b: Bits, vs: Seq<i64>, width: nat, before: Seq<i64>)
    requires
        forall|i: int| 0 <= i < vs.len() ==> in_digits(#[trigger] vs[i] as int, width),
        stands_at(b, plain_row(vs, width)),
    ensures
        signed_run(b, vs.len(), width, before) == (
            Ok::<Seq<i64>, Fault>(before + vs),
            on(b, plain_row(vs, width).len()),
        ),
    decreases vs.len(),
{
    if vs.len() == 0 {
        assert(before + vs =~= before);
    } else {
        let first = binary(twos(vs[0] as int, width), width);
        let rest = plain_row(vs.drop_first(), width);
        assert(in_digits(vs[0] as int, width));
        lemma_parts(b, first, rest);
        law_signed_read(b, vs[0] as int, width);
        assert forall|i: int| 0 <= i < vs.drop_first().len() implies in_digits(
            #[trigger] vs.drop_first()[i] as int,
            width,
        ) by {
            assert(vs.drop_first()[i] == vs[i + 1]);
        }
        law_plain_row_read(on(b, width), vs.drop_first(), width, before.push(vs[0]));
        assert(before.push(vs[0]) + vs.drop_first() =~= before + vs);
        assert(on(on(b, width), rest.len()) == on(b, (first + rest).len()));
    }
}

/// Numbers that are written in Rice code are read.
pub proof fn law_rice_row_read(b: Bits, vs: Seq<i64>, param: nat, before: Seq<i64>)
    requires
        forall|i: int| 0 <= i < vs.len() ==> in_rice(#[trigger] vs[i] as int, param),
        stands_at(b, rice_row(vs, param)),
    ensures
        rice_run(b, vs.len(), param, before) == (
            Ok::<Seq<i64>, Fault>(before + vs),
            on(b, rice_row(vs, param).len()),
        ),
    decreases vs.len(),
{
    if vs.len() == 0 {
        assert(before + vs =~= before);
    } else {
        let first = rice_code(vs[0] as int, param);
        let rest = rice_row(vs.drop_first(), param);
        assert(in_rice(vs[0] as int, param));
        lemma_parts(b, first, rest);
        law_rice_read(b, vs[0] as int, param);
        assert forall|i: int| 0 <= i < vs.drop_first().len() implies in_rice(
            #[trigger] vs.drop_first()[i] as int,
            param,
        ) by {
            assert(vs.drop_first()[i] == vs[i + 1]);
        }
        law_rice_row_read(on(b, first.len()), vs.drop_first(), param, before.push(vs[0]));
        assert(before.push(vs[0]) + vs.drop_first() =~= before + vs);
        assert(on(on(b, first.len()), rest.len()) == on(b, (first + rest).len()));
    }
}

/// How the numbers of a partition are written.
pub enum Coding {
    /// In Rice code, with a parameter.
    Rice(nat),
    /// As they are, in so many digits.
    Plain(nat),
}

/// Whether the numbers of a partition can be written so, with a parameter of `width`
/// digits.
pub open spec fn codable(vs: Seq<i64>, c: Coding, width: nat) -> bool {
    match c {
        Coding::Rice(param) => {
            &&& param < pow2(width) - 1
            &&& forall|i: int| 0 <= i < vs.len() ==> in_rice(#[trigger] vs[i] as int, param)
        },
        Coding::Plain(digits) => {
            &&& digits < 32
            &&& forall|i: int| 0 <= i < vs.len() ==> in_digits(#[trigger] vs[i] as int, digits)
        },
    }
}

/// A partition as it is written.
pub open spec fn partition_row(vs: Seq<i64>, c: Coding, width: nat) -> Seq<bool> {
    match c {
        Coding::Rice(param) => binary(param, width) + rice_row(vs, param),
        Coding::Plain(digits) => binary((pow2(width) - 1) as nat, width) + (binary(digits, 5)
            + plain_row(vs, digits)),
    }
}

/// A partition that is written is read.
pub proof fn law_partition_read(b: Bits, vs: Seq<i64>, c: Coding, width: nat, before: Seq<i64>)
    requires
        codable(vs, c, width),
        stands_at(b, partition_row(vs, c, width)),
    ensures
        partition(b, vs.len(), width, before) == (
            Ok::<Seq<i64>, Fault>(before + vs),
            on(b, partition_row(vs, c, width).len()),
        ),
{
    lemma_pow2_pos(width);
    lemma2_to64();
    match c {
        Coding::Rice(param) => {
            lemma_parts(b, binary(param, width), rice_row(vs, param));
            law_number_read(b, param, width);
            law_rice_row_read(on(b, width), vs, param, before);
            assert(on(on(b, width), rice_row(vs, param).len()) == on(
                b,
                partition_row(vs, c, width).len(),
            ));
        },
        Coding::Plain(digits) => {
            let top = (pow2(width) - 1) as nat;
            let tail = binary(digits, 5) + plain_row(vs, digits);
            lemma_parts(b, binary(top, width), tail);
            law_number_read(b, top, width);
            let b1 = on(b, width);
            lemma_parts(b1, binary(digits, 5), plain_row(vs, digits));
            law_number_read(b1, digits, 5);
            law_plain_row_read(on(b1, 5), vs, digits, before);
            assert(on(on(b1, 5), plain_row(vs, digits).len()) == on(
                b,
                partition_row(vs, c, width).len(),
            ));
        },
    }
}

/// The length of partition `p` of a block in which nothing predicts the first `order`
/// samples.
pub open spec fn part_len(p: nat, size: nat, order: nat) -> nat {
    if p == 0 {
        (size - order) as nat
    } else {
        size
    }
}

/// The partitions from `p` on as they are written.
pub open spec fn partition_rows(
    vs: Seq<i64>,
    codings: Seq<Coding>,
    p: nat,
    size: nat,
    order: nat,
    width: nat,
) -> Seq<bool>
    decreases codings.len() - p,
{
    if p >= codings.len() {
        Seq::empty()
    } else {
        let n = part_len(p, size, order) as int;
        partition_row(vs.take(n), codings[p as int], width) + partition_rows(
            vs.skip(n),
            codings,
            p + 1,
            size,
            order,
            width,
        )
    }
}

/// Whether the numbers from partition `p` on can be written so.
pub open spec fn all_codable(
    vs: Seq<i64>,
    codings: Seq<Coding>,
    p: nat,
    size: nat,
    order: nat,
    width: nat,
) -> bool
    decreases codings.len() - p,
{
    if p >= codings.len() {
        vs.len() == 0
    } else {
        let n = part_len(p, size, order) as int;
        &&& p == 0 ==> order <= size
        &&& n <= vs.len()
        &&& codable(vs.take(n), codings[p as int], width)
        &&& all_codable(vs.skip(n), codings, p + 1, size, order, width)
    }
}

proof fn lemma_partitions(
    b: Bits,
    vs: Seq<i64>,
    codings: Seq<Coding>,
    p: nat,
    size: nat,
    order: nat,
    width: nat,
    before: Seq<i64>,
)
    requires
        all_codable(vs, codings, p, size, order, width),
        stands_at(b, partition_rows(vs, codings, p, size, order, width)),
    ensures
        partitions_from(b, p, codings.len(), size, order, width, before) == (
            Ok::<Seq<i64>, Fault>(before + vs),
            on(b, partition_rows(vs, codings, p, size, order, width).len()),
        ),
    decreases codings.len() - p,
{
    if p >= codings.len() {
        assert(before + vs =~= before);
    } else {
        let n = part_len(p, size, order) as int;
        let c = codings[p as int];
        let first = partition_row(vs.take(n), c, width);
        let rest = partition_rows(vs.skip(n), codings, p + 1, size, order, width);
        lemma_parts(b, first, rest);
        law_partition_read(b, vs.take(n), c, width, before);
        lemma_partitions(
            on(b, first.len()),
            vs.skip(n),
            codings,
            p + 1,
            size,
            order,
            width,
            before + vs.take(n),
        );
        assert((before + vs.take(n)) + vs.skip(n) =~= before + vs);
        assert(on(on(b, first.len()), rest.len()) == on(b, (first + rest).len()));
    }
}

/// How the residuals of a block are written: with parameters of four or of five
/// digits, and in a number of partitions that is a power of two.
pub struct ResidualCoding {
    /// Parameters have five digits.
    pub wide: bool,
    /// The number of partitions is two to this power.
    pub split: nat,
    /// How each partition is written.
    pub codings: Seq<Coding>,
}

/// The digits of a parameter.
pub open spec fn param_digits(c: ResidualCoding) -> nat {
    if c.wide {
        5
    } else {
        4
    }
}

/// Whether the residuals of a block can be written so.
pub open spec fn residuals_codable(
    vs: Seq<i64>,
    block_size: nat,
    order: nat,
    c: ResidualCoding,
) -> bool {
    &&& c.split < 16
    &&& c.codings.len() == pow2(c.split)
    &&& block_size % pow2(c.split) == 0
    &&& all_codable(vs, c.codings, 0, block_size / pow2(c.split), order, param_digits(c))
}

/// The residuals of a block as they are written.
pub open spec fn residual_row(
    vs: Seq<i64>,
    block_size: nat,
    order: nat,
    c: ResidualCoding,
) -> Seq<bool> {
    binary(
        if c.wide {
            1
        } else {
            0
        },
        2,
    ) + (binary(c.split, 4) + partition_rows(
        vs,
        c.codings,
        0,
        block_size / pow2(c.split),
        order,
        param_digits(c),
    ))
}

/// Residuals that are written are read.
pub proof fn law_residuals_read(
    b: Bits,
    vs: Seq<i64>,
    block_size: nat,
    order: nat,
    c: ResidualCoding,
)
    requires
        residuals_codable(vs, block_size, order, c),
        stands_at(b, residual_row(vs, block_size, order, c)),
    ensures
        residual(b, block_size, order) == (
            Ok::<Seq<i64>, Fault>(vs),
            on(b, residual_row(vs, block_size, order, c).len()),
        ),
{
    lemma2_to64();
    lemma_pow2_pos(c.split);
    let method: nat = if c.wide {
        1
    } else {
        0
    };
    let rows = partition_rows(
        vs,
        c.codings,
        0,
        block_size / pow2(c.split),
        order,
        param_digits(c),
    );
    let tail = binary(c.split, 4) + rows;
    lemma_parts(b, binary(method, 2), tail);
    law_number_read(b, method, 2);
    let b1 = on(b, 2);
    lemma_parts(b1, binary(c.split, 4), rows);
    law_number_read(b1, c.split, 4);
    let b2 = on(b1, 4);
    lemma_partitions(
        b2,
        vs,
        c.codings,
        0,
        block_size / pow2(c.split),
        order,
        param_digits(c),
        Seq::empty(),
    );
    assert(Seq::<i64>::empty() + vs =~= vs);
    assert(on(b2, rows.len()) == on(b, residual_row(vs, block_size, order, c).len()));
}

} // verus!
