use crate::binary::{decode_spec, from_bytes, lift, to_bytes, vector2d_wire, Binary};
use crate::error::{DecodeError, Field};
use crate::shape::{
    BaseHeight, Points2D, Polygon2D, PrismModel, PyShape3D, Shape3D, SolidModel, Vector2D,
    Vector3D,
};
use vstd::arithmetic::div_mod::lemma_fundamental_div_mod;
use vstd::prelude::*;
use vstd::utf8::encode_utf8;

verus! {

pub const OPEN_BRACE: u8 = 123;

pub const CLOSE_BRACE: u8 = 125;

pub const OPEN_BRACKET: u8 = 91;

pub const CLOSE_BRACKET: u8 = 93;

pub const COMMA: u8 = 44;

pub const COLON: u8 = 58;

pub const QUOTE: u8 = 34;

pub const MINUS: u8 = 45;

pub open spec fn is_digit(c: u8) -> bool {
    48 <= c <= 57
}

/// `s` stands in `b` from `pos` on.
pub open spec fn has_at(b: Seq<u8>, pos: int, s: Seq<u8>) -> bool {
    &&& 0 <= pos
    &&& pos + s.len() <= b.len()
    &&& b.subrange(pos, pos + s.len()) == s
}

pub proof fn lemma_split(b: Seq<u8>, pos: int, x: Seq<u8>, y: Seq<u8>)
    requires
        has_at(b, pos, x + y),
    ensures
        has_at(b, pos, x),
        has_at(b, pos + x.len(), y),
{
    let w = b.subrange(pos, pos + x.len() + y.len());
    assert(b.subrange(pos, pos + x.len()) =~= w.subrange(0, x.len() as int));
    assert(b.subrange(pos + x.len(), pos + x.len() + y.len()) =~= w.subrange(
        x.len() as int,
        w.len() as int,
    ));
    assert((x + y).subrange(0, x.len() as int) =~= x);
    assert((x + y).subrange(x.len() as int, (x + y).len() as int) =~= y);
}

// ---- numbers ----

/// The decimal digits of `n`, most significant first, with no leading zero.
pub open spec fn digits(n: nat) -> Seq<u8>
    decreases n,
{
    if n < 10 {
        seq![(48 + n) as u8]
    } else {
        digits(n / 10) + seq![(48 + n % 10) as u8]
    }
}

/// An integer in decimal, with a leading minus sign when negative.
pub open spec fn int_text(v: int) -> Seq<u8> {
    if v < 0 {
        seq![MINUS] + digits((-v) as nat)
    } else {
        digits(v as nat)
    }
}

/// The value of a run of decimal digits.
pub open spec fn digits_value(s: Seq<u8>) -> nat
    decreases s.len(),
{
    if s.len() == 0 {
        0
    } else {
        10 * digits_value(s.drop_last()) + (s.last() - 48) as nat
    }
}

/// The end of the run of digits that starts at `i`.
pub open spec fn digits_end(b: Seq<u8>, i: int) -> int
    decreases b.len() - i,
{
    if 0 <= i < b.len() && is_digit(b[i]) {
        digits_end(b, i + 1)
    } else {
        i
    }
}

pub open spec fn expect_byte(b: Seq<u8>, pos: int, c: u8) -> Result<int, DecodeError> {
    if pos < 0 || pos >= b.len() {
        Err(DecodeError::UnexpectedEnd)
    } else if b[pos] == c {
        Ok(pos + 1)
    } else {
        Err(DecodeError::Syntax(pos as usize))
    }
}

/// An optional minus sign and at least one digit.
pub open spec fn number_parse(b: Seq<u8>, pos: int) -> Result<(int, int), DecodeError> {
    let neg = 0 <= pos < b.len() && b[pos] == MINUS;
    let start = if neg {
        pos + 1
    } else {
        pos
    };
    let end = digits_end(b, start);
    if end == start {
        if start < 0 || start >= b.len() {
            Err(DecodeError::UnexpectedEnd)
        } else {
            Err(DecodeError::Syntax(start as usize))
        }
    } else {
        let m = digits_value(b.subrange(start, end)) as int;
        Ok((
            if neg {
                -m
            } else {
                m
            },
            end,
        ))
    }
}

pub open spec fn i64_parse(b: Seq<u8>, pos: int, f: Field) -> Result<(i64, int), DecodeError> {
    match number_parse(b, pos) {
        Ok((v, e)) => if i64::MIN <= v <= i64::MAX {
            Ok((v as i64, e))
        } else {
            Err(DecodeError::OutOfRange(f))
        },
        Err(e) => Err(e),
    }
}

pub open spec fn u64_parse(b: Seq<u8>, pos: int, f: Field) -> Result<(u64, int), DecodeError> {
    match number_parse(b, pos) {
        Ok((v, e)) => if 0 <= v <= u64::MAX {
            Ok((v as u64, e))
        } else {
            Err(DecodeError::OutOfRange(f))
        },
        Err(e) => Err(e),
    }
}

proof fn lemma_digits(n: nat)
    ensures
        digits(n).len() >= 1,
        forall|i: int| 0 <= i < digits(n).len() ==> is_digit(#[trigger] digits(n)[i]),
        digits_value(digits(n)) == n,
    decreases n,
{
    if n >= 10 {
        lemma_digits(n / 10);
        lemma_fundamental_div_mod(n as int, 10);
        assert(digits(n).drop_last() =~= digits(n / 10));
        let d = n % 10;
        assert(((48 + d) as u8) as int == 48 + d);
        assert(digits(n).last() == (48 + d) as u8);
        assert(digits_value(digits(n)) == 10 * digits_value(digits(n / 10)) + d);
    } else {
        assert(digits(n).drop_last() =~= Seq::<u8>::empty());
        assert(((48 + n) as u8) as int == 48 + n);
        assert(digits_value(digits(n)) == 10 * digits_value(Seq::<u8>::empty()) + n);
    }
}

proof fn lemma_digits_end(b: Seq<u8>, i: int, j: int)
    requires
        0 <= i <= j <= b.len(),
        forall|k: int| i <= k < j ==> is_digit(#[trigger] b[k]),
        j == b.len() || !is_digit(b[j]),
    ensures
        digits_end(b, i) == j,
    decreases j - i,
{
    if i < j {
        lemma_digits_end(b, i + 1, j);
    }
}

/// A number written by `int_text` reads back, when no digit follows it.
proof fn lemma_number_parse(v: int, b: Seq<u8>, pos: int)
    requires
        has_at(b, pos, int_text(v)),
        pos + int_text(v).len() == b.len() || !is_digit(b[pos + int_text(v).len()]),
    ensures
        number_parse(b, pos) == Ok::<(int, int), DecodeError>((v, pos + int_text(v).len())),
{
    let t = int_text(v);
    let e = pos + t.len();
    if v < 0 {
        let d = digits((-v) as nat);
        lemma_digits((-v) as nat);
        lemma_split(b, pos, seq![MINUS], d);
        assert(b[pos] == b.subrange(pos, pos + 1)[0]);
        assert forall|k: int| pos + 1 <= k < e implies is_digit(#[trigger] b[k]) by {
            assert(b[k] == b.subrange(pos + 1, e)[k - pos - 1]);
        }
        lemma_digits_end(b, pos + 1, e);
    } else {
        let d = digits(v as nat);
        lemma_digits(v as nat);
        assert forall|k: int| pos <= k < e implies is_digit(#[trigger] b[k]) by {
            assert(b[k] == b.subrange(pos, e)[k - pos]);
        }
        assert(b[pos] == d[0]);
        lemma_digits_end(b, pos, e);
    }
}

fn write_digits(out: &mut Vec<u8>, n: u64)
    ensures
        final(out)@ == old(out)@ + digits(n as nat),
    decreases n,
{
    if n >= 10 {
        write_digits(out, n / 10);
    }
    out.push((48 + n % 10) as u8);
    assert(final(out)@ =~= old(out)@ + digits(n as nat));
}

fn write_i64_text(out: &mut Vec<u8>, v: i64)
    ensures
        final(out)@ == old(out)@ + int_text(v as int),
{
    if v < 0 {
        out.push(MINUS);
        let m = (0i128 - v as i128) as u64;
        write_digits(out, m);
    } else {
        write_digits(out, v as u64);
    }
    assert(final(out)@ =~= old(out)@ + int_text(v as int));
}

fn write_u64_text(out: &mut Vec<u8>, v: u64)
    ensures
        final(out)@ == old(out)@ + int_text(v as int),
{
    write_digits(out, v);
}

fn read_byte(b: &[u8], pos: usize, c: u8) -> (r: Result<usize, DecodeError>)
    requires
        pos <= b@.len(),
    ensures
        match r {
            Ok(p) => expect_byte(b@, pos as int, c) == Ok::<int, DecodeError>(p as int) && pos < p
                <= b@.len(),
            Err(e) => expect_byte(b@, pos as int, c) == Err::<int, DecodeError>(e),
        },
{
    if pos >= b.len() {
        Err(DecodeError::UnexpectedEnd)
    } else if b[pos] == c {
        Ok(pos + 1)
    } else {
        Err(DecodeError::Syntax(pos))
    }
}

/// The magnitude of a number cut off above this bound; no field holds a larger one.
pub const MAGNITUDE_CAP: u128 = 0x1_0000_0000_0000_0000;

/// Reads a number: whether it is negative, its magnitude unless that exceeds
/// `MAGNITUDE_CAP` (then the flag is set), and where it ends.
fn scan_number(b: &[u8], pos: usize) -> (r: Result<(bool, u128, bool, usize), DecodeError>)
    requires
        pos <= b@.len(),
    ensures
        match number_parse(b@, pos as int) {
            Err(e) => r == Err::<(bool, u128, bool, usize), DecodeError>(e),
            Ok((v, e)) => r is Ok && ({
                let (neg, mag, big, end) = r->Ok_0;
                &&& end as int == e
                &&& pos < end <= b@.len()
                &&& big <==> (if v < 0 { -v } else { v }) > MAGNITUDE_CAP
                &&& !big ==> v == (if neg { -(mag as int) } else { mag as int })
            }),
        },
{
    let neg = pos < b.len() && b[pos] == MINUS;
    let start = if neg { pos + 1 } else { pos };
    let mut i = start;
    let mut acc: u128 = 0;
    let mut big = false;
    while i < b.len() && 48 <= b[i] && b[i] <= 57
        invariant
            start <= i <= b@.len(),
            digits_end(b@, start as int) == digits_end(b@, i as int),
            big ==> digits_value(b@.subrange(start as int, i as int)) > MAGNITUDE_CAP,
            !big ==> acc == digits_value(b@.subrange(start as int, i as int)),
            !big ==> acc <= MAGNITUDE_CAP,
        decreases b@.len() - i,
    {
        let d = b[i] - 48;
        proof {
            assert(b@.subrange(start as int, i + 1).drop_last() =~= b@.subrange(
                start as int,
                i as int,
            ));
        }
        if !big {
            acc = acc * 10 + d as u128;
            if acc > MAGNITUDE_CAP {
                big = true;
            }
        }
        i = i + 1;
    }
    if i == start {
        if start >= b.len() {
            return Err(DecodeError::UnexpectedEnd);
        } else {
            return Err(DecodeError::Syntax(start));
        }
    }
    Ok((neg, acc, big, i))
}

fn read_i64_text(b: &[u8], pos: usize, f: Field) -> (r: Result<(i64, usize), DecodeError>)
    requires
        pos <= b@.len(),
    ensures
        match r {
            Ok((v, p)) => i64_parse(b@, pos as int, f) == Ok::<(i64, int), DecodeError>(
                (v, p as int),
            ) && pos < p <= b@.len(),
            Err(e) => i64_parse(b@, pos as int, f) == Err::<(i64, int), DecodeError>(e),
        },
{
    match scan_number(b, pos) {
        Err(e) => Err(e),
        Ok((neg, mag, big, end)) => {
            if big {
                Err(DecodeError::OutOfRange(f))
            } else if neg {
                if mag > 0x8000_0000_0000_0000 {
                    Err(DecodeError::OutOfRange(f))
                } else {
                    Ok(((0i128 - mag as i128) as i64, end))
                }
            } else if mag > 0x7fff_ffff_ffff_ffff {
                Err(DecodeError::OutOfRange(f))
            } else {
                Ok((mag as i64, end))
            }
        },
    }
}

fn read_u64_text(b: &[u8], pos: usize, f: Field) -> (r: Result<(u64, usize), DecodeError>)
    requires
        pos <= b@.len(),
    ensures
        match r {
            Ok((v, p)) => u64_parse(b@, pos as int, f) == Ok::<(u64, int), DecodeError>(
                (v, p as int),
            ) && pos < p <= b@.len(),
            Err(e) => u64_parse(b@, pos as int, f) == Err::<(u64, int), DecodeError>(e),
        },
{
    match scan_number(b, pos) {
        Err(e) => Err(e),
        Ok((neg, mag, big, end)) => {
            if big {
                Err(DecodeError::OutOfRange(f))
            } else if neg && mag > 0 {
                Err(DecodeError::OutOfRange(f))
            } else if mag > 0xffff_ffff_ffff_ffff {
                Err(DecodeError::OutOfRange(f))
            } else {
                Ok((mag as u64, end))
            }
        },
    }
}

// ---- keys and fields ----

pub open spec fn field_name(f: Field) -> Seq<u8> {
    match f {
        Field::X => seq![120u8],
        Field::Y => seq![121u8],
        Field::Z => seq![122u8],
        Field::Points => seq![112u8, 111, 105, 110, 116, 115],
        Field::Base => seq![98u8, 97, 115, 101],
        Field::Height => seq![104u8, 101, 105, 103, 104, 116],
    }
}

/// `"name":`, preceded by a comma unless the field comes first.
pub open spec fn field_key(first: bool, f: Field) -> Seq<u8> {
    (if first {
        seq![QUOTE]
    } else {
        seq![COMMA, QUOTE]
    }) + field_name(f) + seq![QUOTE, COLON]
}

/// Any deviation where a field's key belongs reports that field as missing.
fn push_field_name(out: &mut Vec<u8>, f: Field)
    ensures
        final(out)@ == old(out)@ + field_name(f),
{
    match f {
        Field::X => out.push(120u8),
        Field::Y => out.push(121u8),
        Field::Z => out.push(122u8),
        Field::Points => {
            out.push(112u8);
            out.push(111u8);
            out.push(105u8);
            out.push(110u8);
            out.push(116u8);
            out.push(115u8);
        },
        Field::Base => {
            out.push(98u8);
            out.push(97u8);
            out.push(115u8);
            out.push(101u8);
        },
        Field::Height => {
            out.push(104u8);
            out.push(101u8);
            out.push(105u8);
            out.push(103u8);
            out.push(104u8);
            out.push(116u8);
        },
    }
    assert(final(out)@ =~= old(out)@ + field_name(f));
}

fn write_field_key(out: &mut Vec<u8>, first: bool, f: Field)
    ensures
        final(out)@ == old(out)@ + field_key(first, f),
{
    if !first {
        out.push(COMMA);
    }
    out.push(QUOTE);
    push_field_name(out, f);
    out.push(QUOTE);
    out.push(COLON);
    assert(final(out)@ =~= old(out)@ + field_key(first, f));
}

/// Whether `s` stands in `b` from `pos` on.
fn matches_at(b: &[u8], pos: usize, s: &Vec<u8>) -> (r: bool)
    requires
        pos <= b@.len(),
    ensures
        r == has_at(b@, pos as int, s@),
        b@.len() <= usize::MAX,
{
    if b.len() - pos < s.len() {
        return false;
    }
    let mut i: usize = 0;
    while i < s.len()
        invariant
            pos + s@.len() <= b@.len(),
            b@.len() == b.len(),
            i <= s@.len(),
            forall|k: int| 0 <= k < i ==> b@[pos + k] == s@[k],
        decreases s@.len() - i,
    {
        if b[pos + i] != s[i] {
            assert(b@.subrange(pos as int, pos + s@.len())[i as int] != s@[i as int]);
            return false;
        }
        i = i + 1;
    }
    assert(b@.subrange(pos as int, pos + s@.len()) =~= s@);
    true
}

pub proof fn lemma_byte_at(b: Seq<u8>, pos: int, s: Seq<u8>)
    requires
        has_at(b, pos, s),
        s.len() > 0,
    ensures
        b[pos] == s[0],
{
    assert(b[pos] == b.subrange(pos, pos + s.len())[0]);
}

/// A signed field's digits read back when the next key follows them.
pub proof fn lemma_i64_field(v: i64, b: Seq<u8>, pos: int, f: Field, next: Seq<u8>)
    requires
        has_at(b, pos, int_text(v as int)),
        has_at(b, pos + int_text(v as int).len(), next),
        next.len() > 0,
        !is_digit(next[0]),
    ensures
        i64_parse(b, pos, f) == Ok::<(i64, int), DecodeError>(
            (v, pos + int_text(v as int).len()),
        ),
{
    lemma_byte_at(b, pos + int_text(v as int).len(), next);
    lemma_number_parse(v as int, b, pos);
}

proof fn lemma_u64_field(v: u64, b: Seq<u8>, pos: int, f: Field, next: Seq<u8>)
    requires
        has_at(b, pos, int_text(v as int)),
        has_at(b, pos + int_text(v as int).len(), next),
        next.len() > 0,
        !is_digit(next[0]),
    ensures
        u64_parse(b, pos, f) == Ok::<(u64, int), DecodeError>(
            (v, pos + int_text(v as int).len()),
        ),
{
    lemma_byte_at(b, pos + int_text(v as int).len(), next);
    lemma_number_parse(v as int, b, pos);
}

// ---- the text format ----

/// The structured text encoding: objects with named fields, integers in
/// decimal, sequences as arrays, unions as an object with one key naming the
/// variant. Writing puts fields in declaration order with no whitespace;
/// reading matches members by name, in any order, with optional whitespace.
pub trait Text: Binary {
    /// The text of a model.
    spec fn text(m: Self::V) -> Seq<u8>;

    /// Reads one value starting at `pos`: its model and the position after it.
    spec fn parse_text(b: Seq<u8>, pos: int) -> Result<(Self::V, int), DecodeError>;

    /// Reading a text gives back the model and stops right after it.
    proof fn lemma_parse_text(m: Self::V, b: Seq<u8>, pos: int)
        requires
            Self::valid(m),
            has_at(b, pos, Self::text(m)),
        ensures
            Self::parse_text(b, pos) == Ok::<(Self::V, int), DecodeError>(
                (m, pos + Self::text(m).len()),
            ),
    ;

    /// The text is ASCII.
    proof fn lemma_text_ascii(m: Self::V)
        ensures
            forall|i: int| 0 <= i < Self::text(m).len() ==> #[trigger] Self::text(m)[i] < 128,
    ;

    fn write_text(&self, out: &mut Vec<u8>)
        ensures
            final(out)@ == old(out)@ + Self::text(self@),
            Self::valid(self@),
    ;

    fn read_text(b: &[u8], pos: usize) -> (r: Result<(Self, usize), DecodeError>)
        requires
            pos <= b@.len(),
        ensures
            lift::<Self>(r) == Self::parse_text(b@, pos as int),
    ;
}

proof fn lemma_digits_ascii(n: nat)
    ensures
        forall|i: int| 0 <= i < digits(n).len() ==> #[trigger] digits(n)[i] < 128,
{
    lemma_digits(n);
}

proof fn lemma_int_text_ascii(v: int)
    ensures
        forall|i: int| 0 <= i < int_text(v).len() ==> #[trigger] int_text(v)[i] < 128,
{
    if v < 0 {
        lemma_digits_ascii((-v) as nat);
        assert forall|i: int| 0 <= i < int_text(v).len() implies #[trigger] int_text(v)[i] < 128 by {
            if i > 0 {
                assert(int_text(v)[i] == digits((-v) as nat)[i - 1]);
            }
        }
    } else {
        lemma_digits_ascii(v as nat);
    }
}

pub open spec fn ascii(s: Seq<u8>) -> bool {
    forall|i: int| 0 <= i < s.len() ==> #[trigger] s[i] < 128
}

proof fn lemma_ascii_concat(x: Seq<u8>, y: Seq<u8>)
    requires
        ascii(x),
        ascii(y),
    ensures
        ascii(x + y),
{
    assert forall|i: int| 0 <= i < (x + y).len() implies #[trigger] (x + y)[i] < 128 by {
        if i < x.len() {
            assert((x + y)[i] == x[i]);
        } else {
            assert((x + y)[i] == y[i - x.len()]);
        }
    }
}

proof fn lemma_field_key_ascii(first: bool, f: Field)
    ensures
        ascii(field_key(first, f)),
{
    let a = if first {
        seq![QUOTE]
    } else {
        seq![COMMA, QUOTE]
    };
    assert(ascii(a));
    assert(ascii(field_name(f)));
    assert(ascii(seq![QUOTE, COLON]));
    lemma_ascii_concat(a, field_name(f));
    lemma_ascii_concat(a + field_name(f), seq![QUOTE, COLON]);
}

pub open spec fn vector2d_text(v: Vector2D) -> Seq<u8> {
    seq![OPEN_BRACE] + field_key(true, Field::X) + int_text(v.x as int) + field_key(
        false,
        Field::Y,
    ) + int_text(v.y as int) + seq![CLOSE_BRACE]
}

fn write_vector2d_text(v: &Vector2D, out: &mut Vec<u8>)
    ensures
        final(out)@ == old(out)@ + vector2d_text(*v),
{
    out.push(OPEN_BRACE);
    write_field_key(out, true, Field::X);
    write_i64_text(out, v.x);
    write_field_key(out, false, Field::Y);
    write_i64_text(out, v.y);
    out.push(CLOSE_BRACE);
    assert(final(out)@ =~= old(out)@ + vector2d_text(*v));
}

proof fn lemma_vector2d_text_ascii(v: Vector2D)
    ensures
        ascii(vector2d_text(v)),
{
    let a = seq![OPEN_BRACE];
    let k1 = field_key(true, Field::X);
    let t1 = int_text(v.x as int);
    let k2 = field_key(false, Field::Y);
    let t2 = int_text(v.y as int);
    let z = seq![CLOSE_BRACE];
    assert(ascii(a));
    assert(ascii(z));
    lemma_field_key_ascii(true, Field::X);
    lemma_field_key_ascii(false, Field::Y);
    lemma_int_text_ascii(v.x as int);
    lemma_int_text_ascii(v.y as int);
    lemma_ascii_concat(a, k1);
    lemma_ascii_concat(a + k1, t1);
    lemma_ascii_concat(a + k1 + t1, k2);
    lemma_ascii_concat(a + k1 + t1 + k2, t2);
    lemma_ascii_concat(a + k1 + t1 + k2 + t2, z);
}

pub open spec fn vector3d_text(v: Vector3D) -> Seq<u8> {
    seq![OPEN_BRACE] + field_key(true, Field::X) + int_text(v.x as int) + field_key(
        false,
        Field::Y,
    ) + int_text(v.y as int) + field_key(false, Field::Z) + int_text(v.z as int) + seq![
        CLOSE_BRACE,
    ]
}

// ---- arrays of points ----

/// The texts of the points, separated by commas.
pub open spec fn joined(s: Seq<Vector2D>) -> Seq<u8>
    decreases s.len(),
{
    if s.len() == 0 {
        Seq::empty()
    } else if s.len() == 1 {
        vector2d_text(s[0])
    } else {
        joined(s.drop_last()) + seq![COMMA] + vector2d_text(s.last())
    }
}

pub open spec fn points_text(s: Seq<Vector2D>) -> Seq<u8> {
    seq![OPEN_BRACKET] + joined(s) + seq![CLOSE_BRACKET]
}

/// Reads points from `pos` on, after those in `acc`, up to the closing bracket.
proof fn lemma_joined_front(s: Seq<Vector2D>)
    requires
        s.len() >= 2,
    ensures
        joined(s) == vector2d_text(s[0]) + seq![COMMA] + joined(s.drop_first()),
    decreases s.len(),
{
    assert(s.drop_last()[0] == s[0]);
    if s.len() == 2 {
        assert(s.drop_last().len() == 1);
        assert(s.drop_first().len() == 1);
        assert(s.drop_first()[0] == s.last());
        assert(joined(s.drop_last()) == vector2d_text(s[0]));
        assert(joined(s.drop_first()) == vector2d_text(s.last()));
    } else {
        lemma_joined_front(s.drop_last());
        assert(s.drop_last().drop_first() =~= s.drop_first().drop_last());
        assert(s.drop_first().last() == s.last());
        assert(joined(s.drop_first()) == joined(s.drop_first().drop_last()) + seq![COMMA]
            + vector2d_text(s.last()));
    }
    assert(joined(s) =~= vector2d_text(s[0]) + seq![COMMA] + joined(s.drop_first()));
}

proof fn lemma_joined_first(s: Seq<Vector2D>)
    requires
        s.len() >= 1,
    ensures
        joined(s).len() > 0,
        joined(s)[0] == OPEN_BRACE,
    decreases s.len(),
{
    if s.len() > 1 {
        lemma_joined_first(s.drop_last());
    }
}

proof fn lemma_joined_ascii(s: Seq<Vector2D>)
    ensures
        ascii(joined(s)),
    decreases s.len(),
{
    if s.len() == 1 {
        lemma_vector2d_text_ascii(s[0]);
    } else if s.len() > 1 {
        lemma_joined_ascii(s.drop_last());
        lemma_vector2d_text_ascii(s.last());
        assert(ascii(seq![COMMA]));
        lemma_ascii_concat(joined(s.drop_last()), seq![COMMA]);
        lemma_ascii_concat(joined(s.drop_last()) + seq![COMMA], vector2d_text(s.last()));
    }
}

proof fn lemma_points_text_ascii(s: Seq<Vector2D>)
    ensures
        ascii(points_text(s)),
{
    lemma_joined_ascii(s);
    assert(ascii(seq![OPEN_BRACKET]));
    assert(ascii(seq![CLOSE_BRACKET]));
    lemma_ascii_concat(seq![OPEN_BRACKET], joined(s));
    lemma_ascii_concat(seq![OPEN_BRACKET] + joined(s), seq![CLOSE_BRACKET]);
}

fn write_points_text(v: &Vec<Vector2D>, out: &mut Vec<u8>)
    ensures
        final(out)@ == old(out)@ + points_text(v@),
        v@.len() <= u64::MAX,
{
    let n = v.len();
    out.push(OPEN_BRACKET);
    let ghost start = out@;
    let mut i: usize = 0;
    while i < n
        invariant
            n == v@.len(),
            i <= n,
            out@ == start + joined(v@.subrange(0, i as int)),
        decreases n - i,
    {
        let ghost before = out@;
        if i > 0 {
            out.push(COMMA);
        }
        write_vector2d_text(&v[i], out);
        proof {
            let s = v@.subrange(0, i + 1);
            assert(s.drop_last() =~= v@.subrange(0, i as int));
            if i == 0 {
                assert(joined(v@.subrange(0, 0)) =~= Seq::<u8>::empty());
            }
            assert(out@ =~= start + joined(s));
        }
        i = i + 1;
    }
    out.push(CLOSE_BRACKET);
    assert(v@.subrange(0, n as int) =~= v@);
    assert(final(out)@ =~= old(out)@ + points_text(v@));
}

// ---- polygon, prism and shapes ----

pub open spec fn polygon_text(s: Seq<Vector2D>) -> Seq<u8> {
    seq![OPEN_BRACE] + field_key(true, Field::Points) + points_text(s) + seq![CLOSE_BRACE]
}

proof fn lemma_polygon_text_ascii(s: Seq<Vector2D>)
    ensures
        ascii(polygon_text(s)),
{
    let a = seq![OPEN_BRACE];
    let k = field_key(true, Field::Points);
    let z = seq![CLOSE_BRACE];
    assert(ascii(a));
    assert(ascii(z));
    lemma_field_key_ascii(true, Field::Points);
    lemma_points_text_ascii(s);
    lemma_ascii_concat(a, k);
    lemma_ascii_concat(a + k, points_text(s));
    lemma_ascii_concat(a + k + points_text(s), z);
}

fn write_polygon_text(v: &Vec<Vector2D>, out: &mut Vec<u8>)
    ensures
        final(out)@ == old(out)@ + polygon_text(v@),
        v@.len() <= u64::MAX,
{
    out.push(OPEN_BRACE);
    write_field_key(out, true, Field::Points);
    write_points_text(v, out);
    out.push(CLOSE_BRACE);
    assert(final(out)@ =~= old(out)@ + polygon_text(v@));
}

pub open spec fn prism_text(m: PrismModel) -> Seq<u8> {
    seq![OPEN_BRACE] + field_key(true, Field::Base) + polygon_text(m.base) + field_key(
        false,
        Field::Height,
    ) + int_text(m.height as int) + seq![CLOSE_BRACE]
}

proof fn lemma_prism_text_ascii(m: PrismModel)
    ensures
        ascii(prism_text(m)),
{
    let a = seq![OPEN_BRACE];
    let k1 = field_key(true, Field::Base);
    let t1 = polygon_text(m.base);
    let k2 = field_key(false, Field::Height);
    let t2 = int_text(m.height as int);
    let z = seq![CLOSE_BRACE];
    assert(ascii(a));
    assert(ascii(z));
    lemma_field_key_ascii(true, Field::Base);
    lemma_field_key_ascii(false, Field::Height);
    lemma_polygon_text_ascii(m.base);
    lemma_int_text_ascii(m.height as int);
    lemma_ascii_concat(a, k1);
    lemma_ascii_concat(a + k1, t1);
    lemma_ascii_concat(a + k1 + t1, k2);
    lemma_ascii_concat(a + k1 + t1 + k2, t2);
    lemma_ascii_concat(a + k1 + t1 + k2 + t2, z);
}

fn write_prism_text(bh: &BaseHeight, out: &mut Vec<u8>)
    ensures
        final(out)@ == old(out)@ + prism_text(bh@),
        bh@.base.len() <= u64::MAX,
{
    out.push(OPEN_BRACE);
    write_field_key(out, true, Field::Base);
    write_polygon_text(&bh.base.points.0, out);
    write_field_key(out, false, Field::Height);
    write_u64_text(out, bh.height);
    out.push(CLOSE_BRACE);
    assert(final(out)@ =~= old(out)@ + prism_text(bh@));
}

/// `"BaseHeight":`, the key that names the prism variant.
pub open spec fn solid_text(m: SolidModel) -> Seq<u8> {
    match m {
        SolidModel::BaseHeight(p) => seq![OPEN_BRACE] + base_height_key() + prism_text(p) + seq![
            CLOSE_BRACE,
        ],
    }
}

proof fn lemma_solid_text_ascii(m: SolidModel)
    ensures
        ascii(solid_text(m)),
{
    match m {
        SolidModel::BaseHeight(p) => {
            let a = seq![OPEN_BRACE];
            let k = base_height_key();
            let z = seq![CLOSE_BRACE];
            assert(ascii(a));
            assert(ascii(k));
            assert(ascii(z));
            lemma_prism_text_ascii(p);
            lemma_ascii_concat(a, k);
            lemma_ascii_concat(a + k, prism_text(p));
            lemma_ascii_concat(a + k + prism_text(p), z);
        },
    }
}

fn push_base_height_key(out: &mut Vec<u8>)
    ensures
        final(out)@ == old(out)@ + base_height_key(),
{
    out.push(QUOTE);
    out.push(66u8);
    out.push(97u8);
    out.push(115u8);
    out.push(101u8);
    out.push(72u8);
    out.push(101u8);
    out.push(105u8);
    out.push(103u8);
    out.push(104u8);
    out.push(116u8);
    out.push(QUOTE);
    out.push(COLON);
    assert(final(out)@ =~= old(out)@ + base_height_key());
}

fn write_solid_text(s: &Shape3D, out: &mut Vec<u8>)
    ensures
        final(out)@ == old(out)@ + solid_text(s@),
        Shape3D::valid(s@),
{
    match s {
        Shape3D::BaseHeight(bh) => {
            out.push(OPEN_BRACE);
            push_base_height_key(out);
            write_prism_text(bh, out);
            out.push(CLOSE_BRACE);
        },
    }
    assert(final(out)@ =~= old(out)@ + solid_text(s@));
}

impl Text for Shape3D {
    open spec fn text(m: SolidModel) -> Seq<u8> {
        solid_text(m)
    }

    open spec fn parse_text(b: Seq<u8>, pos: int) -> Result<(SolidModel, int), DecodeError> {
        solid_parse_text(b, pos)
    }

    proof fn lemma_parse_text(m: SolidModel, b: Seq<u8>, pos: int) {
        lemma_solid_parse_text(m, b, pos);
    }

    proof fn lemma_text_ascii(m: SolidModel) {
        lemma_solid_text_ascii(m);
    }

    fn write_text(&self, out: &mut Vec<u8>) {
        write_solid_text(self, out);
    }

    fn read_text(b: &[u8], pos: usize) -> (r: Result<(Shape3D, usize), DecodeError>) {
        read_solid_text(b, pos)
    }
}

impl Text for PyShape3D {
    open spec fn text(m: SolidModel) -> Seq<u8> {
        solid_text(m)
    }

    open spec fn parse_text(b: Seq<u8>, pos: int) -> Result<(SolidModel, int), DecodeError> {
        solid_parse_text(b, pos)
    }

    proof fn lemma_parse_text(m: SolidModel, b: Seq<u8>, pos: int) {
        lemma_solid_parse_text(m, b, pos);
    }

    proof fn lemma_text_ascii(m: SolidModel) {
        lemma_solid_text_ascii(m);
    }

    fn write_text(&self, out: &mut Vec<u8>) {
        write_solid_text(&self.0, out);
    }

    fn read_text(b: &[u8], pos: usize) -> (r: Result<(PyShape3D, usize), DecodeError>) {
        match read_solid_text(b, pos) {
            Ok((s, p)) => Ok((PyShape3D(s), p)),
            Err(e) => Err(e),
        }
    }
}

/// Relies on `String::from_utf8`: on valid UTF-8 (here ASCII) it returns the
/// string whose bytes are exactly `b`.
#[verifier::external_body]
fn ascii_to_string(b: Vec<u8>) -> (r: String)
    requires
        ascii(b@),
    ensures
        encode_utf8(r@) == b@,
{
    match String::from_utf8(b) {
        Ok(s) => s,
        Err(_) => String::new(),
    }
}

/// Encodes a value in the structured text format.
pub fn to_json<T: Text>(v: &T) -> (r: String)
    ensures
        encode_utf8(r@) == T::text(v@),
        T::valid(v@),
{
    let mut out: Vec<u8> = Vec::new();
    v.write_text(&mut out);
    proof {
        assert(out@ =~= T::text(v@));
        T::lemma_text_ascii(v@);
    }
    ascii_to_string(out)
}

// ---- diagnostics and the 2D vector's own methods ----

/// `<Vector2D(x, y)>`.
pub open spec fn vector2d_repr(v: Vector2D) -> Seq<u8> {
    seq![60u8, 86, 101, 99, 116, 111, 114, 50, 68, 40] + int_text(v.x as int) + seq![44u8, 32]
        + int_text(v.y as int) + seq![41u8, 62]
}

impl Vector2D {
    /// A short diagnostic rendering, `<Vector2D(x, y)>`.
    pub fn describe(&self) -> (r: String)
        ensures
            encode_utf8(r@) == vector2d_repr(*self),
    {
        let mut out: Vec<u8> = Vec::new();
        out.push(60u8);
        out.push(86u8);
        out.push(101u8);
        out.push(99u8);
        out.push(116u8);
        out.push(111u8);
        out.push(114u8);
        out.push(50u8);
        out.push(68u8);
        out.push(40u8);
        let ghost a = out@;
        write_i64_text(&mut out, self.x);
        out.push(44u8);
        out.push(32u8);
        write_i64_text(&mut out, self.y);
        out.push(41u8);
        out.push(62u8);
        proof {
            let t1 = int_text(self.x as int);
            let t2 = int_text(self.y as int);
            let c = seq![44u8, 32];
            let z = seq![41u8, 62];
            assert(out@ =~= a + t1 + c + t2 + z);
            assert(ascii(a));
            assert(ascii(c));
            assert(ascii(z));
            lemma_int_text_ascii(self.x as int);
            lemma_int_text_ascii(self.y as int);
            lemma_ascii_concat(a, t1);
            lemma_ascii_concat(a + t1, c);
            lemma_ascii_concat(a + t1 + c, t2);
            lemma_ascii_concat(a + t1 + c + t2, z);
        }
        ascii_to_string(out)
    }

    /// The compact binary encoding: `x` then `y`, eight little-endian bytes each.
    pub fn to_bytes(&self) -> (r: Vec<u8>)
        ensures
            r@ == vector2d_wire(*self),
    {
        to_bytes(self)
    }

    pub fn from_bytes(b: &[u8]) -> (r: Result<Vector2D, DecodeError>)
        ensures
            match r {
                Ok(v) => decode_spec::<Vector2D>(b@) == Ok::<Vector2D, DecodeError>(v),
                Err(e) => decode_spec::<Vector2D>(b@) == Err::<Vector2D, DecodeError>(e),
            },
    {
        from_bytes(b)
    }

    /// The text encoding, `{"x":..,"y":..}`.
    pub fn to_json(&self) -> (r: String)
        ensures
            encode_utf8(r@) == vector2d_text(*self),
    {
        to_json(self)
    }

    pub fn from_json(s: &str) -> (r: Result<Vector2D, DecodeError>)
        ensures
            match r {
                Ok(v) => decode_text_spec::<Vector2D>(encode_utf8(s@)) == Ok::<
                    Vector2D,
                    DecodeError,
                >(v),
                Err(e) => decode_text_spec::<Vector2D>(encode_utf8(s@)) == Err::<
                    Vector2D,
                    DecodeError,
                >(e),
            },
    {
        from_json(s)
    }
}

// ---- objects and arrays ----

pub const BACKSLASH: u8 = 92;

/// Space, tab, line feed or carriage return.
pub open spec fn is_ws(c: u8) -> bool {
    c == 32 || c == 9 || c == 10 || c == 13
}

/// The first position at or after `i` that holds no whitespace.
pub open spec fn ws_end(b: Seq<u8>, i: int) -> int
    decreases b.len() - i,
{
    if 0 <= i < b.len() && is_ws(b[i]) {
        ws_end(b, i + 1)
    } else {
        i
    }
}

/// The first quote or backslash at or after `i`: where a key's characters end.
pub open spec fn string_end(b: Seq<u8>, i: int) -> int
    decreases b.len() - i,
{
    if 0 <= i < b.len() && b[i] != QUOTE && b[i] != BACKSLASH {
        string_end(b, i + 1)
    } else {
        i
    }
}

/// `"name":`
pub open spec fn quoted(name: Seq<u8>) -> Seq<u8> {
    seq![QUOTE] + name + seq![QUOTE, COLON]
}

/// Reads a key in quotes, then whitespace, a colon and whitespace: the key's
/// bytes and where its value starts. Escapes in keys are not accepted.
pub open spec fn key_parse(b: Seq<u8>, pos: int) -> Result<(Seq<u8>, int), DecodeError> {
    match expect_byte(b, pos, QUOTE) {
        Err(e) => Err(e),
        Ok(s) => {
            let end = string_end(b, s);
            if end >= b.len() {
                Err(DecodeError::UnexpectedEnd)
            } else if b[end] != QUOTE {
                Err(DecodeError::Syntax(end as usize))
            } else {
                match expect_byte(b, ws_end(b, end + 1), COLON) {
                    Err(e) => Err(e),
                    Ok(v) => Ok((b.subrange(s, end), ws_end(b, v))),
                }
            }
        },
    }
}

/// After a member or an element: whether a comma follows (then where the
/// next one starts) or the closing byte (then the position after it).
pub open spec fn after_value(b: Seq<u8>, q: int, close: u8) -> Result<(bool, int), DecodeError> {
    let c = ws_end(b, q);
    if c < 0 || c >= b.len() {
        Err(DecodeError::UnexpectedEnd)
    } else if b[c] == COMMA {
        Ok((true, ws_end(b, c + 1)))
    } else if b[c] == close {
        Ok((false, c + 1))
    } else {
        Err(DecodeError::Syntax(c as usize))
    }
}

/// Reads the opening byte after optional whitespace: whether the container
/// closes at once (then the position after it) or where its content starts.
pub open spec fn open_container(b: Seq<u8>, pos: int, open: u8, close: u8) -> Result<
    (bool, int),
    DecodeError,
> {
    match expect_byte(b, ws_end(b, pos), open) {
        Err(e) => Err(e),
        Ok(p) => {
            let q = ws_end(b, p);
            if 0 <= q < b.len() && b[q] == close {
                Ok((true, q + 1))
            } else {
                Ok((false, q))
            }
        },
    }
}

/// A name that needs no escape inside quotes.
pub open spec fn plain(name: Seq<u8>) -> bool {
    forall|k: int| 0 <= k < name.len() ==> #[trigger] name[k] != QUOTE && name[k] != BACKSLASH
}

fn skip_ws(b: &[u8], i: usize) -> (r: usize)
    requires
        i <= b@.len(),
    ensures
        r == ws_end(b@, i as int),
        i <= r <= b@.len(),
{
    let mut j = i;
    while j < b.len() && (b[j] == 32 || b[j] == 9 || b[j] == 10 || b[j] == 13)
        invariant
            i <= j <= b@.len(),
            b@.len() == b.len(),
            ws_end(b@, i as int) == ws_end(b@, j as int),
        decreases b@.len() - j,
    {
        j = j + 1;
    }
    j
}

/// Reads a key: where its bytes start and end, and where its value starts.
fn read_key(b: &[u8], pos: usize) -> (r: Result<(usize, usize, usize), DecodeError>)
    requires
        pos <= b@.len(),
    ensures
        match key_parse(b@, pos as int) {
            Err(e) => r == Err::<(usize, usize, usize), DecodeError>(e),
            Ok((k, p)) => r is Ok && ({
                let (s, e, n) = r->Ok_0;
                &&& k == b@.subrange(s as int, e as int)
                &&& p == n
                &&& pos < s <= e < n <= b@.len()
            }),
        },
{
    let s = match read_byte(b, pos, QUOTE) {
        Err(e) => return Err(e),
        Ok(s) => s,
    };
    let mut e = s;
    while e < b.len() && b[e] != QUOTE && b[e] != BACKSLASH
        invariant
            s <= e <= b@.len(),
            b@.len() == b.len(),
            string_end(b@, s as int) == string_end(b@, e as int),
        decreases b@.len() - e,
    {
        e = e + 1;
    }
    if e >= b.len() {
        return Err(DecodeError::UnexpectedEnd);
    }
    if b[e] != QUOTE {
        return Err(DecodeError::Syntax(e));
    }
    let c = skip_ws(b, e + 1);
    let v = match read_byte(b, c, COLON) {
        Err(x) => return Err(x),
        Ok(v) => v,
    };
    let n = skip_ws(b, v);
    Ok((s, e, n))
}

/// Whether the bytes from `s` to `e` are `name`.
fn key_is(b: &[u8], s: usize, e: usize, name: &Vec<u8>) -> (r: bool)
    requires
        s <= e <= b@.len(),
    ensures
        r == (b@.subrange(s as int, e as int) == name@),
{
    if e - s != name.len() {
        return false;
    }
    matches_at(b, s, name)
}

fn field_name_bytes(f: Field) -> (r: Vec<u8>)
    ensures
        r@ == field_name(f),
{
    let mut v: Vec<u8> = Vec::new();
    push_field_name(&mut v, f);
    assert(v@ =~= field_name(f));
    v
}

fn read_after_value(b: &[u8], q: usize, close: u8) -> (r: Result<(bool, usize), DecodeError>)
    requires
        q <= b@.len(),
    ensures
        match after_value(b@, q as int, close) {
            Err(e) => r == Err::<(bool, usize), DecodeError>(e),
            Ok((more, p)) => r is Ok && r->Ok_0.0 == more && r->Ok_0.1 == p && q < p <= b@.len(),
        },
{
    let c = skip_ws(b, q);
    if c >= b.len() {
        Err(DecodeError::UnexpectedEnd)
    } else if b[c] == COMMA {
        let n = skip_ws(b, c + 1);
        Ok((true, n))
    } else if b[c] == close {
        Ok((false, c + 1))
    } else {
        Err(DecodeError::Syntax(c))
    }
}

fn read_open(b: &[u8], pos: usize, open: u8, close: u8) -> (r: Result<(bool, usize), DecodeError>)
    requires
        pos <= b@.len(),
    ensures
        match open_container(b@, pos as int, open, close) {
            Err(e) => r == Err::<(bool, usize), DecodeError>(e),
            Ok((empty, p)) => r is Ok && r->Ok_0.0 == empty && r->Ok_0.1 == p && pos < p
                <= b@.len(),
        },
{
    let c = skip_ws(b, pos);
    let p = match read_byte(b, c, open) {
        Err(e) => return Err(e),
        Ok(p) => p,
    };
    let q = skip_ws(b, p);
    if q < b.len() && b[q] == close {
        Ok((true, q + 1))
    } else {
        Ok((false, q))
    }
}

proof fn lemma_string_end(b: Seq<u8>, i: int, j: int)
    requires
        0 <= i <= j < b.len(),
        forall|k: int| i <= k < j ==> #[trigger] b[k] != QUOTE && b[k] != BACKSLASH,
        b[j] == QUOTE,
    ensures
        string_end(b, i) == j,
    decreases j - i,
{
    if i < j {
        lemma_string_end(b, i + 1, j);
    }
}

/// A key written as `"name":` reads back when no whitespace follows it.
proof fn lemma_key_parse(name: Seq<u8>, b: Seq<u8>, pos: int)
    requires
        plain(name),
        has_at(b, pos, quoted(name)),
        pos + quoted(name).len() < b.len(),
        !is_ws(b[pos + quoted(name).len()]),
    ensures
        key_parse(b, pos) == Ok::<(Seq<u8>, int), DecodeError>(
            (name, pos + quoted(name).len()),
        ),
{
    let q = quoted(name);
    let n = name.len() as int;
    assert forall|k: int| pos + 1 <= k < pos + 1 + n implies #[trigger] b[k] != QUOTE && b[k]
        != BACKSLASH by {
        assert(b[k] == b.subrange(pos, pos + q.len())[k - pos]);
        assert(q[k - pos] == name[k - pos - 1]);
    }
    assert(b[pos] == b.subrange(pos, pos + q.len())[0]);
    assert(b[pos + 1 + n] == b.subrange(pos, pos + q.len())[1 + n]);
    assert(b[pos + 2 + n] == b.subrange(pos, pos + q.len())[2 + n]);
    lemma_string_end(b, pos + 1, pos + 1 + n);
    assert(b.subrange(pos + 1, pos + 1 + n) =~= name) by {
        assert forall|k: int| 0 <= k < n implies b.subrange(pos + 1, pos + 1 + n)[k] == name[k] by {
            assert(b[pos + 1 + k] == b.subrange(pos, pos + q.len())[1 + k]);
        }
    }
}

pub proof fn lemma_field_key(f: Field)
    ensures
        field_key(true, f) == quoted(field_name(f)),
        field_key(false, f) == seq![COMMA] + quoted(field_name(f)),
        plain(field_name(f)),
{
    assert(field_key(true, f) =~= quoted(field_name(f)));
    assert(field_key(false, f) =~= seq![COMMA] + quoted(field_name(f)));
    let nm = field_name(f);
    assert forall|k: int| 0 <= k < nm.len() implies #[trigger] nm[k] != QUOTE && nm[k]
        != BACKSLASH by {
        assert(ascii(nm));
        match f {
            Field::X => {},
            Field::Y => {},
            Field::Z => {},
            Field::Points => {},
            Field::Base => {},
            Field::Height => {},
        }
    }
}

pub proof fn lemma_int_text_first(v: int)
    ensures
        int_text(v).len() > 0,
        int_text(v)[0] == MINUS || is_digit(int_text(v)[0]),
{
    if v < 0 {
        lemma_digits((-v) as nat);
    } else {
        lemma_digits(v as nat);
    }
}

// ---- 2D and 3D vectors ----

pub open spec fn vector2d_finish(x: Option<i64>, y: Option<i64>, p: int) -> Result<
    (Vector2D, int),
    DecodeError,
> {
    match (x, y) {
        (Some(x), Some(y)) => Ok((Vector2D { x, y }, p)),
        (None, _) => Err(DecodeError::MissingField(Field::X)),
        (_, None) => Err(DecodeError::MissingField(Field::Y)),
    }
}

/// Reads the members of a 2D vector object from `pos` on, given those already
/// read. A key that is unknown or repeated is a syntax error at that key.
pub open spec fn vector2d_members(b: Seq<u8>, pos: int, x: Option<i64>, y: Option<i64>) -> Result<
    (Vector2D, int),
    DecodeError,
>
    decreases b.len() - pos,
{
    match key_parse(b, pos) {
        Err(e) => Err(e),
        Ok((k, p)) => if k == field_name(Field::X) && x is None {
            match i64_parse(b, p, Field::X) {
                Err(e) => Err(e),
                Ok((v, q)) => match after_value(b, q, CLOSE_BRACE) {
                    Err(e) => Err(e),
                    Ok((more, r)) => if !more {
                        vector2d_finish(Some(v), y, r)
                    } else if r <= pos || r > b.len() {
                        Err(DecodeError::UnexpectedEnd)
                    } else {
                        vector2d_members(b, r, Some(v), y)
                    },
                },
            }
        } else if k == field_name(Field::Y) && y is None {
            match i64_parse(b, p, Field::Y) {
                Err(e) => Err(e),
                Ok((v, q)) => match after_value(b, q, CLOSE_BRACE) {
                    Err(e) => Err(e),
                    Ok((more, r)) => if !more {
                        vector2d_finish(x, Some(v), r)
                    } else if r <= pos || r > b.len() {
                        Err(DecodeError::UnexpectedEnd)
                    } else {
                        vector2d_members(b, r, x, Some(v))
                    },
                },
            }
        } else {
            Err(DecodeError::Syntax(pos as usize))
        },
    }
}

/// A 2D vector object: its fields by name, in any order, with optional whitespace.
pub open spec fn vector2d_parse_text(b: Seq<u8>, pos: int) -> Result<(Vector2D, int), DecodeError> {
    match open_container(b, pos, OPEN_BRACE, CLOSE_BRACE) {
        Err(e) => Err(e),
        Ok((empty, p)) => if empty {
            vector2d_finish(None, None, p)
        } else {
            vector2d_members(b, p, None, None)
        },
    }
}

fn finish_vector2d(x: Option<i64>, y: Option<i64>, p: usize) -> (r: Result<
    (Vector2D, usize),
    DecodeError,
>)
    ensures
        lift::<Vector2D>(r) == vector2d_finish(x, y, p as int),
        r is Ok ==> r->Ok_0.1 == p,
{
    match (x, y) {
        (Some(x), Some(y)) => Ok((Vector2D { x, y }, p)),
        (None, _) => Err(DecodeError::MissingField(Field::X)),
        (_, None) => Err(DecodeError::MissingField(Field::Y)),
    }
}

fn read_vector2d_text(b: &[u8], pos: usize) -> (r: Result<(Vector2D, usize), DecodeError>)
    requires
        pos <= b@.len(),
    ensures
        lift::<Vector2D>(r) == vector2d_parse_text(b@, pos as int),
        r is Ok ==> pos < r->Ok_0.1 <= b@.len(),
{
    let (empty, p0) = match read_open(b, pos, OPEN_BRACE, CLOSE_BRACE) {
        Err(e) => return Err(e),
        Ok(t) => t,
    };
    if empty {
        return finish_vector2d(None, None, p0);
    }
    let xn = field_name_bytes(Field::X);
    let yn = field_name_bytes(Field::Y);
    let mut x: Option<i64> = None;
    let mut y: Option<i64> = None;
    let mut p = p0;
    loop
        invariant
            pos < p <= b@.len(),
            b@.len() == b.len(),
            xn@ == field_name(Field::X),
            yn@ == field_name(Field::Y),
            vector2d_parse_text(b@, pos as int) == vector2d_members(b@, p as int, x, y),
        decreases b@.len() - p,
    {
        let (s, e, n) = match read_key(b, p) {
            Err(er) => return Err(er),
            Ok(t) => t,
        };
        if x.is_none() && key_is(b, s, e, &xn) {
            let (v, q) = match read_i64_text(b, n, Field::X) {
                Err(er) => return Err(er),
                Ok(t) => t,
            };
            let (more, r) = match read_after_value(b, q, CLOSE_BRACE) {
                Err(er) => return Err(er),
                Ok(t) => t,
            };
            x = Some(v);
            if !more {
                return finish_vector2d(x, y, r);
            }
            p = r;
        } else if y.is_none() && key_is(b, s, e, &yn) {
            let (v, q) = match read_i64_text(b, n, Field::Y) {
                Err(er) => return Err(er),
                Ok(t) => t,
            };
            let (more, r) = match read_after_value(b, q, CLOSE_BRACE) {
                Err(er) => return Err(er),
                Ok(t) => t,
            };
            y = Some(v);
            if !more {
                return finish_vector2d(x, y, r);
            }
            p = r;
        } else {
            return Err(DecodeError::Syntax(p));
        }
    }
}

/// The comma between members, followed by a key, reads as a comma.
pub proof fn lemma_comma_then(b: Seq<u8>, q: int, close: u8, rest: Seq<u8>)
    requires
        has_at(b, q, seq![COMMA] + rest),
        rest.len() > 0,
        !is_ws(rest[0]),
    ensures
        after_value(b, q, close) == Ok::<(bool, int), DecodeError>((true, q + 1)),
{
    lemma_split(b, q, seq![COMMA], rest);
    lemma_byte_at(b, q, seq![COMMA]);
    lemma_byte_at(b, q + 1, rest);
}

pub proof fn lemma_close_then(b: Seq<u8>, q: int, close: u8)
    requires
        has_at(b, q, seq![close]),
        close != COMMA,
        !is_ws(close),
    ensures
        after_value(b, q, close) == Ok::<(bool, int), DecodeError>((false, q + 1)),
{
    lemma_byte_at(b, q, seq![close]);
}

pub proof fn lemma_names_differ()
    ensures
        field_name(Field::X) != field_name(Field::Y),
        field_name(Field::X) != field_name(Field::Z),
        field_name(Field::Y) != field_name(Field::Z),
        field_name(Field::Base) != field_name(Field::Height),
{
    assert(field_name(Field::X)[0] != field_name(Field::Y)[0]);
    assert(field_name(Field::X)[0] != field_name(Field::Z)[0]);
    assert(field_name(Field::Y)[0] != field_name(Field::Z)[0]);
    assert(field_name(Field::Base)[0] != field_name(Field::Height)[0]);
}

/// A member `"f":v` whose value text `t` starts with no whitespace: its key reads back.
pub proof fn lemma_member_key(b: Seq<u8>, p: int, f: Field, t: Seq<u8>)
    requires
        has_at(b, p, quoted(field_name(f))),
        has_at(b, p + quoted(field_name(f)).len(), t),
        t.len() > 0,
        !is_ws(t[0]),
    ensures
        key_parse(b, p) == Ok::<(Seq<u8>, int), DecodeError>(
            (field_name(f), p + quoted(field_name(f)).len()),
        ),
{
    lemma_field_key(f);
    lemma_byte_at(b, p + quoted(field_name(f)).len(), t);
    lemma_key_parse(field_name(f), b, p);
}

proof fn lemma_vector2d_parse_text(v: Vector2D, b: Seq<u8>, pos: int)
    requires
        has_at(b, pos, vector2d_text(v)),
    ensures
        vector2d_parse_text(b, pos) == Ok::<(Vector2D, int), DecodeError>(
            (v, pos + vector2d_text(v).len()),
        ),
{
    let a = seq![OPEN_BRACE];
    let k1 = field_key(true, Field::X);
    let t1 = int_text(v.x as int);
    let k2 = field_key(false, Field::Y);
    let t2 = int_text(v.y as int);
    let z = seq![CLOSE_BRACE];
    lemma_field_key(Field::X);
    lemma_field_key(Field::Y);
    lemma_names_differ();
    lemma_int_text_first(v.x as int);
    lemma_int_text_first(v.y as int);
    lemma_split(b, pos, a + k1 + t1 + k2 + t2, z);
    lemma_split(b, pos, a + k1 + t1 + k2, t2);
    lemma_split(b, pos, a + k1 + t1, k2);
    lemma_split(b, pos, a + k1, t1);
    lemma_split(b, pos, a, k1);
    lemma_byte_at(b, pos, a);
    let p1 = pos + 1;
    let p2 = p1 + k1.len();
    let p3 = p2 + t1.len();
    let p4 = p3 + k2.len();
    let p5 = p4 + t2.len();
    lemma_byte_at(b, p1, k1);
    assert(open_container(b, pos, OPEN_BRACE, CLOSE_BRACE) == Ok::<(bool, int), DecodeError>(
        (false, p1),
    ));
    lemma_member_key(b, p1, Field::X, t1);
    lemma_i64_field(v.x, b, p2, Field::X, k2);
    lemma_split(b, p3, seq![COMMA], quoted(field_name(Field::Y)));
    lemma_comma_then(b, p3, CLOSE_BRACE, quoted(field_name(Field::Y)));
    lemma_member_key(b, p3 + 1, Field::Y, t2);
    lemma_i64_field(v.y, b, p4, Field::Y, z);
    lemma_close_then(b, p5, CLOSE_BRACE);
    assert(vector2d_members(b, p3 + 1, Some(v.x), None) == Ok::<(Vector2D, int), DecodeError>(
        (v, p5 + 1),
    ));
    assert(vector2d_members(b, p1, None, None) == vector2d_members(b, p3 + 1, Some(v.x), None));
}

impl Text for Vector2D {
    open spec fn text(m: Vector2D) -> Seq<u8> {
        vector2d_text(m)
    }

    open spec fn parse_text(b: Seq<u8>, pos: int) -> Result<(Vector2D, int), DecodeError> {
        vector2d_parse_text(b, pos)
    }

    proof fn lemma_parse_text(m: Vector2D, b: Seq<u8>, pos: int) {
        lemma_vector2d_parse_text(m, b, pos);
    }

    proof fn lemma_text_ascii(m: Vector2D) {
        lemma_vector2d_text_ascii(m);
    }

    fn write_text(&self, out: &mut Vec<u8>) {
        write_vector2d_text(self, out);
    }

    fn read_text(b: &[u8], pos: usize) -> (r: Result<(Vector2D, usize), DecodeError>) {
        read_vector2d_text(b, pos)
    }
}

pub open spec fn vector3d_finish(x: Option<i64>, y: Option<i64>, z: Option<i64>, p: int) -> Result<
    (Vector3D, int),
    DecodeError,
> {
    match (x, y, z) {
        (Some(x), Some(y), Some(z)) => Ok((Vector3D { x, y, z }, p)),
        (None, _, _) => Err(DecodeError::MissingField(Field::X)),
        (_, None, _) => Err(DecodeError::MissingField(Field::Y)),
        (_, _, None) => Err(DecodeError::MissingField(Field::Z)),
    }
}

/// After a coordinate `v` of field `f` ends at `q`: the rest of a 3D vector object.
pub open spec fn vector3d_after(
    b: Seq<u8>,
    pos: int,
    q: int,
    x: Option<i64>,
    y: Option<i64>,
    z: Option<i64>,
) -> Result<(Vector3D, int), DecodeError>
    decreases b.len() - pos, 0int,
{
    match after_value(b, q, CLOSE_BRACE) {
        Err(e) => Err(e),
        Ok((more, r)) => if !more {
            vector3d_finish(x, y, z, r)
        } else if r <= pos || r > b.len() {
            Err(DecodeError::UnexpectedEnd)
        } else {
            vector3d_members(b, r, x, y, z)
        },
    }
}

/// Reads the members of a 3D vector object from `pos` on, given those already read.
pub open spec fn vector3d_members(
    b: Seq<u8>,
    pos: int,
    x: Option<i64>,
    y: Option<i64>,
    z: Option<i64>,
) -> Result<(Vector3D, int), DecodeError>
    decreases b.len() - pos, 1int,
{
    match key_parse(b, pos) {
        Err(e) => Err(e),
        Ok((k, p)) => if k == field_name(Field::X) && x is None {
            match i64_parse(b, p, Field::X) {
                Err(e) => Err(e),
                Ok((v, q)) => vector3d_after(b, pos, q, Some(v), y, z),
            }
        } else if k == field_name(Field::Y) && y is None {
            match i64_parse(b, p, Field::Y) {
                Err(e) => Err(e),
                Ok((v, q)) => vector3d_after(b, pos, q, x, Some(v), z),
            }
        } else if k == field_name(Field::Z) && z is None {
            match i64_parse(b, p, Field::Z) {
                Err(e) => Err(e),
                Ok((v, q)) => vector3d_after(b, pos, q, x, y, Some(v)),
            }
        } else {
            Err(DecodeError::Syntax(pos as usize))
        },
    }
}

/// A 3D vector object: its fields by name, in any order, with optional whitespace.
pub open spec fn vector3d_parse_text(b: Seq<u8>, pos: int) -> Result<(Vector3D, int), DecodeError> {
    match open_container(b, pos, OPEN_BRACE, CLOSE_BRACE) {
        Err(e) => Err(e),
        Ok((empty, p)) => if empty {
            vector3d_finish(None, None, None, p)
        } else {
            vector3d_members(b, p, None, None, None)
        },
    }
}

fn finish_vector3d(x: Option<i64>, y: Option<i64>, z: Option<i64>, p: usize) -> (r: Result<
    (Vector3D, usize),
    DecodeError,
>)
    ensures
        lift::<Vector3D>(r) == vector3d_finish(x, y, z, p as int),
{
    match (x, y, z) {
        (Some(x), Some(y), Some(z)) => Ok((Vector3D { x, y, z }, p)),
        (None, _, _) => Err(DecodeError::MissingField(Field::X)),
        (_, None, _) => Err(DecodeError::MissingField(Field::Y)),
        (_, _, None) => Err(DecodeError::MissingField(Field::Z)),
    }
}

fn read_vector3d_text(b: &[u8], pos: usize) -> (r: Result<(Vector3D, usize), DecodeError>)
    requires
        pos <= b@.len(),
    ensures
        lift::<Vector3D>(r) == vector3d_parse_text(b@, pos as int),
{
    let (empty, p0) = match read_open(b, pos, OPEN_BRACE, CLOSE_BRACE) {
        Err(e) => return Err(e),
        Ok(t) => t,
    };
    if empty {
        return finish_vector3d(None, None, None, p0);
    }
    let xn = field_name_bytes(Field::X);
    let yn = field_name_bytes(Field::Y);
    let zn = field_name_bytes(Field::Z);
    let mut x: Option<i64> = None;
    let mut y: Option<i64> = None;
    let mut z: Option<i64> = None;
    let mut p = p0;
    loop
        invariant
            pos < p <= b@.len(),
            b@.len() == b.len(),
            xn@ == field_name(Field::X),
            yn@ == field_name(Field::Y),
            zn@ == field_name(Field::Z),
            vector3d_parse_text(b@, pos as int) == vector3d_members(b@, p as int, x, y, z),
        decreases b@.len() - p,
    {
        let (s, e, n) = match read_key(b, p) {
            Err(er) => return Err(er),
            Ok(t) => t,
        };
        let f = if x.is_none() && key_is(b, s, e, &xn) {
            Field::X
        } else if y.is_none() && key_is(b, s, e, &yn) {
            Field::Y
        } else if z.is_none() && key_is(b, s, e, &zn) {
            Field::Z
        } else {
            return Err(DecodeError::Syntax(p));
        };
        let (v, q) = match read_i64_text(b, n, f) {
            Err(er) => return Err(er),
            Ok(t) => t,
        };
        match f {
            Field::X => x = Some(v),
            Field::Y => y = Some(v),
            _ => z = Some(v),
        }
        let (more, r) = match read_after_value(b, q, CLOSE_BRACE) {
            Err(er) => return Err(er),
            Ok(t) => t,
        };
        if !more {
            return finish_vector3d(x, y, z, r);
        }
        p = r;
    }
}

impl Text for Vector3D {
    open spec fn text(m: Vector3D) -> Seq<u8> {
        vector3d_text(m)
    }

    open spec fn parse_text(b: Seq<u8>, pos: int) -> Result<(Vector3D, int), DecodeError> {
        vector3d_parse_text(b, pos)
    }

    proof fn lemma_parse_text(m: Vector3D, b: Seq<u8>, pos: int) {
        let a = seq![OPEN_BRACE];
        let k1 = field_key(true, Field::X);
        let t1 = int_text(m.x as int);
        let k2 = field_key(false, Field::Y);
        let t2 = int_text(m.y as int);
        let k3 = field_key(false, Field::Z);
        let t3 = int_text(m.z as int);
        let z = seq![CLOSE_BRACE];
        lemma_field_key(Field::X);
        lemma_field_key(Field::Y);
        lemma_field_key(Field::Z);
        lemma_names_differ();
        lemma_int_text_first(m.x as int);
        lemma_int_text_first(m.y as int);
        lemma_int_text_first(m.z as int);
        lemma_split(b, pos, a + k1 + t1 + k2 + t2 + k3 + t3, z);
        lemma_split(b, pos, a + k1 + t1 + k2 + t2 + k3, t3);
        lemma_split(b, pos, a + k1 + t1 + k2 + t2, k3);
        lemma_split(b, pos, a + k1 + t1 + k2, t2);
        lemma_split(b, pos, a + k1 + t1, k2);
        lemma_split(b, pos, a + k1, t1);
        lemma_split(b, pos, a, k1);
        lemma_byte_at(b, pos, a);
        let p1 = pos + 1;
        let p2 = p1 + k1.len();
        let p3 = p2 + t1.len();
        let p4 = p3 + k2.len();
        let p5 = p4 + t2.len();
        let p6 = p5 + k3.len();
        let p7 = p6 + t3.len();
        lemma_byte_at(b, p1, k1);
        assert(open_container(b, pos, OPEN_BRACE, CLOSE_BRACE) == Ok::<(bool, int), DecodeError>(
            (false, p1),
        ));
        lemma_member_key(b, p1, Field::X, t1);
        lemma_i64_field(m.x, b, p2, Field::X, k2);
        lemma_split(b, p3, seq![COMMA], quoted(field_name(Field::Y)));
        lemma_comma_then(b, p3, CLOSE_BRACE, quoted(field_name(Field::Y)));
        lemma_member_key(b, p3 + 1, Field::Y, t2);
        lemma_i64_field(m.y, b, p4, Field::Y, k3);
        lemma_split(b, p5, seq![COMMA], quoted(field_name(Field::Z)));
        lemma_comma_then(b, p5, CLOSE_BRACE, quoted(field_name(Field::Z)));
        lemma_member_key(b, p5 + 1, Field::Z, t3);
        lemma_i64_field(m.z, b, p6, Field::Z, z);
        lemma_close_then(b, p7, CLOSE_BRACE);
        let (sx, sy, sz) = (Some(m.x), Some(m.y), Some(m.z));
        assert(vector3d_after(b, p5 + 1, p7, sx, sy, sz) == Ok::<(Vector3D, int), DecodeError>(
            (m, p7 + 1),
        ));
        assert(vector3d_members(b, p5 + 1, sx, sy, None) == Ok::<(Vector3D, int), DecodeError>(
            (m, p7 + 1),
        ));
        assert(vector3d_after(b, p3 + 1, p5, sx, sy, None) == vector3d_members(
            b,
            p5 + 1,
            sx,
            sy,
            None,
        ));
        assert(vector3d_members(b, p3 + 1, sx, None, None) == vector3d_members(
            b,
            p5 + 1,
            sx,
            sy,
            None,
        ));
        assert(vector3d_after(b, p1, p3, sx, None, None) == vector3d_members(
            b,
            p3 + 1,
            sx,
            None,
            None,
        ));
        assert(vector3d_members(b, p1, None, None, None) == vector3d_members(
            b,
            p3 + 1,
            sx,
            None,
            None,
        ));
    }

    proof fn lemma_text_ascii(m: Vector3D) {
        let a = seq![OPEN_BRACE];
        let k1 = field_key(true, Field::X);
        let t1 = int_text(m.x as int);
        let k2 = field_key(false, Field::Y);
        let t2 = int_text(m.y as int);
        let k3 = field_key(false, Field::Z);
        let t3 = int_text(m.z as int);
        let z = seq![CLOSE_BRACE];
        assert(ascii(a));
        assert(ascii(z));
        lemma_field_key_ascii(true, Field::X);
        lemma_field_key_ascii(false, Field::Y);
        lemma_field_key_ascii(false, Field::Z);
        lemma_int_text_ascii(m.x as int);
        lemma_int_text_ascii(m.y as int);
        lemma_int_text_ascii(m.z as int);
        lemma_ascii_concat(a, k1);
        lemma_ascii_concat(a + k1, t1);
        lemma_ascii_concat(a + k1 + t1, k2);
        lemma_ascii_concat(a + k1 + t1 + k2, t2);
        lemma_ascii_concat(a + k1 + t1 + k2 + t2, k3);
        lemma_ascii_concat(a + k1 + t1 + k2 + t2 + k3, t3);
        lemma_ascii_concat(a + k1 + t1 + k2 + t2 + k3 + t3, z);
    }

    fn write_text(&self, out: &mut Vec<u8>) {
        out.push(OPEN_BRACE);
        write_field_key(out, true, Field::X);
        write_i64_text(out, self.x);
        write_field_key(out, false, Field::Y);
        write_i64_text(out, self.y);
        write_field_key(out, false, Field::Z);
        write_i64_text(out, self.z);
        out.push(CLOSE_BRACE);
        assert(final(out)@ =~= old(out)@ + vector3d_text(*self));
    }

    fn read_text(b: &[u8], pos: usize) -> (r: Result<(Vector3D, usize), DecodeError>) {
        read_vector3d_text(b, pos)
    }
}

// ---- arrays, polygons, prisms and shapes ----

/// Reads points from `pos` on, after those in `acc`, up to the closing bracket.
pub open spec fn items_parse(b: Seq<u8>, pos: int, acc: Seq<Vector2D>) -> Result<
    (Seq<Vector2D>, int),
    DecodeError,
>
    decreases b.len() - pos,
{
    match vector2d_parse_text(b, pos) {
        Err(e) => Err(e),
        Ok((v, p)) => match after_value(b, p, CLOSE_BRACKET) {
            Err(e) => Err(e),
            Ok((more, r)) => if !more {
                Ok((acc.push(v), r))
            } else if r <= pos || r > b.len() {
                Err(DecodeError::UnexpectedEnd)
            } else {
                items_parse(b, r, acc.push(v))
            },
        },
    }
}

/// An array of points, with optional whitespace.
pub open spec fn points_parse_text(b: Seq<u8>, pos: int) -> Result<
    (Seq<Vector2D>, int),
    DecodeError,
> {
    match open_container(b, pos, OPEN_BRACKET, CLOSE_BRACKET) {
        Err(e) => Err(e),
        Ok((empty, p)) => if empty {
            Ok((Seq::empty(), p))
        } else {
            items_parse(b, p, Seq::empty())
        },
    }
}

proof fn lemma_items_parse(s: Seq<Vector2D>, b: Seq<u8>, pos: int, acc: Seq<Vector2D>)
    requires
        s.len() >= 1,
        has_at(b, pos, joined(s) + seq![CLOSE_BRACKET]),
    ensures
        items_parse(b, pos, acc) == Ok::<(Seq<Vector2D>, int), DecodeError>(
            (acc + s, pos + joined(s).len() + 1),
        ),
    decreases s.len(),
{
    let t = vector2d_text(s[0]);
    if s.len() == 1 {
        lemma_split(b, pos, t, seq![CLOSE_BRACKET]);
        lemma_vector2d_parse_text(s[0], b, pos);
        lemma_close_then(b, pos + t.len(), CLOSE_BRACKET);
        assert(acc.push(s[0]) =~= acc + s);
    } else {
        lemma_joined_front(s);
        let rest = joined(s.drop_first()) + seq![CLOSE_BRACKET];
        assert(joined(s) + seq![CLOSE_BRACKET] =~= t + (seq![COMMA] + rest));
        lemma_split(b, pos, t, seq![COMMA] + rest);
        lemma_vector2d_parse_text(s[0], b, pos);
        lemma_joined_first(s.drop_first());
        assert(rest[0] == OPEN_BRACE);
        lemma_comma_then(b, pos + t.len(), CLOSE_BRACKET, rest);
        lemma_split(b, pos + t.len(), seq![COMMA], rest);
        lemma_items_parse(s.drop_first(), b, pos + t.len() + 1, acc.push(s[0]));
        assert(acc.push(s[0]) + s.drop_first() =~= acc + s);
    }
}

proof fn lemma_points_parse_text(s: Seq<Vector2D>, b: Seq<u8>, pos: int)
    requires
        has_at(b, pos, points_text(s)),
    ensures
        points_parse_text(b, pos) == Ok::<(Seq<Vector2D>, int), DecodeError>(
            (s, pos + points_text(s).len()),
        ),
{
    let rest = joined(s) + seq![CLOSE_BRACKET];
    assert(points_text(s) =~= seq![OPEN_BRACKET] + rest);
    lemma_split(b, pos, seq![OPEN_BRACKET], rest);
    lemma_byte_at(b, pos, seq![OPEN_BRACKET]);
    if s.len() == 0 {
        assert(rest =~= seq![CLOSE_BRACKET]);
        lemma_byte_at(b, pos + 1, rest);
        assert(s =~= Seq::<Vector2D>::empty());
    } else {
        lemma_joined_first(s);
        assert(rest[0] == OPEN_BRACE);
        lemma_byte_at(b, pos + 1, rest);
        lemma_items_parse(s, b, pos + 1, Seq::empty());
        assert(Seq::<Vector2D>::empty() + s =~= s);
    }
}

fn read_points_text(b: &[u8], pos: usize) -> (r: Result<(Vec<Vector2D>, usize), DecodeError>)
    requires
        pos <= b@.len(),
    ensures
        match r {
            Ok((v, p)) => points_parse_text(b@, pos as int) == Ok::<
                (Seq<Vector2D>, int),
                DecodeError,
            >((v@, p as int)) && pos < p <= b@.len(),
            Err(e) => points_parse_text(b@, pos as int) == Err::<(Seq<Vector2D>, int), DecodeError>(
                e,
            ),
        },
{
    let (empty, p0) = match read_open(b, pos, OPEN_BRACKET, CLOSE_BRACKET) {
        Err(e) => return Err(e),
        Ok(t) => t,
    };
    let mut v: Vec<Vector2D> = Vec::new();
    if empty {
        return Ok((v, p0));
    }
    let mut p = p0;
    loop
        invariant
            pos < p <= b@.len(),
            b@.len() == b.len(),
            points_parse_text(b@, pos as int) == items_parse(b@, p as int, v@),
        decreases b@.len() - p,
    {
        let (pt, q) = match read_vector2d_text(b, p) {
            Err(e) => return Err(e),
            Ok(t) => t,
        };
        let (more, r) = match read_after_value(b, q, CLOSE_BRACKET) {
            Err(e) => return Err(e),
            Ok(t) => t,
        };
        v.push(pt);
        if !more {
            return Ok((v, r));
        }
        p = r;
    }
}

impl Text for Points2D {
    open spec fn text(m: Seq<Vector2D>) -> Seq<u8> {
        points_text(m)
    }

    open spec fn parse_text(b: Seq<u8>, pos: int) -> Result<(Seq<Vector2D>, int), DecodeError> {
        points_parse_text(b, pos)
    }

    proof fn lemma_parse_text(m: Seq<Vector2D>, b: Seq<u8>, pos: int) {
        lemma_points_parse_text(m, b, pos);
    }

    proof fn lemma_text_ascii(m: Seq<Vector2D>) {
        lemma_points_text_ascii(m);
    }

    fn write_text(&self, out: &mut Vec<u8>) {
        write_points_text(&self.0, out);
    }

    fn read_text(b: &[u8], pos: usize) -> (r: Result<(Points2D, usize), DecodeError>) {
        match read_points_text(b, pos) {
            Ok((v, p)) => Ok((Points2D(v), p)),
            Err(e) => Err(e),
        }
    }
}

pub open spec fn polygon_finish(pts: Option<Seq<Vector2D>>, p: int) -> Result<
    (Seq<Vector2D>, int),
    DecodeError,
> {
    match pts {
        Some(s) => Ok((s, p)),
        None => Err(DecodeError::MissingField(Field::Points)),
    }
}

/// Reads the members of a polygon object from `pos` on.
pub open spec fn polygon_members(b: Seq<u8>, pos: int, pts: Option<Seq<Vector2D>>) -> Result<
    (Seq<Vector2D>, int),
    DecodeError,
>
    decreases b.len() - pos,
{
    match key_parse(b, pos) {
        Err(e) => Err(e),
        Ok((k, p)) => if k == field_name(Field::Points) && pts is None {
            match points_parse_text(b, p) {
                Err(e) => Err(e),
                Ok((s, q)) => match after_value(b, q, CLOSE_BRACE) {
                    Err(e) => Err(e),
                    Ok((more, r)) => if !more {
                        polygon_finish(Some(s), r)
                    } else if r <= pos || r > b.len() {
                        Err(DecodeError::UnexpectedEnd)
                    } else {
                        polygon_members(b, r, Some(s))
                    },
                },
            }
        } else {
            Err(DecodeError::Syntax(pos as usize))
        },
    }
}

/// A polygon object, with optional whitespace.
pub open spec fn polygon_parse_text(b: Seq<u8>, pos: int) -> Result<
    (Seq<Vector2D>, int),
    DecodeError,
> {
    match open_container(b, pos, OPEN_BRACE, CLOSE_BRACE) {
        Err(e) => Err(e),
        Ok((empty, p)) => if empty {
            polygon_finish(None, p)
        } else {
            polygon_members(b, p, None)
        },
    }
}

proof fn lemma_polygon_parse_text(s: Seq<Vector2D>, b: Seq<u8>, pos: int)
    requires
        has_at(b, pos, polygon_text(s)),
    ensures
        polygon_parse_text(b, pos) == Ok::<(Seq<Vector2D>, int), DecodeError>(
            (s, pos + polygon_text(s).len()),
        ),
{
    let a = seq![OPEN_BRACE];
    let k = field_key(true, Field::Points);
    let t = points_text(s);
    let z = seq![CLOSE_BRACE];
    lemma_field_key(Field::Points);
    lemma_split(b, pos, a + k + t, z);
    lemma_split(b, pos, a + k, t);
    lemma_split(b, pos, a, k);
    lemma_byte_at(b, pos, a);
    lemma_byte_at(b, pos + 1, k);
    let p2 = pos + 1 + k.len();
    assert(t[0] == OPEN_BRACKET);
    lemma_member_key(b, pos + 1, Field::Points, t);
    lemma_points_parse_text(s, b, p2);
    lemma_close_then(b, p2 + t.len(), CLOSE_BRACE);
}

fn read_polygon_text(b: &[u8], pos: usize) -> (r: Result<(Polygon2D, usize), DecodeError>)
    requires
        pos <= b@.len(),
    ensures
        lift::<Polygon2D>(r) == polygon_parse_text(b@, pos as int),
        r is Ok ==> pos < r->Ok_0.1 <= b@.len(),
{
    let (empty, p0) = match read_open(b, pos, OPEN_BRACE, CLOSE_BRACE) {
        Err(e) => return Err(e),
        Ok(t) => t,
    };
    if empty {
        return Err(DecodeError::MissingField(Field::Points));
    }
    let pn = field_name_bytes(Field::Points);
    let mut pts: Option<Vec<Vector2D>> = None;
    let mut p = p0;
    loop
        invariant
            pos < p <= b@.len(),
            b@.len() == b.len(),
            pn@ == field_name(Field::Points),
            polygon_parse_text(b@, pos as int) == polygon_members(
                b@,
                p as int,
                match pts {
                    Some(v) => Some(v@),
                    None => None,
                },
            ),
        decreases b@.len() - p,
    {
        let (s, e, n) = match read_key(b, p) {
            Err(er) => return Err(er),
            Ok(t) => t,
        };
        if pts.is_none() && key_is(b, s, e, &pn) {
            let (v, q) = match read_points_text(b, n) {
                Err(er) => return Err(er),
                Ok(t) => t,
            };
            let (more, r) = match read_after_value(b, q, CLOSE_BRACE) {
                Err(er) => return Err(er),
                Ok(t) => t,
            };
            if !more {
                return Ok((Polygon2D { points: Points2D(v) }, r));
            }
            pts = Some(v);
            p = r;
        } else {
            return Err(DecodeError::Syntax(p));
        }
    }
}

impl Text for Polygon2D {
    open spec fn text(m: Seq<Vector2D>) -> Seq<u8> {
        polygon_text(m)
    }

    open spec fn parse_text(b: Seq<u8>, pos: int) -> Result<(Seq<Vector2D>, int), DecodeError> {
        polygon_parse_text(b, pos)
    }

    proof fn lemma_parse_text(m: Seq<Vector2D>, b: Seq<u8>, pos: int) {
        lemma_polygon_parse_text(m, b, pos);
    }

    proof fn lemma_text_ascii(m: Seq<Vector2D>) {
        lemma_polygon_text_ascii(m);
    }

    fn write_text(&self, out: &mut Vec<u8>) {
        write_polygon_text(&self.points.0, out);
    }

    fn read_text(b: &[u8], pos: usize) -> (r: Result<(Polygon2D, usize), DecodeError>) {
        read_polygon_text(b, pos)
    }
}

pub open spec fn prism_finish(base: Option<Seq<Vector2D>>, height: Option<u64>, p: int) -> Result<
    (PrismModel, int),
    DecodeError,
> {
    match (base, height) {
        (Some(s), Some(h)) => Ok((PrismModel { base: s, height: h }, p)),
        (None, _) => Err(DecodeError::MissingField(Field::Base)),
        (_, None) => Err(DecodeError::MissingField(Field::Height)),
    }
}

/// Reads the members of a prism object from `pos` on, given those already read.
pub open spec fn prism_members(
    b: Seq<u8>,
    pos: int,
    base: Option<Seq<Vector2D>>,
    height: Option<u64>,
) -> Result<(PrismModel, int), DecodeError>
    decreases b.len() - pos,
{
    match key_parse(b, pos) {
        Err(e) => Err(e),
        Ok((k, p)) => if k == field_name(Field::Base) && base is None {
            match polygon_parse_text(b, p) {
                Err(e) => Err(e),
                Ok((s, q)) => match after_value(b, q, CLOSE_BRACE) {
                    Err(e) => Err(e),
                    Ok((more, r)) => if !more {
                        prism_finish(Some(s), height, r)
                    } else if r <= pos || r > b.len() {
                        Err(DecodeError::UnexpectedEnd)
                    } else {
                        prism_members(b, r, Some(s), height)
                    },
                },
            }
        } else if k == field_name(Field::Height) && height is None {
            match u64_parse(b, p, Field::Height) {
                Err(e) => Err(e),
                Ok((h, q)) => match after_value(b, q, CLOSE_BRACE) {
                    Err(e) => Err(e),
                    Ok((more, r)) => if !more {
                        prism_finish(base, Some(h), r)
                    } else if r <= pos || r > b.len() {
                        Err(DecodeError::UnexpectedEnd)
                    } else {
                        prism_members(b, r, base, Some(h))
                    },
                },
            }
        } else {
            Err(DecodeError::Syntax(pos as usize))
        },
    }
}

/// A prism object: its fields by name, in any order, with optional whitespace.
pub open spec fn prism_parse_text(b: Seq<u8>, pos: int) -> Result<(PrismModel, int), DecodeError> {
    match open_container(b, pos, OPEN_BRACE, CLOSE_BRACE) {
        Err(e) => Err(e),
        Ok((empty, p)) => if empty {
            prism_finish(None, None, p)
        } else {
            prism_members(b, p, None, None)
        },
    }
}

proof fn lemma_prism_parse_text(m: PrismModel, b: Seq<u8>, pos: int)
    requires
        has_at(b, pos, prism_text(m)),
    ensures
        prism_parse_text(b, pos) == Ok::<(PrismModel, int), DecodeError>(
            (m, pos + prism_text(m).len()),
        ),
{
    let a = seq![OPEN_BRACE];
    let k1 = field_key(true, Field::Base);
    let t1 = polygon_text(m.base);
    let k2 = field_key(false, Field::Height);
    let t2 = int_text(m.height as int);
    let z = seq![CLOSE_BRACE];
    lemma_field_key(Field::Base);
    lemma_field_key(Field::Height);
    lemma_names_differ();
    lemma_int_text_first(m.height as int);
    lemma_split(b, pos, a + k1 + t1 + k2 + t2, z);
    lemma_split(b, pos, a + k1 + t1 + k2, t2);
    lemma_split(b, pos, a + k1 + t1, k2);
    lemma_split(b, pos, a + k1, t1);
    lemma_split(b, pos, a, k1);
    lemma_byte_at(b, pos, a);
    let p1 = pos + 1;
    let p2 = p1 + k1.len();
    let p3 = p2 + t1.len();
    let p4 = p3 + k2.len();
    let p5 = p4 + t2.len();
    lemma_byte_at(b, p1, k1);
    assert(open_container(b, pos, OPEN_BRACE, CLOSE_BRACE) == Ok::<(bool, int), DecodeError>(
        (false, p1),
    ));
    assert(t1[0] == OPEN_BRACE);
    lemma_member_key(b, p1, Field::Base, t1);
    lemma_polygon_parse_text(m.base, b, p2);
    lemma_split(b, p3, seq![COMMA], quoted(field_name(Field::Height)));
    lemma_comma_then(b, p3, CLOSE_BRACE, quoted(field_name(Field::Height)));
    lemma_member_key(b, p3 + 1, Field::Height, t2);
    lemma_u64_field(m.height, b, p4, Field::Height, z);
    lemma_close_then(b, p5, CLOSE_BRACE);
    assert(prism_members(b, p3 + 1, Some(m.base), None) == Ok::<(PrismModel, int), DecodeError>(
        (m, p5 + 1),
    ));
    assert(prism_members(b, p1, None, None) == prism_members(b, p3 + 1, Some(m.base), None));
}

fn read_prism_text(b: &[u8], pos: usize) -> (r: Result<(BaseHeight, usize), DecodeError>)
    requires
        pos <= b@.len(),
    ensures
        lift::<BaseHeight>(r) == prism_parse_text(b@, pos as int),
        r is Ok ==> pos < r->Ok_0.1 <= b@.len(),
{
    let (empty, p0) = match read_open(b, pos, OPEN_BRACE, CLOSE_BRACE) {
        Err(e) => return Err(e),
        Ok(t) => t,
    };
    if empty {
        return Err(DecodeError::MissingField(Field::Base));
    }
    let bn = field_name_bytes(Field::Base);
    let hn = field_name_bytes(Field::Height);
    let mut base: Option<Polygon2D> = None;
    let mut height: Option<u64> = None;
    let mut p = p0;
    loop
        invariant
            pos < p <= b@.len(),
            b@.len() == b.len(),
            bn@ == field_name(Field::Base),
            hn@ == field_name(Field::Height),
            prism_parse_text(b@, pos as int) == prism_members(
                b@,
                p as int,
                match base {
                    Some(v) => Some(v@),
                    None => None,
                },
                height,
            ),
        decreases b@.len() - p,
    {
        let (s, e, n) = match read_key(b, p) {
            Err(er) => return Err(er),
            Ok(t) => t,
        };
        let q;
        if base.is_none() && key_is(b, s, e, &bn) {
            let (v, q1) = match read_polygon_text(b, n) {
                Err(er) => return Err(er),
                Ok(t) => t,
            };
            base = Some(v);
            q = q1;
        } else if height.is_none() && key_is(b, s, e, &hn) {
            let (h, q1) = match read_u64_text(b, n, Field::Height) {
                Err(er) => return Err(er),
                Ok(t) => t,
            };
            height = Some(h);
            q = q1;
        } else {
            return Err(DecodeError::Syntax(p));
        }
        let (more, r) = match read_after_value(b, q, CLOSE_BRACE) {
            Err(er) => return Err(er),
            Ok(t) => t,
        };
        if !more {
            return match (base, height) {
                (Some(bs), Some(h)) => Ok((BaseHeight { base: bs, height: h }, r)),
                (None, _) => Err(DecodeError::MissingField(Field::Base)),
                (_, None) => Err(DecodeError::MissingField(Field::Height)),
            };
        }
        p = r;
    }
}

impl Text for BaseHeight {
    open spec fn text(m: PrismModel) -> Seq<u8> {
        prism_text(m)
    }

    open spec fn parse_text(b: Seq<u8>, pos: int) -> Result<(PrismModel, int), DecodeError> {
        prism_parse_text(b, pos)
    }

    proof fn lemma_parse_text(m: PrismModel, b: Seq<u8>, pos: int) {
        lemma_prism_parse_text(m, b, pos);
    }

    proof fn lemma_text_ascii(m: PrismModel) {
        lemma_prism_text_ascii(m);
    }

    fn write_text(&self, out: &mut Vec<u8>) {
        write_prism_text(self, out);
    }

    fn read_text(b: &[u8], pos: usize) -> (r: Result<(BaseHeight, usize), DecodeError>) {
        read_prism_text(b, pos)
    }
}

/// `BaseHeight`, the name of the prism variant.
pub open spec fn base_height_name() -> Seq<u8> {
    seq![66u8, 97, 115, 101, 72, 101, 105, 103, 104, 116]
}

/// `"BaseHeight":`
pub open spec fn base_height_key() -> Seq<u8> {
    quoted(base_height_name())
}

/// A shape object: one key naming the variant, with its payload.
pub open spec fn solid_parse_text(b: Seq<u8>, pos: int) -> Result<(SolidModel, int), DecodeError> {
    match expect_byte(b, ws_end(b, pos), OPEN_BRACE) {
        Err(e) => Err(e),
        Ok(p) => {
            let q = ws_end(b, p);
            match key_parse(b, q) {
                Err(e) => Err(e),
                Ok((k, v)) => if k == base_height_name() {
                    match prism_parse_text(b, v) {
                        Err(e) => Err(e),
                        Ok((m, r)) => match expect_byte(b, ws_end(b, r), CLOSE_BRACE) {
                            Err(e) => Err(e),
                            Ok(e) => Ok((SolidModel::BaseHeight(m), e)),
                        },
                    }
                } else {
                    Err(DecodeError::UnknownVariantName(q as usize))
                },
            }
        },
    }
}

proof fn lemma_solid_parse_text(m: SolidModel, b: Seq<u8>, pos: int)
    requires
        has_at(b, pos, solid_text(m)),
    ensures
        solid_parse_text(b, pos) == Ok::<(SolidModel, int), DecodeError>(
            (m, pos + solid_text(m).len()),
        ),
{
    match m {
        SolidModel::BaseHeight(p) => {
            let a = seq![OPEN_BRACE];
            let k = base_height_key();
            let t = prism_text(p);
            let z = seq![CLOSE_BRACE];
            lemma_split(b, pos, a + k + t, z);
            lemma_split(b, pos, a + k, t);
            lemma_split(b, pos, a, k);
            lemma_byte_at(b, pos, a);
            lemma_byte_at(b, pos + 1, k);
            assert(t[0] == OPEN_BRACE);
            lemma_byte_at(b, pos + 1 + k.len(), t);
            assert(plain(base_height_name())) by {
                assert(ascii(base_height_name()));
            }
            lemma_key_parse(base_height_name(), b, pos + 1);
            lemma_prism_parse_text(p, b, pos + 1 + k.len());
            lemma_byte_at(b, pos + 1 + k.len() + t.len(), z);
        },
    }
}

fn base_height_name_bytes() -> (r: Vec<u8>)
    ensures
        r@ == base_height_name(),
{
    let mut v: Vec<u8> = Vec::new();
    v.push(66u8);
    v.push(97u8);
    v.push(115u8);
    v.push(101u8);
    v.push(72u8);
    v.push(101u8);
    v.push(105u8);
    v.push(103u8);
    v.push(104u8);
    v.push(116u8);
    assert(v@ =~= base_height_name());
    v
}

fn read_solid_text(b: &[u8], pos: usize) -> (r: Result<(Shape3D, usize), DecodeError>)
    requires
        pos <= b@.len(),
    ensures
        lift::<Shape3D>(r) == solid_parse_text(b@, pos as int),
{
    let c = skip_ws(b, pos);
    let p = match read_byte(b, c, OPEN_BRACE) {
        Err(e) => return Err(e),
        Ok(p) => p,
    };
    let q = skip_ws(b, p);
    let (s, e, n) = match read_key(b, q) {
        Err(er) => return Err(er),
        Ok(t) => t,
    };
    let name = base_height_name_bytes();
    if !key_is(b, s, e, &name) {
        return Err(DecodeError::UnknownVariantName(q));
    }
    let (bh, r) = match read_prism_text(b, n) {
        Err(er) => return Err(er),
        Ok(t) => t,
    };
    let c2 = skip_ws(b, r);
    let end = match read_byte(b, c2, CLOSE_BRACE) {
        Err(er) => return Err(er),
        Ok(t) => t,
    };
    Ok((Shape3D::BaseHeight(bh), end))
}

// ---- whole texts ----

/// Decoding a whole text: one value, with optional whitespace after it.
pub open spec fn decode_text_spec<T: Text>(b: Seq<u8>) -> Result<T::V, DecodeError> {
    match T::parse_text(b, 0) {
        Ok((m, p)) => if ws_end(b, p) == b.len() {
            Ok(m)
        } else {
            Err(DecodeError::TrailingBytes)
        },
        Err(e) => Err(e),
    }
}

/// Decodes a value from a text in the structured text format.
pub fn from_json<T: Text>(s: &str) -> (r: Result<T, DecodeError>)
    ensures
        match r {
            Ok(v) => decode_text_spec::<T>(encode_utf8(s@)) == Ok::<T::V, DecodeError>(v@),
            Err(e) => decode_text_spec::<T>(encode_utf8(s@)) == Err::<T::V, DecodeError>(e),
        },
{
    let b = s.as_bytes();
    match T::read_text(b, 0) {
        Ok((v, p)) => {
            if p > b.len() {
                return Err(DecodeError::TrailingBytes);
            }
            if skip_ws(b, p) == b.len() {
                Ok(v)
            } else {
                Err(DecodeError::TrailingBytes)
            }
        },
        Err(e) => Err(e),
    }
}

/// Decoding the text of any value gives that value back.
pub proof fn law_text_round_trip<T: Text>(m: T::V)
    requires
        T::valid(m),
    ensures
        decode_text_spec::<T>(T::text(m)) == Ok::<T::V, DecodeError>(m),
{
    let w = T::text(m);
    assert(w.subrange(0, w.len() as int) =~= w);
    T::lemma_parse_text(m, w, 0);
}

} // verus!
