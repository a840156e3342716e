use vstd::prelude::*;

verus! {

/// A named field of one of the shape types.
#[derive(Clone, Copy, Debug, PartialEq, Eq, Structural)]
pub enum Field {
    X,
    Y,
    Z,
    Points,
    Base,
    Height,
}

/// The name of a field as it appears in text.
pub open spec fn field_chars(f: Field) -> Seq<char> {
    match f {
        Field::X => "x"@,
        Field::Y => "y"@,
        Field::Z => "z"@,
        Field::Points => "points"@,
        Field::Base => "base"@,
        Field::Height => "height"@,
    }
}

impl Field {
    pub fn name(&self) -> (r: &'static str)
        ensures
            r@ == field_chars(*self),
    {
        match self {
            Field::X => "x",
            Field::Y => "y",
            Field::Z => "z",
            Field::Points => "points",
            Field::Base => "base",
            Field::Height => "height",
        }
    }
}

/// Why a byte or text blob could not be decoded.
#[derive(Clone, Copy, Debug, PartialEq, Eq, Structural)]
pub enum DecodeError {
    /// The input ended before the value was complete.
    UnexpectedEnd,
    /// A complete value was read but input remained after it.
    TrailingBytes,
    /// A binary union discriminant that names no known variant.
    UnknownVariant(u32),
    /// A text union key, starting at this offset, that names no known variant.
    UnknownVariantName(usize),
    /// A required field of a text object is absent.
    MissingField(Field),
    /// The byte at this offset does not fit the grammar.
    Syntax(usize),
    /// A number in text does not fit its field's integer type.
    OutOfRange(Field),
}

/// The decimal digit `d` as text.
pub open spec fn digit_chars(d: nat) -> Seq<char> {
    if d == 0 {
        "0"@
    } else if d == 1 {
        "1"@
    } else if d == 2 {
        "2"@
    } else if d == 3 {
        "3"@
    } else if d == 4 {
        "4"@
    } else if d == 5 {
        "5"@
    } else if d == 6 {
        "6"@
    } else if d == 7 {
        "7"@
    } else if d == 8 {
        "8"@
    } else {
        "9"@
    }
}

/// `n` in decimal.
pub open spec fn decimal_chars(n: nat) -> Seq<char>
    decreases n,
{
    if n < 10 {
        digit_chars(n)
    } else {
        decimal_chars(n / 10) + digit_chars(n % 10)
    }
}

/// The description of each error.
pub open spec fn error_text(e: DecodeError) -> Seq<char> {
    match e {
        DecodeError::UnexpectedEnd => "unexpected end of input"@,
        DecodeError::TrailingBytes => "trailing input after value"@,
        DecodeError::UnknownVariant(t) => "unknown variant discriminant "@ + decimal_chars(
            t as nat,
        ),
        DecodeError::UnknownVariantName(p) => "unknown variant name at offset "@ + decimal_chars(
            p as nat,
        ),
        DecodeError::MissingField(f) => "missing field `"@ + field_chars(f) + "`"@,
        DecodeError::Syntax(p) => "malformed input at offset "@ + decimal_chars(p as nat),
        DecodeError::OutOfRange(f) => "number out of range for field `"@ + field_chars(f)
            + "`"@,
    }
}

fn append_decimal(s: &mut String, n: u64)
    ensures
        final(s)@ == old(s)@ + decimal_chars(n as nat),
    decreases n,
{
    if n >= 10 {
        append_decimal(s, n / 10);
    }
    let d = n % 10;
    if d == 0 {
        s.append("0");
    } else if d == 1 {
        s.append("1");
    } else if d == 2 {
        s.append("2");
    } else if d == 3 {
        s.append("3");
    } else if d == 4 {
        s.append("4");
    } else if d == 5 {
        s.append("5");
    } else if d == 6 {
        s.append("6");
    } else if d == 7 {
        s.append("7");
    } else if d == 8 {
        s.append("8");
    } else {
        s.append("9");
    }
    assert(final(s)@ =~= old(s)@ + decimal_chars(n as nat));
}

impl DecodeError {
    /// A human-readable description of the failure, with the offset or the
    /// discriminant where the error carries one.
    pub fn describe(&self) -> (r: String)
        ensures
            r@ == error_text(*self),
    {
        match self {
            DecodeError::UnexpectedEnd => String::from_str("unexpected end of input"),
            DecodeError::TrailingBytes => String::from_str("trailing input after value"),
            DecodeError::UnknownVariant(t) => {
                let mut s = String::from_str("unknown variant discriminant ");
                append_decimal(&mut s, *t as u64);
                s
            },
            DecodeError::UnknownVariantName(p) => {
                let mut s = String::from_str("unknown variant name at offset ");
                append_decimal(&mut s, *p as u64);
                s
            },
            DecodeError::MissingField(f) => {
                let mut s = String::from_str("missing field `");
                s.append(f.name());
                s.append("`");
                s
            },
            DecodeError::Syntax(p) => {
                let mut s = String::from_str("malformed input at offset ");
                append_decimal(&mut s, *p as u64);
                s
            },
            DecodeError::OutOfRange(f) => {
                let mut s = String::from_str("number out of range for field `");
                s.append(f.name());
                s.append("`");
                s
            },
        }
    }
}

} // verus!
