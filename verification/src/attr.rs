//! The table's presentational attributes: which of them the table reacts
//! to, how their values are parsed, and what the parsed values become.
use vstd::prelude::*;
use vstd::string::StringExecFns;

verus! {

/// The attributes that a table element treats specially.
#[derive(Clone, Copy, PartialEq, Eq, Structural, Debug)]
pub enum TableAttr {
    Border,
    CellPadding,
    CellSpacing,
    Width,
    BgColor,
    /// Any other attribute.
    Other,
}

/// The attribute that a local name names.
pub open spec fn table_attr_of(name: Seq<char>) -> TableAttr {
    if name == "border"@ {
        TableAttr::Border
    } else if name == "cellpadding"@ {
        TableAttr::CellPadding
    } else if name == "cellspacing"@ {
        TableAttr::CellSpacing
    } else if name == "width"@ {
        TableAttr::Width
    } else if name == "bgcolor"@ {
        TableAttr::BgColor
    } else {
        TableAttr::Other
    }
}

impl TableAttr {
    /// The attribute with the local name `name`.
    pub fn from_local_name(name: &str) -> (r: TableAttr)
        ensures
            r == table_attr_of(name@),
    {
        let name = String::from_str(name);
        if name == String::from_str("border") {
            TableAttr::Border
        } else if name == String::from_str("cellpadding") {
            TableAttr::CellPadding
        } else if name == String::from_str("cellspacing") {
            TableAttr::CellSpacing
        } else if name == String::from_str("width") {
            TableAttr::Width
        } else if name == String::from_str("bgcolor") {
            TableAttr::BgColor
        } else {
            TableAttr::Other
        }
    }
}

/// Whether `c` is an HTML space character: space, tab, line feed, form
/// feed or carriage return.
pub open spec fn is_html_space(c: char) -> bool {
    c == ' ' || c == '\t' || c == '\n' || c == '\u{000c}' || c == '\r'
}

/// Whether `c` is an ASCII digit.
pub open spec fn is_ascii_digit(c: char) -> bool {
    '0' <= c && c <= '9'
}

/// The number of HTML space characters that `s` starts with.
pub open spec fn leading_spaces(s: Seq<char>) -> nat
    decreases s.len(),
{
    if s.len() > 0 && is_html_space(s[0]) {
        1 + leading_spaces(s.drop_first())
    } else {
        0
    }
}

/// The number of ASCII digits that `s` starts with.
pub open spec fn leading_digits(s: Seq<char>) -> nat
    decreases s.len(),
{
    if s.len() > 0 && is_ascii_digit(s[0]) {
        1 + leading_digits(s.drop_first())
    } else {
        0
    }
}

/// The number that the decimal digits `s` write.
pub open spec fn digits_value(s: Seq<char>) -> nat
    decreases s.len(),
{
    if s.len() == 0 {
        0
    } else {
        digits_value(s.drop_last()) * 10 + (s.last() as int - '0' as int) as nat
    }
}

/// What the HTML rules for parsing non-negative integers give for `input`:
/// after any leading HTML spaces, an optional `+` or `-` and at least one
/// ASCII digit; the digits that follow are read and the rest is ignored.
/// The result is an error when no digit comes, when the number is negative
/// (`-0` is zero), or when it does not fit in a `u32`.
pub open spec fn non_negative_integer(input: Seq<char>) -> Result<u32, ()> {
    let s = input.skip(leading_spaces(input) as int);
    let negative = s.len() > 0 && s[0] == '-';
    let rest = if s.len() > 0 && (s[0] == '-' || s[0] == '+') {
        s.drop_first()
    } else {
        s
    };
    let n = leading_digits(rest);
    let value = digits_value(rest.take(n as int));
    if n == 0 || (negative && value != 0) || value > u32::MAX {
        Err(())
    } else {
        Ok(value as u32)
    }
}

/// Parses `value` through `style::attr::parse_unsigned_integer` on its
/// characters. Its contract claims that the call follows the HTML rules for
/// parsing non-negative integers as `non_negative_integer` states them: it
/// skips the HTML spaces, takes one sign, reads the ASCII digits that follow
/// into an `i64` (failing on overflow), applies the sign and fails unless
/// the result fits in a `u32`.
#[verifier::external_body]
pub(crate) fn parse_unsigned_integer(value: &str) -> (r: Result<u32, ()>)
    ensures
        r == non_negative_integer(value@),
{
    style::attr::parse_unsigned_integer(value.chars())
}

/// The greatest value an unsigned attribute reflects; a greater value
/// reflects as the default.
pub const UNSIGNED_LONG_MAX: u32 = 2147483647;

/// The value an unsigned attribute with default `default` reflects, given
/// what its text parses to.
pub open spec fn reflected_unsigned(parsed: Result<u32, ()>, default: u32) -> u32 {
    match parsed {
        Ok(n) => if n > UNSIGNED_LONG_MAX {
            default
        } else {
            n
        },
        Err(_) => default,
    }
}

/// The value an unsigned attribute with default `default` reflects, given
/// what its text parses to.
pub fn reflect_unsigned(parsed: Result<u32, ()>, default: u32) -> (r: u32)
    ensures
        r == reflected_unsigned(parsed, default),
{
    let result = match parsed {
        Ok(n) => n,
        Err(_) => default,
    };
    if result > UNSIGNED_LONG_MAX {
        default
    } else {
        result
    }
}

/// An attribute value as the table parses it.
pub enum PlainAttribute {
    /// An unsigned integer, with the text it was parsed from.
    UInt(String, u32),
    /// Text to be parsed as a non-zero dimension.
    NonzeroDimension(String),
    /// Text to be parsed as a legacy colour.
    LegacyColor(String),
    /// Text that the table leaves to the generic element to parse.
    Inherited(String),
}

/// The text an attribute change leaves: `None` when the attribute was removed.
pub open spec fn new_text(new_value: Option<&str>) -> Option<Seq<char>> {
    match new_value {
        Some(v) => Some(v@),
        None => None,
    }
}

/// What an attribute's text parses to by the HTML rules for non-negative
/// integers: none when the attribute was removed.
pub open spec fn parsed_text(text: Option<Seq<char>>) -> Option<Result<u32, ()>> {
    match text {
        Some(t) => Some(non_negative_integer(t)),
        None => None,
    }
}

/// The text a reflecting getter gives for an attribute: empty when it is
/// not set.
pub open spec fn reflected_text(text: Option<Seq<char>>) -> Seq<char> {
    match text {
        Some(t) => t,
        None => Seq::empty(),
    }
}

/// The border width that a parsed `border` value gives: a value that does
/// not parse means a border of one pixel, a removed attribute none.
pub open spec fn border_value(parsed: Option<Result<u32, ()>>) -> Option<u32> {
    match parsed {
        Some(Ok(n)) => Some(n),
        Some(Err(_)) => Some(1),
        None => None,
    }
}

/// The spacing that a parsed `cellpadding` or `cellspacing` value gives:
/// none when the value does not parse or the attribute was removed.
pub open spec fn spacing_value(parsed: Option<Result<u32, ()>>) -> Option<u32> {
    match parsed {
        Some(Ok(n)) => Some(n),
        _ => None,
    }
}

} // verus!
