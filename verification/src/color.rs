//! Reading tag colors: `#rrggbb` hex triples and `hsl(h, s%, l%)` texts. The hex form
//! is read here to its three bytes; of the HSL form this module picks out the three
//! numbers' texts, which the caller turns into a color.
use vstd::prelude::*;
use vstd::string::StringSliceAdditionalSpecFns;
use crate::text::{
    chars_of, split, split_chars, starts_with, starts_with_chars, string_of, sub_chars, trim,
    trim_chars, trim_trailing, trim_trailing_chars, views,
};

verus! {

/// A tag color as read from its text.
#[derive(Debug)]
pub enum ColorSpec {
    /// Red, green and blue.
    Rgb(u8, u8, u8),
    /// The texts of hue, saturation and lightness, without `°` or `%`.
    Hsl(String, String, String),
    /// Not a color this reads: shown white.
    White,
}

/// A tag color as plain values.
pub enum ColorModel {
    Rgb(u8, u8, u8),
    Hsl(Seq<char>, Seq<char>, Seq<char>),
    White,
}

impl ColorSpec {
    pub open spec fn model(&self) -> ColorModel {
        match self {
            ColorSpec::Rgb(r, g, b) => ColorModel::Rgb(*r, *g, *b),
            ColorSpec::Hsl(h, s, l) => ColorModel::Hsl(h@, s@, l@),
            ColorSpec::White => ColorModel::White,
        }
    }
}

/// The value of the hexadecimal digit with ASCII code `b`, if it is one.
pub open spec fn hex_digit_value(b: u8) -> Option<u8> {
    if 0x30 <= b <= 0x39 {
        Some((b - 0x30) as u8)
    } else if 0x61 <= b <= 0x66 {
        Some((b - 0x61 + 10) as u8)
    } else if 0x41 <= b <= 0x46 {
        Some((b - 0x41 + 10) as u8)
    } else {
        None
    }
}

/// What `u8::from_str_radix(_, 16)` makes of the two bytes `x y`, 0 where it fails: two
/// hex digits, or a `+` sign and one hex digit.
pub open spec fn hex_pair(x: u8, y: u8) -> u8 {
    match (hex_digit_value(x), hex_digit_value(y)) {
        (Some(a), Some(b)) => (a * 16 + b) as u8,
        _ => if x == 0x2b {
            match hex_digit_value(y) {
                Some(b) => b,
                None => 0,
            }
        } else {
            0
        },
    }
}

/// `s` with every leading copy of `p` taken off (`str::trim_start_matches`).
pub open spec fn strip_all_prefix(s: Seq<char>, p: Seq<char>) -> Seq<char>
    decreases s.len(),
{
    if p.len() > 0 && starts_with(s, p) {
        strip_all_prefix(s.skip(p.len() as int), p)
    } else {
        s
    }
}

/// The text is a hex color: `#` and six more bytes.
pub open spec fn is_hex_form(c: &str) -> bool {
    c@.len() > 0 && c@[0] == '#' && c.spec_bytes().len() == 7
}

/// The color that the text `c` stands for: a hex color's three bytes; the three parts of
/// an `hsl(...)` text split at commas (trimmed, without a trailing `°` or `%`); else white.
pub open spec fn color_of(c: &str) -> ColorModel {
    if is_hex_form(c) {
        let b = c.spec_bytes();
        ColorModel::Rgb(hex_pair(b[1], b[2]), hex_pair(b[3], b[4]), hex_pair(b[5], b[6]))
    } else if starts_with(c@, seq!['h', 's', 'l', '(']) {
        let parts = split(trim_trailing(strip_all_prefix(c@, seq!['h', 's', 'l', '(']), ')'), ',');
        if parts.len() == 3 {
            ColorModel::Hsl(
                trim_trailing(trim(parts[0]), '°'),
                trim_trailing(trim(parts[1]), '%'),
                trim_trailing(trim(parts[2]), '%'),
            )
        } else {
            ColorModel::White
        }
    } else {
        ColorModel::White
    }
}

/// The value of one hex digit byte.
fn hex_digit(b: u8) -> (r: Option<u8>)
    ensures
        r == hex_digit_value(b),
{
    if 0x30 <= b && b <= 0x39 {
        Some(b - 0x30)
    } else if 0x61 <= b && b <= 0x66 {
        Some(b - 0x61 + 10)
    } else if 0x41 <= b && b <= 0x46 {
        Some(b - 0x41 + 10)
    } else {
        None
    }
}

/// Two bytes read as a hex number, 0 where that fails.
fn read_pair(x: u8, y: u8) -> (r: u8)
    ensures
        r == hex_pair(x, y),
{
    match (hex_digit(x), hex_digit(y)) {
        (Some(a), Some(b)) => a * 16 + b,
        _ => if x == 0x2b {
            match hex_digit(y) {
                Some(b) => b,
                None => 0,
            }
        } else {
            0
        },
    }
}

/// Reads a tag color. In a hex color the pairs of bytes after `#` must each be whole
/// characters.
pub fn parse_color(color: &str) -> (r: ColorSpec)
    requires
        is_hex_form(color) ==> vstd::utf8::is_char_boundary(color.spec_bytes(), 3)
            && vstd::utf8::is_char_boundary(color.spec_bytes(), 5),
    ensures
        r.model() == color_of(color),
{
    let chars = chars_of(color);
    if chars.len() > 0 && chars[0] == '#' && color.len() == 7 {
        let b = color.as_bytes();
        return ColorSpec::Rgb(read_pair(b[1], b[2]), read_pair(b[3], b[4]), read_pair(b[5], b[6]));
    }
    let prefix: Vec<char> = vec!['h', 's', 'l', '('];
    proof {
        assert(prefix@ =~= seq!['h', 's', 'l', '(']);
    }
    if !starts_with_chars(chars.as_slice(), prefix.as_slice()) {
        return ColorSpec::White;
    }
    let mut rest = chars;
    while starts_with_chars(rest.as_slice(), prefix.as_slice())
        invariant
            prefix@ == seq!['h', 's', 'l', '('],
            strip_all_prefix(color@, prefix@) == strip_all_prefix(rest@, prefix@),
        decreases rest@.len(),
    {
        rest = sub_chars(rest.as_slice(), 4, rest.len());
    }
    let body = trim_trailing_chars(rest.as_slice(), ')');
    let parts = split_chars(body.as_slice(), ',');
    proof {
        assert(views(parts@) == split(trim_trailing(strip_all_prefix(color@, prefix@), ')'), ','));
    }
    if parts.len() == 3 {
        let h = trim_trailing_chars(trim_chars(parts[0].as_slice()).as_slice(), '°');
        let s = trim_trailing_chars(trim_chars(parts[1].as_slice()).as_slice(), '%');
        let l = trim_trailing_chars(trim_chars(parts[2].as_slice()).as_slice(), '%');
        proof {
            assert(parts@[0]@ == views(parts@)[0]);
            assert(parts@[1]@ == views(parts@)[1]);
            assert(parts@[2]@ == views(parts@)[2]);
        }
        ColorSpec::Hsl(string_of(h.as_slice()), string_of(s.as_slice()), string_of(l.as_slice()))
    } else {
        ColorSpec::White
    }
}

} // verus!
