//! The RGB cell color and its canonical hex-string encoding.

use vstd::prelude::*;
use vstd::string::StringExecFns;

verus! {

/// One cell color: three 8-bit channels, compared channel for channel.
#[derive(Clone, Copy, Debug, Hash, PartialEq, Eq, Structural)]
pub struct Rgb8 {
    pub r: u8,
    pub g: u8,
    pub b: u8,
}

/// The sentinel "outline" color: pixels of this color separate cells and
/// never appear inside a grid row.
pub open spec fn spec_separator_color() -> Rgb8 {
    Rgb8 { r: 32, g: 32, b: 32 }
}

/// Returns the sentinel separator color.
#[verifier::when_used_as_spec(spec_separator_color)]
pub fn separator_color() -> (c: Rgb8)
    ensures
        c == spec_separator_color(),
{
    Rgb8 { r: 32, g: 32, b: 32 }
}

/// The uppercase hex digit for a value below sixteen.
pub open spec fn spec_hex_char(d: int) -> char {
    if d == 0 {
        '0'
    } else if d == 1 {
        '1'
    } else if d == 2 {
        '2'
    } else if d == 3 {
        '3'
    } else if d == 4 {
        '4'
    } else if d == 5 {
        '5'
    } else if d == 6 {
        '6'
    } else if d == 7 {
        '7'
    } else if d == 8 {
        '8'
    } else if d == 9 {
        '9'
    } else if d == 10 {
        'A'
    } else if d == 11 {
        'B'
    } else if d == 12 {
        'C'
    } else if d == 13 {
        'D'
    } else if d == 14 {
        'E'
    } else {
        'F'
    }
}

/// The canonical encoding of a color: `#` followed by each channel as two
/// uppercase hex digits.
pub open spec fn spec_to_hex(c: Rgb8) -> Seq<char> {
    seq![
        '#',
        spec_hex_char(c.r as int / 16),
        spec_hex_char(c.r as int % 16),
        spec_hex_char(c.g as int / 16),
        spec_hex_char(c.g as int % 16),
        spec_hex_char(c.b as int / 16),
        spec_hex_char(c.b as int % 16),
    ]
}

fn hex_digit_str(d: u8) -> (s: &'static str)
    requires
        d < 16,
    ensures
        s@.len() == 1,
        s@[0] == spec_hex_char(d as int),
{
    proof {
        reveal_strlit("0");
        reveal_strlit("1");
        reveal_strlit("2");
        reveal_strlit("3");
        reveal_strlit("4");
        reveal_strlit("5");
        reveal_strlit("6");
        reveal_strlit("7");
        reveal_strlit("8");
        reveal_strlit("9");
        reveal_strlit("A");
        reveal_strlit("B");
        reveal_strlit("C");
        reveal_strlit("D");
        reveal_strlit("E");
        reveal_strlit("F");
    }
    match d {
        0 => "0",
        1 => "1",
        2 => "2",
        3 => "3",
        4 => "4",
        5 => "5",
        6 => "6",
        7 => "7",
        8 => "8",
        9 => "9",
        10 => "A",
        11 => "B",
        12 => "C",
        13 => "D",
        14 => "E",
        _ => "F",
    }
}

impl Rgb8 {
    /// Renders the color as `#RRGGBB` with uppercase, zero-padded digits.
    pub fn to_hex(&self) -> (s: String)
        ensures
            s@ == spec_to_hex(*self),
    {
        proof {
            reveal_strlit("#");
        }
        let mut s = "#".to_owned();
        s.append(hex_digit_str(self.r / 16));
        s.append(hex_digit_str(self.r % 16));
        s.append(hex_digit_str(self.g / 16));
        s.append(hex_digit_str(self.g % 16));
        s.append(hex_digit_str(self.b / 16));
        s.append(hex_digit_str(self.b % 16));
        proof {
            assert(s@ =~= spec_to_hex(*self));
        }
        s
    }
}

} // verus!
