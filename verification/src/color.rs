//! Display colors for tiles, written in configuration files as `#rrggbb`
//! hexadecimal strings.  The solver itself never reads a color; it is carried
//! for whoever renders the grid.

use vstd::prelude::*;

verus! {

/// An RGB display color, one byte per channel.
#[derive(Clone, Copy, Debug, Default, PartialEq, Eq, Structural)]
pub struct HexColor(pub u8, pub u8, pub u8);

/// True when `c` is an ASCII hexadecimal digit, upper or lower case.
pub open spec fn is_hex_digit(c: char) -> bool {
    (48 <= c as int && c as int <= 57)  // '0'..'9'
    || (97 <= c as int && c as int <= 102)  // 'a'..'f'
    || (65 <= c as int && c as int <= 70)  // 'A'..'F'
}

/// The numeric value of a hexadecimal digit (0 for anything else).
pub open spec fn hex_val(c: char) -> int {
    if 48 <= c as int && c as int <= 57 {
        c as int - 48
    } else if 97 <= c as int && c as int <= 102 {
        c as int - 87
    } else if 65 <= c as int && c as int <= 70 {
        c as int - 55
    } else {
        0
    }
}

/// A well-formed color string: `#` followed by exactly six hexadecimal digits.
pub open spec fn valid_hex_color(s: Seq<char>) -> bool {
    &&& s.len() == 7
    &&& s[0] == '#'
    &&& forall|i: int| 1 <= i < 7 ==> is_hex_digit(#[trigger] s[i])
}

/// The color a well-formed `#rrggbb` string denotes; `None` on any other string.
pub open spec fn hex_color_of(s: Seq<char>) -> Option<HexColor> {
    if valid_hex_color(s) {
        Some(
            HexColor(
                (hex_val(s[1]) * 16 + hex_val(s[2])) as u8,
                (hex_val(s[3]) * 16 + hex_val(s[4])) as u8,
                (hex_val(s[5]) * 16 + hex_val(s[6])) as u8,
            ),
        )
    } else {
        None
    }
}

/// The lower-case hexadecimal digit for a value below sixteen.
pub open spec fn nibble_char(v: int) -> char {
    if v == 0 { '0' } else if v == 1 { '1' } else if v == 2 { '2' } else if v == 3 { '3' }
    else if v == 4 { '4' } else if v == 5 { '5' } else if v == 6 { '6' } else if v == 7 { '7' }
    else if v == 8 { '8' } else if v == 9 { '9' } else if v == 10 { 'a' } else if v == 11 { 'b' }
    else if v == 12 { 'c' } else if v == 13 { 'd' } else if v == 14 { 'e' } else { 'f' }
}

/// The canonical `#rrggbb` rendering of a color, lower-case digits.
pub open spec fn hex_seq(c: HexColor) -> Seq<char> {
    seq![
        '#',
        nibble_char(c.0 as int / 16),
        nibble_char(c.0 as int % 16),
        nibble_char(c.1 as int / 16),
        nibble_char(c.1 as int % 16),
        nibble_char(c.2 as int / 16),
        nibble_char(c.2 as int % 16),
    ]
}

fn hex_digit_val(c: char) -> (r: Option<u8>)
    ensures
        r is Some <==> is_hex_digit(c),
        r is Some ==> r->0 as int == hex_val(c) && r->0 < 16,
{
    let u = c as u32;
    if 48 <= u && u <= 57 {
        Some((u - 48) as u8)
    } else if 97 <= u && u <= 102 {
        Some((u - 87) as u8)
    } else if 65 <= u && u <= 70 {
        Some((u - 55) as u8)
    } else {
        None
    }
}

fn nibble_str(v: u8) -> (r: &'static str)
    requires
        v < 16,
    ensures
        r@ =~= seq![nibble_char(v as int)],
{
    proof {
        reveal_strlit("0");
        reveal_strlit("1");
        reveal_strlit("2");
        reveal_strlit("3");
        reveal_strlit("4");
        reveal_strlit("5");
        reveal_strlit("6");
        reveal_strlit("7");
        reveal_strlit("8");
        reveal_strlit("9");
        reveal_strlit("a");
        reveal_strlit("b");
        reveal_strlit("c");
        reveal_strlit("d");
        reveal_strlit("e");
        reveal_strlit("f");
    }
    match v {
        0 => "0",
        1 => "1",
        2 => "2",
        3 => "3",
        4 => "4",
        5 => "5",
        6 => "6",
        7 => "7",
        8 => "8",
        9 => "9",
        10 => "a",
        11 => "b",
        12 => "c",
        13 => "d",
        14 => "e",
        _ => "f",
    }
}

impl HexColor {
    /// Parses a `#rrggbb` string, upper or lower case digits; `None` on any
    /// other shape.
    pub fn from_hex(s: &str) -> (r: Option<HexColor>)
        ensures
            r == hex_color_of(s@),
    {
        if s.unicode_len() != 7 {
            return None;
        }
        if s.get_char(0) != '#' {
            return None;
        }
        let v1 = match hex_digit_val(s.get_char(1)) {
            Some(v) => v,
            None => { return None; },
        };
        let v2 = match hex_digit_val(s.get_char(2)) {
            Some(v) => v,
            None => { return None; },
        };
        let v3 = match hex_digit_val(s.get_char(3)) {
            Some(v) => v,
            None => { return None; },
        };
        let v4 = match hex_digit_val(s.get_char(4)) {
            Some(v) => v,
            None => { return None; },
        };
        let v5 = match hex_digit_val(s.get_char(5)) {
            Some(v) => v,
            None => { return None; },
        };
        let v6 = match hex_digit_val(s.get_char(6)) {
            Some(v) => v,
            None => { return None; },
        };
        Some(HexColor(v1 * 16 + v2, v3 * 16 + v4, v5 * 16 + v6))
    }

    /// Renders the color as `#rrggbb` with lower-case digits.
    pub fn to_hex(&self) -> (r: String)
        ensures
            r@ == hex_seq(*self),
    {
        proof {
            reveal_strlit("#");
        }
        let mut out = String::from_str("#");
        out.append(nibble_str(self.0 / 16));
        out.append(nibble_str(self.0 % 16));
        out.append(nibble_str(self.1 / 16));
        out.append(nibble_str(self.1 % 16));
        out.append(nibble_str(self.2 / 16));
        out.append(nibble_str(self.2 % 16));
        proof {
            assert(out@ =~= hex_seq(*self));
        }
        out
    }
}

/// Law: rendering a color and parsing the result yields the color again.
pub proof fn lemma_hex_round_trip(c: HexColor)
    ensures
        hex_color_of(hex_seq(c)) == Some(c),
{
    let s = hex_seq(c);
    assert forall|i: int| 1 <= i < 7 implies is_hex_digit(#[trigger] s[i]) by {
        assert(is_hex_digit(nibble_char(c.0 as int / 16)));
        assert(is_hex_digit(nibble_char(c.0 as int % 16)));
        assert(is_hex_digit(nibble_char(c.1 as int / 16)));
        assert(is_hex_digit(nibble_char(c.1 as int % 16)));
        assert(is_hex_digit(nibble_char(c.2 as int / 16)));
        assert(is_hex_digit(nibble_char(c.2 as int % 16)));
    }
    assert(valid_hex_color(s));
    assert(hex_val(s[1]) * 16 + hex_val(s[2]) == c.0 as int);
    assert(hex_val(s[3]) * 16 + hex_val(s[4]) == c.1 as int);
    assert(hex_val(s[5]) * 16 + hex_val(s[6]) == c.2 as int);
}

} // verus!
