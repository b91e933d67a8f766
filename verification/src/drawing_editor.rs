//! The `#rrggbb` colour text of the drawing editor's colour inputs: parsing it into the three
//! channels and writing channels back as lowercase hex.
use vstd::prelude::*;

verus! {

/// The value of a hexadecimal digit (either case).
pub open spec fn hex_value(c: char) -> Option<int> {
    let v = c as int;
    if 48 <= v <= 57 {
        Some(v - 48)
    } else if 97 <= v <= 102 {
        Some(v - 87)
    } else if 65 <= v <= 70 {
        Some(v - 55)
    } else {
        None
    }
}

/// A channel of two characters, read as `u8::from_str_radix(.., 16)` reads it: two hex digits,
/// or `+` and one hex digit.
pub open spec fn hex_pair(a: char, b: char) -> Option<u8> {
    if a == '+' {
        match hex_value(b) {
            Some(d) => Some(d as u8),
            None => None,
        }
    } else {
        match (hex_value(a), hex_value(b)) {
            (Some(x), Some(y)) => Some((16 * x + y) as u8),
            _ => None,
        }
    }
}

/// The channels of `#rrggbb`; `None` for any other text.
pub open spec fn parse_hex_rgb(s: Seq<char>) -> Option<(u8, u8, u8)> {
    if s.len() == 7 && s[0] == '#' {
        match (hex_pair(s[1], s[2]), hex_pair(s[3], s[4]), hex_pair(s[5], s[6])) {
            (Some(r), Some(g), Some(b)) => Some((r, g, b)),
            _ => None,
        }
    } else {
        None
    }
}

/// The lowercase hex digit of `d` (0 to 15).
pub open spec fn hex_char(d: int) -> char {
    if d < 10 {
        (48 + d) as char
    } else {
        (87 + d) as char
    }
}

/// Two lowercase hex digits of a byte.
pub open spec fn hex2(x: u8) -> Seq<char> {
    seq![hex_char((x / 16) as int), hex_char((x % 16) as int)]
}

/// `#rrggbb` in lowercase.
pub open spec fn hex_string_spec(r: u8, g: u8, b: u8) -> Seq<char> {
    seq!['#'] + hex2(r) + hex2(g) + hex2(b)
}

fn hex_value_of(c: char) -> (v: Option<u8>)
    ensures
        match hex_value(c) {
            Some(x) => v == Some(x as u8),
            None => v is None,
        },
{
    let u = c as u32;
    if u >= 48 && u <= 57 {
        Some((u - 48) as u8)
    } else if u >= 97 && u <= 102 {
        Some((u - 87) as u8)
    } else if u >= 65 && u <= 70 {
        Some((u - 55) as u8)
    } else {
        None
    }
}

fn hex_pair_of(a: char, b: char) -> (v: Option<u8>)
    ensures
        v == hex_pair(a, b),
{
    if a == '+' {
        return hex_value_of(b);
    }
    match (hex_value_of(a), hex_value_of(b)) {
        (Some(x), Some(y)) => Some(16 * x + y),
        _ => None,
    }
}

/// Reads `#rrggbb` into its three channels; `None` for any other text.
pub fn hex_rgb(s: &str) -> (r: Option<(u8, u8, u8)>)
    ensures
        r == parse_hex_rgb(s@),
{
    if s.unicode_len() != 7 {
        return None;
    }
    if s.get_char(0) != '#' {
        return None;
    }
    let r = hex_pair_of(s.get_char(1), s.get_char(2));
    let g = hex_pair_of(s.get_char(3), s.get_char(4));
    let b = hex_pair_of(s.get_char(5), s.get_char(6));
    match (r, g, b) {
        (Some(r), Some(g), Some(b)) => Some((r, g, b)),
        _ => None,
    }
}

fn hex_digit_str(d: u8) -> (s: &'static str)
    requires
        d < 16,
    ensures
        s@ == seq![hex_char(d as int)],
{
    let s = if d == 0 {
        "0"
    } else if d == 1 {
        "1"
    } else if d == 2 {
        "2"
    } else if d == 3 {
        "3"
    } else if d == 4 {
        "4"
    } else if d == 5 {
        "5"
    } else if d == 6 {
        "6"
    } else if d == 7 {
        "7"
    } else if d == 8 {
        "8"
    } else if d == 9 {
        "9"
    } else if d == 10 {
        "a"
    } else if d == 11 {
        "b"
    } else if d == 12 {
        "c"
    } else if d == 13 {
        "d"
    } else if d == 14 {
        "e"
    } else {
        "f"
    };
    proof {
        reveal_strlit("0");
        reveal_strlit("1");
        reveal_strlit("2");
        reveal_strlit("3");
        reveal_strlit("4");
        reveal_strlit("5");
        reveal_strlit("6");
        reveal_strlit("7");
        reveal_strlit("8");
        reveal_strlit("9");
        reveal_strlit("a");
        reveal_strlit("b");
        reveal_strlit("c");
        reveal_strlit("d");
        reveal_strlit("e");
        reveal_strlit("f");
    }
    s
}

fn push_hex2(s: &mut String, x: u8)
    ensures
        final(s)@ == old(s)@ + hex2(x),
{
    s.append(hex_digit_str(x / 16));
    s.append(hex_digit_str(x % 16));
    proof {
        assert(final(s)@ =~= old(s)@ + hex2(x));
    }
}

/// `#rrggbb` in lowercase for the three channels.
pub fn hex_string(r: u8, g: u8, b: u8) -> (s: String)
    ensures
        s@ == hex_string_spec(r, g, b),
{
    let mut s = String::new();
    proof {
        reveal_strlit("#");
    }
    s.append("#");
    push_hex2(&mut s, r);
    push_hex2(&mut s, g);
    push_hex2(&mut s, b);
    proof {
        assert(s@ =~= hex_string_spec(r, g, b));
    }
    s
}

/// A colour written as text reads back as the same colour.
pub proof fn lemma_hex_round_trip(r: u8, g: u8, b: u8)
    ensures
        parse_hex_rgb(hex_string_spec(r, g, b)) == Some((r, g, b)),
{
    let s = hex_string_spec(r, g, b);
    assert(s.len() == 7);
    assert(s[1] == hex_char((r / 16) as int) && s[2] == hex_char((r % 16) as int));
    assert(s[3] == hex_char((g / 16) as int) && s[4] == hex_char((g % 16) as int));
    assert(s[5] == hex_char((b / 16) as int) && s[6] == hex_char((b % 16) as int));
    assert(hex_char(0) != '+');
    lemma_hex_pair_of_byte(r);
    lemma_hex_pair_of_byte(g);
    lemma_hex_pair_of_byte(b);
}

proof fn lemma_hex_pair_of_byte(x: u8)
    ensures
        hex_pair(hex_char((x / 16) as int), hex_char((x % 16) as int)) == Some(x),
{
    let hi = x / 16;
    let lo = x % 16;
    assert(hex_value(hex_char(hi as int)) == Some(hi as int));
    assert(hex_value(hex_char(lo as int)) == Some(lo as int));
    assert(hex_char(hi as int) != '+');
    assert(16 * hi + lo == x);
}

} // verus!
