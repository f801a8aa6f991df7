//! Colours written as six hexadecimal digits, with an optional leading `#`.
use vstd::prelude::*;
use vstd::string::StrSliceExecFns;

verus! {

/// An RGB colour.
#[derive(Debug, Clone, Copy, PartialEq, Eq, Structural)]
pub struct Colour {
    pub red: u8,
    pub green: u8,
    pub blue: u8,
}

pub open spec fn is_hex(c: char) -> bool {
    ('0' <= c && c <= '9') || ('a' <= c && c <= 'f') || ('A' <= c && c <= 'F')
}

pub open spec fn hex_value(c: char) -> int {
    if '0' <= c && c <= '9' {
        c as int - '0' as int
    } else if 'a' <= c && c <= 'f' {
        c as int - 'a' as int + 10
    } else {
        c as int - 'A' as int + 10
    }
}

/// The byte written by the two hex digits at `i` and `i + 1`.
pub open spec fn hex_byte(s: Seq<char>, i: int) -> u8 {
    (hex_value(s[i]) * 16 + hex_value(s[i + 1])) as u8
}

/// The text after an optional leading `#`.
pub open spec fn without_hash(s: Seq<char>) -> Seq<char> {
    if s.len() > 0 && s[0] == '#' { s.drop_first() } else { s }
}

/// The colour that `s` writes: six hex digits after an optional `#`.
pub open spec fn colour_of(s: Seq<char>) -> Option<Colour> {
    let body = without_hash(s);
    if body.len() == 6 && forall|i: int| 0 <= i < 6 ==> is_hex(#[trigger] body[i]) {
        Some(Colour { red: hex_byte(body, 0), green: hex_byte(body, 2), blue: hex_byte(body, 4) })
    } else {
        None
    }
}

fn hex_digit(c: char) -> (r: Option<u8>)
    ensures
        match r {
            Some(v) => is_hex(c) && v == hex_value(c) && v < 16,
            None => !is_hex(c),
        },
{
    if '0' <= c && c <= '9' {
        Some((c as u32 - '0' as u32) as u8)
    } else if 'a' <= c && c <= 'f' {
        Some((c as u32 - 'a' as u32 + 10) as u8)
    } else if 'A' <= c && c <= 'F' {
        Some((c as u32 - 'A' as u32 + 10) as u8)
    } else {
        None
    }
}

fn hex_pair(s: &str, i: usize) -> (r: Option<u8>)
    requires
        i + 1 < s@.len() <= usize::MAX,
    ensures
        match r {
            Some(v) => is_hex(s@[i as int]) && is_hex(s@[i + 1]) && v == hex_value(s@[i as int]) * 16
                + hex_value(s@[i + 1]),
            None => !(is_hex(s@[i as int]) && is_hex(s@[i + 1])),
        },
{
    match (hex_digit(s.get_char(i)), hex_digit(s.get_char(i + 1))) {
        (Some(h), Some(l)) => Some(h * 16 + l),
        _ => None,
    }
}

impl Colour {
    /// Reads a colour from six hex digits with an optional leading `#`;
    /// any other length or character gives none.
    pub fn from_str(s: &str) -> (r: Option<Colour>)
        ensures
            r == colour_of(s@),
    {
        let n = s.unicode_len();
        let lo: usize = if n > 0 && s.get_char(0) == '#' { 1 } else { 0 };
        let ghost body = without_hash(s@);
        assert(body =~= s@.subrange(lo as int, n as int));
        if n - lo != 6 {
            assert(body.len() != 6);
            return None;
        }
        let r = hex_pair(s, lo);
        let g = hex_pair(s, lo + 2);
        let b = hex_pair(s, lo + 4);
        assert(body[0] == s@[lo as int] && body[1] == s@[lo + 1] && body[2] == s@[lo + 2]);
        assert(body[3] == s@[lo + 3] && body[4] == s@[lo + 4] && body[5] == s@[lo + 5]);
        if r.is_none() || g.is_none() || b.is_none() {
            assert(!(is_hex(body[0]) && is_hex(body[1]) && is_hex(body[2]) && is_hex(body[3])
                && is_hex(body[4]) && is_hex(body[5])));
            return None;
        }
        assert(forall|i: int| 0 <= i < 6 ==> is_hex(#[trigger] body[i]));
        Some(Colour { red: r.unwrap(), green: g.unwrap(), blue: b.unwrap() })
    }
}

} // verus!
