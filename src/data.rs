//! Decoding of a tile layer's `data` element: base64 text, inflated with
//! zlib, read as little-endian 32-bit identifiers and cut into rows.
use vstd::prelude::*;
use vstd::string::StrSliceExecFns;
use std::io::Read;
use crate::error::{ErrorKind, TiledError};
use crate::events::{XmlEvent, Attribute, get_attr, attr_value, ends_at};
use crate::text::text_is;

verus! {

/// The characters with the Unicode White_Space property.
pub open spec fn is_white_space(c: char) -> bool {
    ('\u{9}' <= c && c <= '\u{d}') || c == ' ' || c == '\u{85}' || c == '\u{a0}' || c == '\u{1680}' || (
    '\u{2000}' <= c && c <= '\u{200a}') || c == '\u{2028}' || c == '\u{2029}' || c == '\u{202f}' || c
        == '\u{205f}' || c == '\u{3000}'
}

/// The text with leading whitespace removed.
pub open spec fn trim_start(s: Seq<char>) -> Seq<char>
    decreases s.len(),
{
    if s.len() > 0 && is_white_space(s[0]) {
        trim_start(s.drop_first())
    } else {
        s
    }
}

/// The text with trailing whitespace removed.
pub open spec fn trim_end(s: Seq<char>) -> Seq<char>
    decreases s.len(),
{
    if s.len() > 0 && is_white_space(s.last()) {
        trim_end(s.drop_last())
    } else {
        s
    }
}

/// The text with leading and trailing whitespace removed.
pub open spec fn trimmed(s: Seq<char>) -> Seq<char> {
    trim_end(trim_start(s))
}

/// The bytes that base64 text stands for, or none when it is not base64.
pub uninterp spec fn base64_decoded(s: Seq<char>) -> Option<Seq<u8>>;

/// The bytes of an inflated zlib stream, or none when inflating fails.
pub uninterp spec fn zlib_inflated(b: Seq<u8>) -> Option<Seq<u8>>;

fn white_space(c: char) -> (r: bool)
    ensures
        r == is_white_space(c),
{
    ('\u{9}' <= c && c <= '\u{d}') || c == ' ' || c == '\u{85}' || c == '\u{a0}' || c == '\u{1680}' || (
    '\u{2000}' <= c && c <= '\u{200a}') || c == '\u{2028}' || c == '\u{2029}' || c == '\u{202f}' || c
        == '\u{205f}' || c == '\u{3000}'
}

proof fn lemma_trim_start(s: Seq<char>, k: int, lo: int)
    requires
        0 <= k <= lo <= s.len(),
        forall|i: int| k <= i < lo ==> is_white_space(#[trigger] s[i]),
        lo < s.len() ==> !is_white_space(s[lo]),
    ensures
        trim_start(s.subrange(k, s.len() as int)) == s.subrange(lo, s.len() as int),
    decreases lo - k,
{
    let t = s.subrange(k, s.len() as int);
    if k < lo {
        assert(t.drop_first() =~= s.subrange(k + 1, s.len() as int));
        lemma_trim_start(s, k + 1, lo);
    } else {
        assert(t =~= s.subrange(lo, s.len() as int));
    }
}

proof fn lemma_trim_end(t: Seq<char>, m: int, hi: int)
    requires
        0 <= hi <= m <= t.len(),
        forall|i: int| hi <= i < m ==> is_white_space(#[trigger] t[i]),
        hi > 0 ==> !is_white_space(t[hi - 1]),
    ensures
        trim_end(t.subrange(0, m)) == t.subrange(0, hi),
    decreases m - hi,
{
    let u = t.subrange(0, m);
    if hi < m {
        assert(u.drop_last() =~= t.subrange(0, m - 1));
        lemma_trim_end(t, m - 1, hi);
    } else {
        assert(u =~= t.subrange(0, hi));
    }
}

/// The text with leading and trailing whitespace removed, as `str::trim`
/// gives it.
fn trim_text(s: &str) -> (r: &str)
    ensures
        r@ == trimmed(s@),
{
    let n = s.unicode_len();
    let mut lo: usize = 0;
    while lo < n && white_space(s.get_char(lo))
        invariant
            n == s@.len(),
            lo <= n,
            forall|i: int| 0 <= i < lo ==> is_white_space(#[trigger] s@[i]),
        decreases n - lo,
    {
        lo = lo + 1;
    }
    let mut hi: usize = n;
    while hi > lo && white_space(s.get_char(hi - 1))
        invariant
            n == s@.len(),
            lo <= hi <= n,
            forall|i: int| hi <= i < n ==> is_white_space(#[trigger] s@[i]),
        decreases hi - lo,
    {
        hi = hi - 1;
    }
    proof {
        lemma_trim_start(s@, 0, lo as int);
        assert(s@.subrange(0, n as int) =~= s@);
        let t = s@.subrange(lo as int, n as int);
        assert forall|i: int| hi - lo <= i < n - lo implies is_white_space(#[trigger] t[i]) by {
            assert(t[i] == s@[lo + i]);
        }
        if hi > lo {
            assert(t[hi - lo - 1] == s@[hi - 1]);
        }
        lemma_trim_end(t, (n - lo) as int, (hi - lo) as int);
        assert(t.subrange(0, (n - lo) as int) =~= t);
        assert(t.subrange(0, (hi - lo) as int) =~= s@.subrange(lo as int, hi as int));
    }
    s.substring_char(lo, hi)
}

/// Relies on rustc_serialize's FromBase64 for str: decodes the text.
#[verifier::external_body]
fn from_base64(s: &str) -> (r: Result<Vec<u8>, rustc_serialize::base64::FromBase64Error>)
    ensures
        match r {
            Ok(b) => base64_decoded(s@) == Some(b@),
            Err(_) => base64_decoded(s@) is None,
        },
{
    rustc_serialize::base64::FromBase64::from_base64(s)
}

/// Relies on flate2::read::ZlibDecoder: reads the whole inflated stream.
#[verifier::external_body]
fn inflate_zlib(b: &[u8]) -> (r: Result<Vec<u8>, std::io::Error>)
    ensures
        match r {
            Ok(v) => zlib_inflated(b@) == Some(v@),
            Err(_) => zlib_inflated(b@) is None,
        },
{
    let mut out = Vec::new();
    flate2::read::ZlibDecoder::new(b).read_to_end(&mut out).map(|_| out)
}

/// The `k`-th little-endian 32-bit number in `b`.
pub open spec fn le_u32_at(b: Seq<u8>, k: int) -> u32 {
    (b[4 * k] + 256 * b[4 * k + 1] + 65536 * b[4 * k + 2] + 16777216 * b[4 * k + 3]) as u32
}

/// The grid that the bytes `b` hold: rows of `width` identifiers, as many
/// full rows as there are; trailing bytes and a short last row are dropped.
pub open spec fn tile_rows(b: Seq<u8>, width: int) -> Seq<Seq<u32>> {
    if width <= 0 {
        Seq::empty()
    } else {
        Seq::new(
            (b.len() as int / 4 / width) as nat,
            |r: int| Seq::new(width as nat, |c: int| le_u32_at(b, r * width + c)),
        )
    }
}

proof fn lemma_row_fits(r: int, w: int, n: int)
    requires
        0 <= r < n / w,
        w > 0,
        n >= 0,
    ensures
        r * w + w <= n,
{
    vstd::arithmetic::div_mod::lemma_fundamental_div_mod(n, w);
    vstd::arithmetic::mul::lemma_mul_inequality(r + 1, n / w, w);
    vstd::arithmetic::mul::lemma_mul_is_distributive_add_other_way(w, r, 1);
    vstd::arithmetic::mul::lemma_mul_is_commutative(w, n / w);
}

/// Every row of `g` holds `width` identifiers.
pub open spec fn rows_have_width(g: Seq<Vec<u32>>, width: u32) -> bool {
    forall|i: int| 0 <= i < g.len() ==> (#[trigger] g[i])@.len() == width
}

/// The grid of an inflated tile payload.
pub fn decode_tiles(b: &[u8], width: u32) -> (r: Vec<Vec<u32>>)
    ensures
        r.deep_view() == tile_rows(b@, width as int),
        rows_have_width(r@, width),
{
    let mut rows: Vec<Vec<u32>> = Vec::new();
    if width == 0 {
        assert(rows.deep_view() =~= tile_rows(b@, width as int));
        return rows;
    }
    let w = width as usize;
    let n = b.len();
    let nrows = (n / 4) / w;
    let ghost want = tile_rows(b@, width as int);
    let mut r: usize = 0;
    while r < nrows
        invariant
            w == width, w > 0,
            n == b@.len(),
            nrows == b@.len() as int / 4 / w as int,
            want == tile_rows(b@, width as int),
            r <= nrows,
            rows@.len() == r,
            forall|i: int| 0 <= i < r ==> (#[trigger] rows@[i])@ == want[i],
        decreases nrows - r,
    {
        proof {
            lemma_row_fits(r as int, w as int, b@.len() as int / 4);
            vstd::arithmetic::div_mod::lemma_fundamental_div_mod(b@.len() as int, 4);
        }
        let base = r * w;
        let mut row: Vec<u32> = Vec::new();
        let mut c: usize = 0;
        while c < w
            invariant
                w == width, w > 0,
                n == b@.len(),
                base == r * w,
                r * w + w <= b@.len() as int / 4,
                4 * (b@.len() as int / 4) <= b@.len(),
                c <= w,
                row@.len() == c,
                forall|j: int| 0 <= j < c ==> row@[j] == le_u32_at(b@, r * w + j),
            decreases w - c,
        {
            let k = base + c;
            let v: u32 = b[4 * k] as u32 + 256 * (b[4 * k + 1] as u32) + 65536 * (b[4 * k + 2] as u32)
                + 16777216 * (b[4 * k + 3] as u32);
            row.push(v);
            c = c + 1;
        }
        assert(want[r as int].len() == w);
        assert forall|j: int| 0 <= j < w implies row@[j] == #[trigger] want[r as int][j] by {
            assert(want[r as int][j] == le_u32_at(b@, r * w + j));
        }
        assert(row@ =~= want[r as int]);
        rows.push(row);
        r = r + 1;
    }
    assert(want.len() == nrows);
    assert forall|i: int| 0 <= i < nrows implies #[trigger] rows.deep_view()[i] == want[i] by {
        assert(rows.deep_view()[i] == rows@[i]@);
    }
    assert(rows.deep_view() =~= want);
    assert forall|i: int| 0 <= i < rows@.len() implies (#[trigger] rows@[i])@.len() == width by {
        assert(rows@[i]@ == want[i]);
    }
    rows
}

/// A payload of exactly `width * height` identifiers gives a grid of
/// `height` rows of `width` identifiers each.
pub proof fn lemma_full_payload_grid(b: Seq<u8>, width: u32, height: nat)
    requires
        width > 0,
        b.len() == 4 * (width * height),
    ensures
        tile_rows(b, width as int).len() == height,
        forall|i: int| 0 <= i < height ==> (#[trigger] tile_rows(b, width as int)[i]).len() == width,
{
    assert(b.len() as int / 4 == width * height);
    vstd::arithmetic::div_mod::lemma_div_multiples_vanish(height as int, width as int);
    vstd::arithmetic::mul::lemma_mul_is_commutative(width as int, height as int);
}

/// Byte `j` (least significant first) of `v`.
pub open spec fn byte_of(v: u32, j: int) -> u8 {
    if j == 0 {
        (v % 256) as u8
    } else if j == 1 {
        ((v / 256) % 256) as u8
    } else if j == 2 {
        ((v / 65536) % 256) as u8
    } else {
        (v / 16777216) as u8
    }
}

/// The identifiers `ids` written as little-endian 32-bit numbers.
pub open spec fn le_bytes_of(ids: Seq<u32>) -> Seq<u8> {
    Seq::new(4 * ids.len(), |i: int| byte_of(ids[i / 4], i % 4))
}

/// The rows of `g`, each `w` long, laid end to end.
pub open spec fn grid_ids(g: Seq<Seq<u32>>, w: int) -> Seq<u32> {
    Seq::new((g.len() * w) as nat, |k: int| g[k / w][k % w])
}

proof fn lemma_le_u32_of_bytes(ids: Seq<u32>, k: int)
    requires
        0 <= k < ids.len(),
    ensures
        le_u32_at(le_bytes_of(ids), k) == ids[k],
{
    let b = le_bytes_of(ids);
    let v = ids[k];
    assert forall|j: int| 0 <= j < 4 implies #[trigger] b[4 * k + j] == byte_of(v, j) by {
        vstd::arithmetic::div_mod::lemma_fundamental_div_mod_converse(4 * k + j, 4, k, j);
    }
    assert(b[4 * k] == byte_of(v, 0));
    assert(b[4 * k + 1] == byte_of(v, 1));
    assert(b[4 * k + 2] == byte_of(v, 2));
    assert(b[4 * k + 3] == byte_of(v, 3));
    assert((v % 256) + 256 * ((v / 256) % 256) + 65536 * ((v / 65536) % 256) + 16777216 * (v / 16777216)
        == v) by (nonlinear_arith);
}

/// Decoding the little-endian bytes of a grid whose rows all have
/// `width` identifiers gives the grid back.
pub proof fn lemma_tile_rows_round_trip(g: Seq<Seq<u32>>, width: u32)
    requires
        width > 0,
        forall|r: int| 0 <= r < g.len() ==> (#[trigger] g[r]).len() == width,
    ensures
        tile_rows(le_bytes_of(grid_ids(g, width as int)), width as int) == g,
{
    let w = width as int;
    let ids = grid_ids(g, w);
    let b = le_bytes_of(ids);
    assert(g.len() * w >= 0) by (nonlinear_arith)
        requires w > 0;
    assert(b.len() as int / 4 == g.len() * w);
    vstd::arithmetic::div_mod::lemma_div_multiples_vanish(g.len() as int, w);
    vstd::arithmetic::mul::lemma_mul_is_commutative(w, g.len() as int);
    let t = tile_rows(b, w);
    assert(t.len() == g.len());
    assert forall|r: int| 0 <= r < g.len() implies #[trigger] t[r] == g[r] by {
        assert forall|c: int| 0 <= c < w implies #[trigger] t[r][c] == g[r][c] by {
            assert(r * w + c < g.len() * w) by (nonlinear_arith)
                requires 0 <= r < g.len(), 0 <= c < w;
            assert(0 <= r * w + c) by (nonlinear_arith)
                requires 0 <= r, 0 <= c, w > 0;
            lemma_le_u32_of_bytes(ids, r * w + c);
            vstd::arithmetic::div_mod::lemma_fundamental_div_mod_converse(r * w + c, w, r, c);
        }
        assert(t[r] =~= g[r]);
    }
    assert(t =~= g);
}

/// What the payload `text` of a `data` element decodes to: the grid, or
/// the error of the first stage that fails.
pub open spec fn decoded_text(text: Seq<char>, width: u32, r: Result<Vec<Vec<u32>>, TiledError>) -> bool {
    match base64_decoded(trimmed(text)) {
        None => r matches Err(TiledError::DecodingError(_)),
        Some(b) => match zlib_inflated(b) {
            None => r matches Err(TiledError::DecompressingError(_)),
            Some(z) => r matches Ok(g) && g.deep_view() == tile_rows(z, width as int),
        },
    }
}

/// Decodes the base64, zlib-compressed payload of a `data` element into
/// rows of `width` tile identifiers.
pub fn decode_tile_text(text: &str, width: u32) -> (r: Result<Vec<Vec<u32>>, TiledError>)
    ensures
        decoded_text(text@, width, r),
        r matches Ok(g) ==> rows_have_width(g@, width),
{
    let t = trim_text(text);
    match from_base64(t) {
        Err(e) => Err(TiledError::DecodingError(e)),
        Ok(b) => match inflate_zlib(b.as_slice()) {
            Err(e) => Err(TiledError::DecompressingError(e)),
            Ok(z) => Ok(decode_tiles(z.as_slice(), width)),
        },
    }
}

/// An event at which reading a `data` element's payload stops: text, the
/// element's end tag, or the end of the document.
pub open spec fn data_stops_at(e: XmlEvent) -> bool {
    match e {
        XmlEvent::Characters(_) => true,
        XmlEvent::EndElement { name } => name@ == "data"@,
        XmlEvent::EndDocument => true,
        _ => false,
    }
}

/// Whether the `data` element with attributes `attrs` names the one
/// supported layout: base64 text of a zlib stream.
pub open spec fn supported_layout(attrs: Seq<Attribute>) -> bool {
    attr_value(attrs, "encoding"@) == Some("base64"@) && attr_value(attrs, "compression"@) == Some(
        "zlib"@,
    )
}

/// The grid `g` that a `data` element gives when reading its payload
/// stopped at `k`: the decoded text, or no rows for an empty element.
pub open spec fn data_result(events: Seq<XmlEvent>, k: int, width: u32, g: Vec<Vec<u32>>) -> bool {
    0 <= k < events.len() && match events[k] {
        XmlEvent::Characters(t) => decoded_text(t@, width, Ok(g)),
        _ => g@.len() == 0,
    }
}

/// Where the payload of a `data` element, read from `i`, ends: just after
/// its text when that decodes, or just after an empty element's end tag;
/// none when the text does not decode or the document ends first.
pub open spec fn data_scan(events: Seq<XmlEvent>, i: int) -> Option<int>
    decreases events.len() - i,
{
    if i < 0 || i >= events.len() {
        None
    } else {
        match events[i] {
            XmlEvent::Characters(t) => match base64_decoded(trimmed(t@)) {
                Some(b) => if zlib_inflated(b) is Some { Some(i + 1) } else { None },
                None => None,
            },
            XmlEvent::EndElement { name } => if name@ == "data"@ {
                Some(i + 1)
            } else {
                data_scan(events, i + 1)
            },
            XmlEvent::EndDocument => None,
            _ => data_scan(events, i + 1),
        }
    }
}

/// Where a `data` element with attributes `a`, read from `j`, ends; none
/// when it cannot be read.
pub open spec fn data_end(events: Seq<XmlEvent>, a: Seq<Attribute>, j: int) -> Option<int> {
    if supported_layout(a) {
        data_scan(events, j)
    } else {
        None
    }
}

/// The kind of error of reading a `data` payload from `i` that cannot be
/// read: the stage at which its text fails, or a premature end.
pub open spec fn data_scan_kind(events: Seq<XmlEvent>, i: int) -> ErrorKind
    decreases events.len() - i,
{
    if i < 0 || i >= events.len() {
        ErrorKind::PrematureEnd
    } else {
        match events[i] {
            XmlEvent::Characters(t) => match base64_decoded(trimmed(t@)) {
                None => ErrorKind::DecodingError,
                Some(b) => if zlib_inflated(b) is None { ErrorKind::DecompressingError } else { ErrorKind::PrematureEnd },
            },
            XmlEvent::EndElement { name } => if name@ == "data"@ {
                ErrorKind::PrematureEnd
            } else {
                data_scan_kind(events, i + 1)
            },
            XmlEvent::EndDocument => ErrorKind::PrematureEnd,
            _ => data_scan_kind(events, i + 1),
        }
    }
}

/// The kind of error of a `data` element with attributes `a`, read from
/// `j`, that cannot be read.
pub open spec fn data_kind(events: Seq<XmlEvent>, a: Seq<Attribute>, j: int) -> ErrorKind {
    if attr_value(a, "encoding"@) is None || attr_value(a, "compression"@) is None {
        ErrorKind::MalformedAttributes
    } else if !supported_layout(a) {
        ErrorKind::Other
    } else {
        data_scan_kind(events, j)
    }
}

/// `g` is the grid of a `data` element with attributes `a` whose content
/// starts at `j`.
pub open spec fn data_grid(events: Seq<XmlEvent>, a: Seq<Attribute>, j: int, width: u32, g: Vec<Vec<u32>>) -> bool {
    match data_end(events, a, j) {
        Some(e) => data_result(events, e - 1, width, g),
        None => false,
    }
}

/// Reads the tile grid of a `data` element whose start tag has just been
/// consumed, with rows of `width` identifiers.
pub fn parse_data(events: &Vec<XmlEvent>, pos: &mut usize, attrs: &Vec<Attribute>, width: u32) -> (r:
    Result<Vec<Vec<u32>>, TiledError>)
    requires
        *old(pos) <= events@.len(),
    ensures
        *old(pos) <= *final(pos) <= events@.len(),
        r matches Ok(g) ==> rows_have_width(g@, width) && *old(pos) < *final(pos),
        r matches Ok(g) ==> data_result(events@, *final(pos) - 1, width, g),
        r is Ok == data_end(events@, attrs@, *old(pos) as int) is Some,
        r is Ok ==> data_end(events@, attrs@, *old(pos) as int) == Some(*final(pos) as int),
        !supported_layout(attrs@) ==> *final(pos) == *old(pos),
        r matches Err(e) ==> e.spec_kind() == data_kind(events@, attrs@, *old(pos) as int),
        attr_value(attrs@, "encoding"@) is None || attr_value(attrs@, "compression"@) is None
            ==> r matches Err(TiledError::MalformedAttributes(_)),
        attr_value(attrs@, "encoding"@) is Some && attr_value(attrs@, "compression"@) is Some
            && !supported_layout(attrs@) ==> r matches Err(TiledError::Other(_)),
        supported_layout(attrs@) ==> {
            let from = *old(pos) as int;
            let to = *final(pos) as int;
            ||| {
                &&& ends_at(events@, to)
                &&& (forall|k: int| from <= k < to ==> !data_stops_at(#[trigger] events@[k]))
                &&& r matches Err(TiledError::PrematureEnd(_))
            }
            ||| {
                &&& from < to
                &&& (forall|k: int| from <= k < to - 1 ==> !data_stops_at(#[trigger] events@[k]))
                &&& match events@[to - 1] {
                    XmlEvent::Characters(t) => decoded_text(t@, width, r),
                    XmlEvent::EndElement { name } => name@ == "data"@ && (r matches Ok(g) && g@.len() == 0),
                    _ => false,
                }
            }
        },
{
    let e = get_attr(attrs, "encoding");
    let c = get_attr(attrs, "compression");
    if e.is_none() || c.is_none() {
        return Err(TiledError::MalformedAttributes("data must have an encoding and a compression".to_owned()));
    }
    let e = e.unwrap();
    let c = c.unwrap();
    if !(text_is(e.as_str(), "base64") && text_is(c.as_str(), "zlib")) {
        return Err(TiledError::Other("Only base64 and zlib allowed for the moment".to_owned()));
    }
    let ghost from = *pos as int;
    loop
        invariant
            from == *old(pos),
            from <= *pos <= events@.len(),
            supported_layout(attrs@),
            data_scan(events@, *pos as int) == data_scan(events@, from),
            data_scan_kind(events@, *pos as int) == data_scan_kind(events@, from),
            forall|k: int| from <= k < *pos ==> !data_stops_at(#[trigger] events@[k]),
        decreases events@.len() - *pos,
    {
        if *pos >= events.len() {
            return Err(TiledError::PrematureEnd("Document ended before we expected.".to_owned()));
        }
        let i = *pos;
        match &events[i] {
            XmlEvent::Characters(t) => {
                *pos = i + 1;
                return decode_tile_text(t.as_str(), width);
            },
            XmlEvent::EndElement { name } => {
                *pos = i + 1;
                if text_is(name.as_str(), "data") {
                    return Ok(Vec::new());
                }
            },
            XmlEvent::EndDocument => {
                return Err(TiledError::PrematureEnd("Document ended before we expected.".to_owned()));
            },
            _ => {
                *pos = i + 1;
            },
        }
    }
}

} // verus!
