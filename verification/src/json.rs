//! Byte-level codec for the mapping file's format: a single JSON object
//! whose keys and values are strings.
//!
//! `spec_parse_config` is the mathematical definition of the format: it
//! gives the sequence of decoded (key, value) pairs, in textual order, or
//! `None` where the bytes are not a well-formed object of strings. The
//! executable parser and serializer are proved against it.

use vstd::prelude::*;

verus! {

pub const QUOTE: u8 = 0x22;
pub const BACKSLASH: u8 = 0x5c;
pub const SLASH: u8 = 0x2f;
pub const LBRACE: u8 = 0x7b;
pub const RBRACE: u8 = 0x7d;
pub const COLON: u8 = 0x3a;
pub const COMMA: u8 = 0x2c;
pub const LETTER_U: u8 = 0x75;

/// JSON insignificant whitespace: space, tab, line feed, carriage return.
pub open spec fn is_json_ws(b: u8) -> bool {
    b == 0x20 || b == 0x09 || b == 0x0a || b == 0x0d
}

/// Index of the first non-whitespace byte at or after `i`.
pub open spec fn spec_skip_ws(s: Seq<u8>, i: int) -> int
    recommends
        0 <= i <= s.len(),
    decreases s.len() - i,
{
    if 0 <= i < s.len() && is_json_ws(s[i]) {
        spec_skip_ws(s, i + 1)
    } else {
        i
    }
}

pub proof fn lemma_skip_ws_bounds(s: Seq<u8>, i: int)
    requires
        0 <= i <= s.len(),
    ensures
        i <= spec_skip_ws(s, i) <= s.len(),
    decreases s.len() - i,
{
    if i < s.len() && is_json_ws(s[i]) {
        lemma_skip_ws_bounds(s, i + 1);
    }
}

/// Value of one hexadecimal digit, upper or lower case.
pub open spec fn spec_hex_val(b: u8) -> Option<u8> {
    if 0x30 <= b && b <= 0x39 {
        Some((b - 0x30) as u8)
    } else if 0x41 <= b && b <= 0x46 {
        Some((b - 0x41 + 10) as u8)
    } else if 0x61 <= b && b <= 0x66 {
        Some((b - 0x61 + 10) as u8)
    } else {
        None
    }
}

/// Value of the four hexadecimal digits at `i`, as in a `\u` escape.
pub open spec fn spec_hex4(s: Seq<u8>, i: int) -> Option<int>
    recommends
        0 <= i,
        i + 4 <= s.len(),
{
    if spec_hex_val(s[i]) is Some && spec_hex_val(s[i + 1]) is Some && spec_hex_val(
        s[i + 2],
    ) is Some && spec_hex_val(s[i + 3]) is Some {
        Some(
            spec_hex_val(s[i]).unwrap() * 0x1000 + spec_hex_val(s[i + 1]).unwrap() * 0x100
                + spec_hex_val(s[i + 2]).unwrap() * 0x10 + spec_hex_val(s[i + 3]).unwrap(),
        )
    } else {
        None
    }
}

/// The byte denoted by a one-letter escape `\x`, if `x` is such a letter.
pub open spec fn spec_unescape_byte(b: u8) -> Option<u8> {
    if b == QUOTE {
        Some(QUOTE)
    } else if b == BACKSLASH {
        Some(BACKSLASH)
    } else if b == SLASH {
        Some(SLASH)
    } else if b == 0x62 {  // \b
        Some(0x08)
    } else if b == 0x66 {  // \f
        Some(0x0c)
    } else if b == 0x6e {  // \n
        Some(0x0a)
    } else if b == 0x72 {  // \r
        Some(0x0d)
    } else if b == 0x74 {  // \t
        Some(0x09)
    } else {
        None
    }
}

/// UTF-8 encoding of the scalar value `cp`.
pub open spec fn spec_utf8_encode(cp: int) -> Seq<u8>
    recommends
        0 <= cp <= 0x10ffff,
{
    if cp < 0x80 {
        seq![cp as u8]
    } else if cp < 0x800 {
        seq![(0xc0 + cp / 0x40) as u8, (0x80 + cp % 0x40) as u8]
    } else if cp < 0x10000 {
        seq![(0xe0 + cp / 0x1000) as u8, (0x80 + (cp / 0x40) % 0x40) as u8, (0x80 + cp % 0x40) as u8]
    } else {
        seq![
            (0xf0 + cp / 0x40000) as u8,
            (0x80 + (cp / 0x1000) % 0x40) as u8,
            (0x80 + (cp / 0x40) % 0x40) as u8,
            (0x80 + cp % 0x40) as u8,
        ]
    }
}

/// A UTF-8 continuation byte.
pub open spec fn is_cont_byte(b: u8) -> bool {
    0x80 <= b && b <= 0xbf
}

/// Prepends `pre` to the decoded bytes of a partial string-parse result.
pub open spec fn spec_chars_join(pre: Seq<u8>, r: Option<(Seq<u8>, int)>) -> Option<
    (Seq<u8>, int),
> {
    match r {
        Some(p) => Some((pre + p.0, p.1)),
        None => None,
    }
}

/// Decodes the body of a JSON string starting at `i` (just past the opening
/// quote) up to and including its closing quote. Returns the decoded bytes
/// and the index just past the closing quote; `None` where the bytes are not
/// a well-formed string body in UTF-8.
pub open spec fn spec_parse_chars(s: Seq<u8>, i: int) -> Option<(Seq<u8>, int)>
    recommends
        0 <= i <= s.len(),
    decreases s.len() - i,
{
    if i < 0 || i >= s.len() {
        None
    } else if s[i] == QUOTE {
        Some((seq![], i + 1))
    } else if s[i] == BACKSLASH {
        if i + 2 <= s.len() && s[i + 1] == LETTER_U {
            if i + 6 <= s.len() {
                match spec_hex4(s, i + 2) {
                    None => None,
                    Some(cp) => if 0xd800 <= cp < 0xdc00 {
                        // A high surrogate must be followed by an escaped low surrogate.
                        if i + 12 <= s.len() && s[i + 6] == BACKSLASH && s[i + 7] == LETTER_U {
                            match spec_hex4(s, i + 8) {
                                None => None,
                                Some(lo) => if 0xdc00 <= lo < 0xe000 {
                                    spec_chars_join(
                                        spec_utf8_encode(
                                            0x10000 + (cp - 0xd800) * 0x400 + (lo - 0xdc00),
                                        ),
                                        spec_parse_chars(s, i + 12),
                                    )
                                } else {
                                    None
                                },
                            }
                        } else {
                            None
                        }
                    } else if 0xdc00 <= cp < 0xe000 {
                        None
                    } else {
                        spec_chars_join(spec_utf8_encode(cp), spec_parse_chars(s, i + 6))
                    },
                }
            } else {
                None
            }
        } else if i + 2 <= s.len() {
            match spec_unescape_byte(s[i + 1]) {
                Some(b) => spec_chars_join(seq![b], spec_parse_chars(s, i + 2)),
                None => None,
            }
        } else {
            None
        }
    } else if s[i] < 0x20 {
        // Control characters must be escaped.
        None
    } else if s[i] < 0x80 {
        spec_chars_join(seq![s[i]], spec_parse_chars(s, i + 1))
    } else {
        // A multi-byte UTF-8 sequence is kept verbatim; overlong forms,
        // surrogates and values past 0x10ffff are rejected.
        let b0 = s[i];
        if 0xc2 <= b0 && b0 <= 0xdf {
            if i + 2 <= s.len() && is_cont_byte(s[i + 1]) {
                spec_chars_join(s.subrange(i, i + 2), spec_parse_chars(s, i + 2))
            } else {
                None
            }
        } else if b0 == 0xe0 {
            if i + 3 <= s.len() && 0xa0 <= s[i + 1] && s[i + 1] <= 0xbf && is_cont_byte(s[i + 2]) {
                spec_chars_join(s.subrange(i, i + 3), spec_parse_chars(s, i + 3))
            } else {
                None
            }
        } else if 0xe1 <= b0 && b0 <= 0xec || 0xee <= b0 && b0 <= 0xef {
            if i + 3 <= s.len() && is_cont_byte(s[i + 1]) && is_cont_byte(s[i + 2]) {
                spec_chars_join(s.subrange(i, i + 3), spec_parse_chars(s, i + 3))
            } else {
                None
            }
        } else if b0 == 0xed {
            if i + 3 <= s.len() && 0x80 <= s[i + 1] && s[i + 1] <= 0x9f && is_cont_byte(s[i + 2]) {
                spec_chars_join(s.subrange(i, i + 3), spec_parse_chars(s, i + 3))
            } else {
                None
            }
        } else if b0 == 0xf0 {
            if i + 4 <= s.len() && 0x90 <= s[i + 1] && s[i + 1] <= 0xbf && is_cont_byte(s[i + 2])
                && is_cont_byte(s[i + 3]) {
                spec_chars_join(s.subrange(i, i + 4), spec_parse_chars(s, i + 4))
            } else {
                None
            }
        } else if 0xf1 <= b0 && b0 <= 0xf3 {
            if i + 4 <= s.len() && is_cont_byte(s[i + 1]) && is_cont_byte(s[i + 2]) && is_cont_byte(
                s[i + 3],
            ) {
                spec_chars_join(s.subrange(i, i + 4), spec_parse_chars(s, i + 4))
            } else {
                None
            }
        } else if b0 == 0xf4 {
            if i + 4 <= s.len() && 0x80 <= s[i + 1] && s[i + 1] <= 0x8f && is_cont_byte(s[i + 2])
                && is_cont_byte(s[i + 3]) {
                spec_chars_join(s.subrange(i, i + 4), spec_parse_chars(s, i + 4))
            } else {
                None
            }
        } else {
            None
        }
    }
}

fn ws_byte(b: u8) -> (r: bool)
    ensures
        r == is_json_ws(b),
{
    b == 0x20 || b == 0x09 || b == 0x0a || b == 0x0d
}

/// First non-whitespace position at or after `i`.
pub fn skip_ws(s: &Vec<u8>, i: usize) -> (j: usize)
    requires
        i <= s@.len(),
    ensures
        j as int == spec_skip_ws(s@, i as int),
        i <= j <= s@.len(),
{
    let mut j = i;
    while j < s.len() && ws_byte(s[j])
        invariant
            i <= j <= s@.len(),
            spec_skip_ws(s@, i as int) == spec_skip_ws(s@, j as int),
        decreases s@.len() - j,
    {
        j = j + 1;
    }
    j
}

fn hex_val(b: u8) -> (r: Option<u8>)
    ensures
        r == spec_hex_val(b),
{
    if 0x30 <= b && b <= 0x39 {
        Some(b - 0x30)
    } else if 0x41 <= b && b <= 0x46 {
        Some(b - 0x41 + 10)
    } else if 0x61 <= b && b <= 0x66 {
        Some(b - 0x61 + 10)
    } else {
        None
    }
}

fn hex4(s: &Vec<u8>, i: usize) -> (r: Option<u32>)
    requires
        i + 4 <= s@.len(),
    ensures
        r is Some <==> spec_hex4(s@, i as int) is Some,
        r matches Some(v) ==> spec_hex4(s@, i as int) == Some(v as int),
{
    let n = s.len();
    proof {
        assert(i + 4 <= n);
    }
    let h0 = hex_val(s[i]);
    let h1 = hex_val(s[i + 1]);
    let h2 = hex_val(s[i + 2]);
    let h3 = hex_val(s[i + 3]);
    match (h0, h1, h2, h3) {
        (Some(a), Some(b), Some(c), Some(d)) => Some(
            (a as u32) * 0x1000 + (b as u32) * 0x100 + (c as u32) * 0x10 + (d as u32),
        ),
        _ => None,
    }
}

fn unescape_byte(b: u8) -> (r: Option<u8>)
    ensures
        r == spec_unescape_byte(b),
{
    if b == QUOTE {
        Some(QUOTE)
    } else if b == BACKSLASH {
        Some(BACKSLASH)
    } else if b == SLASH {
        Some(SLASH)
    } else if b == 0x62 {
        Some(0x08)
    } else if b == 0x66 {
        Some(0x0c)
    } else if b == 0x6e {
        Some(0x0a)
    } else if b == 0x72 {
        Some(0x0d)
    } else if b == 0x74 {
        Some(0x09)
    } else {
        None
    }
}

/// Appends the UTF-8 encoding of the scalar value `cp`.
fn push_utf8(out: &mut Vec<u8>, cp: u32)
    requires
        cp <= 0x10ffff,
    ensures
        final(out)@ == old(out)@ + spec_utf8_encode(cp as int),
{
    if cp < 0x80 {
        out.push(cp as u8);
        assert(out@ =~= old(out)@ + spec_utf8_encode(cp as int));
    } else if cp < 0x800 {
        assert(cp / 0x40 < 0x20) by (nonlinear_arith)
            requires
                cp < 0x800,
        ;
        out.push((0xc0 + cp / 0x40) as u8);
        out.push((0x80 + cp % 0x40) as u8);
        assert(out@ =~= old(out)@ + spec_utf8_encode(cp as int));
    } else if cp < 0x10000 {
        assert(cp / 0x1000 < 0x10) by (nonlinear_arith)
            requires
                cp < 0x10000,
        ;
        out.push((0xe0 + cp / 0x1000) as u8);
        out.push((0x80 + (cp / 0x40) % 0x40) as u8);
        out.push((0x80 + cp % 0x40) as u8);
        assert(out@ =~= old(out)@ + spec_utf8_encode(cp as int));
    } else {
        assert(cp / 0x40000 <= 4) by (nonlinear_arith)
            requires
                cp <= 0x10ffff,
        ;
        out.push((0xf0 + cp / 0x40000) as u8);
        out.push((0x80 + (cp / 0x1000) % 0x40) as u8);
        out.push((0x80 + (cp / 0x40) % 0x40) as u8);
        out.push((0x80 + cp % 0x40) as u8);
        assert(out@ =~= old(out)@ + spec_utf8_encode(cp as int));
    }
}

pub proof fn lemma_parse_chars_bounds(s: Seq<u8>, i: int)
    requires
        0 <= i <= s.len(),
    ensures
        spec_parse_chars(s, i) matches Some(p) ==> i < p.1 <= s.len(),
    decreases s.len() - i,
{
    if spec_parse_chars(s, i) is Some && i < s.len() && s[i] != QUOTE {
        if s[i] == BACKSLASH {
            if i + 2 <= s.len() && s[i + 1] == LETTER_U {
                if i + 6 <= s.len() {
                    match spec_hex4(s, i + 2) {
                        Some(cp) => if 0xd800 <= cp < 0xdc00 {
                            lemma_parse_chars_bounds(s, i + 12);
                        } else {
                            lemma_parse_chars_bounds(s, i + 6);
                        },
                        None => (),
                    }
                }
            } else {
                lemma_parse_chars_bounds(s, i + 2);
            }
        } else if s[i] < 0x80 {
            lemma_parse_chars_bounds(s, i + 1);
        } else {
            let b0 = s[i];
            if 0xc2 <= b0 && b0 <= 0xdf {
                lemma_parse_chars_bounds(s, i + 2);
            } else if 0xe0 <= b0 && b0 <= 0xef {
                lemma_parse_chars_bounds(s, i + 3);
            } else {
                lemma_parse_chars_bounds(s, i + 4);
            }
        }
    }
}

/// Decodes the JSON string whose opening quote stands at `i`: the decoded
/// bytes and the index just past the closing quote.
pub open spec fn spec_parse_string(s: Seq<u8>, i: int) -> Option<(Seq<u8>, int)> {
    if 0 <= i < s.len() && s[i] == QUOTE {
        spec_parse_chars(s, i + 1)
    } else {
        None
    }
}

proof fn lemma_chars_join_assoc(a: Seq<u8>, b: Seq<u8>, r: Option<(Seq<u8>, int)>)
    ensures
        spec_chars_join(a, spec_chars_join(b, r)) == spec_chars_join(a + b, r),
{
    match r {
        Some(p) => {
            assert(a + (b + p.0) =~= (a + b) + p.0);
        },
        None => {},
    }
}

/// Parses the JSON string whose opening quote stands at `i`.
#[verifier::rlimit(100)]
fn parse_string(s: &Vec<u8>, i: usize) -> (r: Option<(Vec<u8>, usize)>)
    requires
        i <= s@.len(),
    ensures
        match r {
            Some(p) => spec_parse_string(s@, i as int) == Some((p.0@, p.1 as int)),
            None => spec_parse_string(s@, i as int) is None,
        },
{
    if i >= s.len() || s[i] != QUOTE {
        return None;
    }
    let ghost start: int = i + 1;
    let mut j: usize = i + 1;
    let mut out: Vec<u8> = Vec::new();
    loop
        invariant
            i < s@.len(),
            s@[i as int] == QUOTE,
            start == i + 1,
            start <= j as int <= s@.len(),
            spec_parse_chars(s@, start) == spec_chars_join(out@, spec_parse_chars(s@, j as int)),
        decreases s@.len() - j,
    {
        let n = s.len();
        if j >= n {
            return None;
        }
        let b = s[j];
        if b == QUOTE {
            proof {
                assert(out@ + Seq::<u8>::empty() =~= out@);
            }
            return Some((out, j + 1));
        } else if b == BACKSLASH {
            if n - j < 2 {
                return None;
            }
            let e = s[j + 1];
            if e == LETTER_U {
                if n - j < 6 {
                    return None;
                }
                let cp_opt = hex4(s, j + 2);
                if cp_opt.is_none() {
                    return None;
                }
                let cp = cp_opt.unwrap();
                if 0xd800 <= cp && cp < 0xdc00 {
                    if n - j < 12 {
                        return None;
                    }
                    if s[j + 6] != BACKSLASH || s[j + 7] != LETTER_U {
                        return None;
                    }
                    let lo_opt = hex4(s, j + 8);
                    if lo_opt.is_none() {
                        return None;
                    }
                    let lo = lo_opt.unwrap();
                    if !(0xdc00 <= lo && lo < 0xe000) {
                        return None;
                    }
                    let full: u32 = 0x10000 + (cp - 0xd800) * 0x400 + (lo - 0xdc00);
                    let ghost pre = out@;
                    push_utf8(&mut out, full);
                    proof {
                        lemma_chars_join_assoc(
                            pre,
                            spec_utf8_encode(full as int),
                            spec_parse_chars(s@, j + 12),
                        );
                    }
                    j = j + 12;
                } else if 0xdc00 <= cp && cp < 0xe000 {
                    return None;
                } else {
                    let ghost pre = out@;
                    push_utf8(&mut out, cp);
                    proof {
                        lemma_chars_join_assoc(
                            pre,
                            spec_utf8_encode(cp as int),
                            spec_parse_chars(s@, j + 6),
                        );
                    }
                    j = j + 6;
                }
            } else {
                let d = unescape_byte(e);
                if d.is_none() {
                    return None;
                }
                let ghost pre = out@;
                out.push(d.unwrap());
                proof {
                    assert(out@ =~= pre + seq![spec_unescape_byte(e).unwrap()]);
                    lemma_chars_join_assoc(
                        pre,
                        seq![spec_unescape_byte(e).unwrap()],
                        spec_parse_chars(s@, j + 2),
                    );
                }
                j = j + 2;
            }
        } else if b < 0x20 {
            return None;
        } else if b < 0x80 {
            let ghost pre = out@;
            out.push(b);
            proof {
                assert(out@ =~= pre + seq![b]);
                lemma_chars_join_assoc(pre, seq![b], spec_parse_chars(s@, j + 1));
            }
            j = j + 1;
        } else {
            // A multi-byte UTF-8 sequence, kept verbatim.
            let take: usize = if 0xc2 <= b && b <= 0xdf {
                if n - j < 2 || !cont_byte(s[j + 1]) {
                    return None;
                }
                2
            } else if b == 0xe0 {
                if n - j < 3 || !(0xa0 <= s[j + 1] && s[j + 1] <= 0xbf) || !cont_byte(s[j + 2]) {
                    return None;
                }
                3
            } else if 0xe1 <= b && b <= 0xec || 0xee <= b && b <= 0xef {
                if n - j < 3 || !cont_byte(s[j + 1]) || !cont_byte(s[j + 2]) {
                    return None;
                }
                3
            } else if b == 0xed {
                if n - j < 3 || !(0x80 <= s[j + 1] && s[j + 1] <= 0x9f) || !cont_byte(s[j + 2]) {
                    return None;
                }
                3
            } else if b == 0xf0 {
                if n - j < 4 || !(0x90 <= s[j + 1] && s[j + 1] <= 0xbf) || !cont_byte(s[j + 2])
                    || !cont_byte(s[j + 3]) {
                    return None;
                }
                4
            } else if 0xf1 <= b && b <= 0xf3 {
                if n - j < 4 || !cont_byte(s[j + 1]) || !cont_byte(s[j + 2]) || !cont_byte(
                    s[j + 3],
                ) {
                    return None;
                }
                4
            } else if b == 0xf4 {
                if n - j < 4 || !(0x80 <= s[j + 1] && s[j + 1] <= 0x8f) || !cont_byte(s[j + 2])
                    || !cont_byte(s[j + 3]) {
                    return None;
                }
                4
            } else {
                return None;
            };
            let ghost pre = out@;
            let mut c: usize = 0;
            while c < take
                invariant
                    0 <= c <= take,
                    n == s@.len(),
                    j + take <= n,
                    out@ == pre + s@.subrange(j as int, j + c),
                decreases take - c,
            {
                out.push(s[j + c]);
                proof {
                    assert(pre + s@.subrange(j as int, j + c) + seq![s@[j + c]] =~= pre
                        + s@.subrange(j as int, j + c + 1));
                }
                c = c + 1;
            }
            proof {
                lemma_chars_join_assoc(
                    pre,
                    s@.subrange(j as int, j + take),
                    spec_parse_chars(s@, j + take),
                );
            }
            j = j + take;
        }
    }
}

fn cont_byte(b: u8) -> (r: bool)
    ensures
        r == is_cont_byte(b),
{
    0x80 <= b && b <= 0xbf
}

pub proof fn lemma_parse_string_bounds(s: Seq<u8>, i: int)
    ensures
        spec_parse_string(s, i) matches Some(p) ==> 0 <= i && i < p.1 <= s.len(),
{
    if spec_parse_string(s, i) is Some {
        lemma_parse_chars_bounds(s, i + 1);
    }
}

/// Decodes one `"key" : "value"` pair starting at `i`: the decoded pair and
/// the index just past the value's closing quote.
pub open spec fn spec_parse_pair(s: Seq<u8>, i: int) -> Option<((Seq<u8>, Seq<u8>), int)> {
    match spec_parse_string(s, i) {
        None => None,
        Some(k) => {
            let j1 = spec_skip_ws(s, k.1);
            if 0 <= j1 < s.len() && s[j1] == COLON {
                let j2 = spec_skip_ws(s, j1 + 1);
                match spec_parse_string(s, j2) {
                    None => None,
                    Some(v) => Some(((k.0, v.0), v.1)),
                }
            } else {
                None
            }
        },
    }
}

pub proof fn lemma_parse_pair_bounds(s: Seq<u8>, i: int)
    ensures
        spec_parse_pair(s, i) matches Some(p) ==> 0 <= i && i < p.1 <= s.len(),
{
    if spec_parse_pair(s, i) is Some {
        lemma_parse_string_bounds(s, i);
        let k = spec_parse_string(s, i).unwrap();
        lemma_skip_ws_bounds(s, k.1);
        let j1 = spec_skip_ws(s, k.1);
        lemma_skip_ws_bounds(s, j1 + 1);
        let j2 = spec_skip_ws(s, j1 + 1);
        lemma_parse_string_bounds(s, j2);
    }
}

/// Prepends `pre` to the pairs of a partial member-list parse result.
pub open spec fn spec_members_join(
    pre: Seq<(Seq<u8>, Seq<u8>)>,
    r: Option<(Seq<(Seq<u8>, Seq<u8>)>, int)>,
) -> Option<(Seq<(Seq<u8>, Seq<u8>)>, int)> {
    match r {
        Some(p) => Some((pre + p.0, p.1)),
        None => None,
    }
}

/// Decodes a non-empty, comma-separated list of pairs starting at `i`: the
/// pairs in textual order and the index of the first byte after the list and
/// its trailing whitespace.
pub open spec fn spec_parse_members(s: Seq<u8>, i: int) -> Option<(Seq<(Seq<u8>, Seq<u8>)>, int)>
    recommends
        0 <= i <= s.len(),
    decreases s.len() - i,
{
    match spec_parse_pair(s, i) {
        None => None,
        Some(p) => {
            let j2 = spec_skip_ws(s, p.1);
            if 0 <= j2 < s.len() && s[j2] == COMMA {
                let j3 = spec_skip_ws(s, j2 + 1);
                proof {
                    lemma_parse_pair_bounds(s, i);
                    lemma_skip_ws_bounds(s, p.1);
                    lemma_skip_ws_bounds(s, j2 + 1);
                }
                spec_members_join(seq![p.0], spec_parse_members(s, j3))
            } else {
                Some((seq![p.0], j2))
            }
        },
    }
}

pub proof fn lemma_parse_members_bounds(s: Seq<u8>, i: int)
    ensures
        spec_parse_members(s, i) matches Some(p) ==> 0 <= i && i < p.1 <= s.len(),
    decreases s.len() - i,
{
    match spec_parse_pair(s, i) {
        None => {},
        Some(p) => {
            lemma_parse_pair_bounds(s, i);
            lemma_skip_ws_bounds(s, p.1);
            let j2 = spec_skip_ws(s, p.1);
            if 0 <= j2 < s.len() && s[j2] == COMMA {
                lemma_skip_ws_bounds(s, j2 + 1);
                let j3 = spec_skip_ws(s, j2 + 1);
                lemma_parse_members_bounds(s, j3);
            }
        },
    }
}

/// The sequence of decoded (key, value) pairs of a well-formed mapping file:
/// optional whitespace, one JSON object whose values are all strings,
/// optional whitespace, end of input. `None` otherwise.
pub open spec fn spec_parse_config(s: Seq<u8>) -> Option<Seq<(Seq<u8>, Seq<u8>)>> {
    let i0 = spec_skip_ws(s, 0);
    if 0 <= i0 < s.len() && s[i0] == LBRACE {
        let i1 = spec_skip_ws(s, i0 + 1);
        if 0 <= i1 < s.len() && s[i1] == RBRACE {
            if spec_skip_ws(s, i1 + 1) == s.len() {
                Some(seq![])
            } else {
                None
            }
        } else {
            match spec_parse_members(s, i1) {
                None => None,
                Some(p) => if 0 <= p.1 < s.len() && s[p.1] == RBRACE && spec_skip_ws(s, p.1 + 1)
                    == s.len() {
                    Some(p.0)
                } else {
                    None
                },
            }
        }
    } else {
        None
    }
}

/// The views of a vector of decoded pairs.
pub open spec fn entry_views(es: Seq<(Vec<u8>, Vec<u8>)>) -> Seq<(Seq<u8>, Seq<u8>)> {
    es.map_values(|e: (Vec<u8>, Vec<u8>)| (e.0@, e.1@))
}

proof fn lemma_entry_views_push(es: Seq<(Vec<u8>, Vec<u8>)>, e: (Vec<u8>, Vec<u8>))
    ensures
        entry_views(es.push(e)) == entry_views(es) + seq![(e.0@, e.1@)],
{
    assert(entry_views(es.push(e)) =~= entry_views(es) + seq![(e.0@, e.1@)]);
}

proof fn lemma_members_join_assoc(
    a: Seq<(Seq<u8>, Seq<u8>)>,
    b: Seq<(Seq<u8>, Seq<u8>)>,
    r: Option<(Seq<(Seq<u8>, Seq<u8>)>, int)>,
)
    ensures
        spec_members_join(a, spec_members_join(b, r)) == spec_members_join(a + b, r),
{
    match r {
        Some(p) => {
            assert(a + (b + p.0) =~= (a + b) + p.0);
        },
        None => {},
    }
}

/// Parses one `"key" : "value"` pair starting at `i`.
fn parse_pair(s: &Vec<u8>, i: usize) -> (r: Option<((Vec<u8>, Vec<u8>), usize)>)
    requires
        i <= s@.len(),
    ensures
        match r {
            Some(p) => spec_parse_pair(s@, i as int) == Some(((p.0.0@, p.0.1@), p.1 as int)),
            None => spec_parse_pair(s@, i as int) is None,
        },
{
    let k = match parse_string(s, i) {
        None => {
            return None;
        },
        Some(k) => k,
    };
    proof {
        lemma_parse_string_bounds(s@, i as int);
    }
    let j1 = skip_ws(s, k.1);
    if j1 >= s.len() || s[j1] != COLON {
        return None;
    }
    let j2 = skip_ws(s, j1 + 1);
    match parse_string(s, j2) {
        None => None,
        Some(v) => Some(((k.0, v.0), v.1)),
    }
}

/// Parses the comma-separated pair list starting at `i`.
#[verifier::rlimit(100)]
fn parse_members(s: &Vec<u8>, i: usize) -> (r: Option<(Vec<(Vec<u8>, Vec<u8>)>, usize)>)
    requires
        i <= s@.len(),
    ensures
        match r {
            Some(p) => spec_parse_members(s@, i as int) == Some((entry_views(p.0@), p.1 as int)),
            None => spec_parse_members(s@, i as int) is None,
        },
{
    let ghost i0: int = i as int;
    let mut cur: usize = i;
    let mut out: Vec<(Vec<u8>, Vec<u8>)> = Vec::new();
    loop
        invariant
            i0 == i as int,
            i0 <= cur as int <= s@.len(),
            spec_parse_members(s@, i0) == spec_members_join(
                entry_views(out@),
                spec_parse_members(s@, cur as int),
            ),
        decreases s@.len() - cur,
    {
        let p = match parse_pair(s, cur) {
            None => {
                return None;
            },
            Some(p) => p,
        };
        proof {
            lemma_parse_pair_bounds(s@, cur as int);
        }
        let j = p.1;
        let ghost pv = (p.0.0@, p.0.1@);
        let ghost pe = p.0;
        let ghost pre = out@;
        out.push(p.0);
        proof {
            lemma_entry_views_push(pre, pe);
        }
        let j2 = skip_ws(s, j);
        if j2 < s.len() && s[j2] == COMMA {
            let j3 = skip_ws(s, j2 + 1);
            proof {
                lemma_members_join_assoc(
                    entry_views(pre),
                    seq![pv],
                    spec_parse_members(s@, j3 as int),
                );
            }
            cur = j3;
        } else {
            proof {
                assert(entry_views(pre) + seq![pv] + Seq::<(Seq<u8>, Seq<u8>)>::empty()
                    =~= entry_views(pre) + seq![pv]);
            }
            return Some((out, j2));
        }
    }
}

/// ASCII for one lower-case hexadecimal digit.
pub open spec fn spec_hex_digit(v: int) -> u8
    recommends
        0 <= v < 16,
{
    if v < 10 {
        (0x30 + v) as u8
    } else {
        (0x61 + (v - 10)) as u8
    }
}

/// How one byte of a key or value stands inside a serialized JSON string:
/// quote and backslash get a two-byte escape, control bytes a `\u00..`
/// escape, and every other byte stands verbatim.
pub open spec fn spec_escape_byte(b: u8) -> Seq<u8> {
    if b == QUOTE {
        seq![BACKSLASH, QUOTE]
    } else if b == BACKSLASH {
        seq![BACKSLASH, BACKSLASH]
    } else if b < 0x20 {
        seq![BACKSLASH, LETTER_U, 0x30, 0x30, spec_hex_digit(b as int / 16), spec_hex_digit(b as int % 16)]
    } else {
        seq![b]
    }
}

pub open spec fn spec_escape(bs: Seq<u8>) -> Seq<u8>
    decreases bs.len(),
{
    if bs.len() == 0 {
        seq![]
    } else {
        spec_escape(bs.drop_last()) + spec_escape_byte(bs.last())
    }
}

/// A serialized JSON string: quote, escaped bytes, quote.
pub open spec fn spec_ser_string(bs: Seq<u8>) -> Seq<u8> {
    seq![QUOTE] + spec_escape(bs) + seq![QUOTE]
}

pub open spec fn spec_ser_pair(e: (Seq<u8>, Seq<u8>)) -> Seq<u8> {
    spec_ser_string(e.0) + seq![COLON] + spec_ser_string(e.1)
}

pub open spec fn spec_ser_entries(es: Seq<(Seq<u8>, Seq<u8>)>) -> Seq<u8>
    decreases es.len(),
{
    if es.len() == 0 {
        seq![]
    } else if es.len() == 1 {
        spec_ser_pair(es[0])
    } else {
        spec_ser_entries(es.drop_last()) + seq![COMMA] + spec_ser_pair(es.last())
    }
}

/// The serialized form of a mapping: one JSON object, pairs in order, no
/// insignificant whitespace.
pub open spec fn spec_serialize_config(es: Seq<(Seq<u8>, Seq<u8>)>) -> Seq<u8> {
    seq![LBRACE] + spec_ser_entries(es) + seq![RBRACE]
}

fn push_escaped(out: &mut Vec<u8>, b: u8)
    ensures
        final(out)@ == old(out)@ + spec_escape_byte(b),
{
    if b == QUOTE {
        out.push(BACKSLASH);
        out.push(QUOTE);
    } else if b == BACKSLASH {
        out.push(BACKSLASH);
        out.push(BACKSLASH);
    } else if b < 0x20 {
        out.push(BACKSLASH);
        out.push(LETTER_U);
        out.push(0x30);
        out.push(0x30);
        let hi = b / 16;
        let lo = b % 16;
        out.push(if hi < 10 { 0x30 + hi } else { 0x61 + (hi - 10) });
        out.push(if lo < 10 { 0x30 + lo } else { 0x61 + (lo - 10) });
    } else {
        out.push(b);
    }
    proof {
        assert(out@ =~= old(out)@ + spec_escape_byte(b));
    }
}

proof fn lemma_escape_step(bs: Seq<u8>, k: int)
    requires
        0 <= k < bs.len(),
    ensures
        spec_escape(bs.take(k + 1)) == spec_escape(bs.take(k)) + spec_escape_byte(bs[k]),
{
    assert(bs.take(k + 1).drop_last() =~= bs.take(k));
    assert(bs.take(k + 1).last() == bs[k]);
}

fn push_ser_string(out: &mut Vec<u8>, bs: &Vec<u8>)
    ensures
        final(out)@ == old(out)@ + spec_ser_string(bs@),
{
    let ghost pre = out@;
    out.push(QUOTE);
    let mut k: usize = 0;
    while k < bs.len()
        invariant
            0 <= k <= bs@.len(),
            out@ == pre + seq![QUOTE] + spec_escape(bs@.take(k as int)),
        decreases bs@.len() - k,
    {
        push_escaped(out, bs[k]);
        proof {
            lemma_escape_step(bs@, k as int);
            assert(pre + seq![QUOTE] + spec_escape(bs@.take(k as int)) + spec_escape_byte(bs@[k as int])
                =~= pre + seq![QUOTE] + spec_escape(bs@.take(k as int + 1)));
        }
        k = k + 1;
    }
    proof {
        assert(bs@.take(bs@.len() as int) =~= bs@);
    }
    out.push(QUOTE);
    proof {
        assert(out@ =~= pre + spec_ser_string(bs@));
    }
}

proof fn lemma_ser_entries_step(es: Seq<(Seq<u8>, Seq<u8>)>, k: int)
    requires
        1 <= k < es.len(),
    ensures
        spec_ser_entries(es.take(k + 1)) == spec_ser_entries(es.take(k)) + seq![COMMA]
            + spec_ser_pair(es[k]),
{
    assert(es.take(k + 1).drop_last() =~= es.take(k));
    assert(es.take(k + 1).last() == es[k]);
}

/// Serializes a sequence of (key, value) pairs as one JSON object, in order,
/// without insignificant whitespace.
pub fn serialize_config_entries(es: &Vec<(Vec<u8>, Vec<u8>)>) -> (r: Vec<u8>)
    ensures
        r@ == spec_serialize_config(entry_views(es@)),
{
    let mut out: Vec<u8> = Vec::new();
    out.push(LBRACE);
    let ghost ev = entry_views(es@);
    let mut k: usize = 0;
    while k < es.len()
        invariant
            0 <= k <= es@.len(),
            ev == entry_views(es@),
            out@ == seq![LBRACE] + spec_ser_entries(ev.take(k as int)),
        decreases es@.len() - k,
    {
        if k > 0 {
            out.push(COMMA);
        }
        let ghost mid = out@;
        push_ser_string(&mut out, &es[k].0);
        out.push(COLON);
        push_ser_string(&mut out, &es[k].1);
        proof {
            assert(ev[k as int] == (es@[k as int].0@, es@[k as int].1@));
            assert(out@ =~= mid + spec_ser_pair(ev[k as int]));
            if k == 0 {
                assert(ev.take(1) =~= seq![ev[0]]);
                assert(out@ =~= seq![LBRACE] + spec_ser_entries(ev.take(k as int + 1)));
            } else {
                lemma_ser_entries_step(ev, k as int);
                assert(out@ =~= seq![LBRACE] + spec_ser_entries(ev.take(k as int + 1)));
            }
        }
        k = k + 1;
    }
    proof {
        assert(ev.take(ev.len() as int) =~= ev);
    }
    out.push(RBRACE);
    out
}

/// The error on a mapping file that is not a well-formed object of strings.
#[derive(Debug, Clone, Copy, PartialEq, Eq, Structural)]
pub struct ParseError;

/// Parses a whole mapping file: the decoded (key, value) pairs in textual
/// order, or an error where the bytes are not exactly one JSON object of
/// strings (with optional surrounding whitespace).
pub fn parse_config_entries(s: &Vec<u8>) -> (r: Result<Vec<(Vec<u8>, Vec<u8>)>, ParseError>)
    ensures
        match r {
            Ok(es) => spec_parse_config(s@) == Some(entry_views(es@)),
            Err(_) => spec_parse_config(s@) is None,
        },
{
    let i0 = skip_ws(s, 0);
    if i0 >= s.len() || s[i0] != LBRACE {
        return Err(ParseError);
    }
    let i1 = skip_ws(s, i0 + 1);
    if i1 < s.len() && s[i1] == RBRACE {
        let end = skip_ws(s, i1 + 1);
        if end == s.len() {
            let out: Vec<(Vec<u8>, Vec<u8>)> = Vec::new();
            proof {
                assert(entry_views(out@) =~= Seq::<(Seq<u8>, Seq<u8>)>::empty());
            }
            Ok(out)
        } else {
            Err(ParseError)
        }
    } else {
        let p = match parse_members(s, i1) {
            None => {
                return Err(ParseError);
            },
            Some(p) => p,
        };
        proof {
            lemma_parse_members_bounds(s@, i1 as int);
        }
        let j = p.1;
        if j < s.len() && s[j] == RBRACE {
            let end = skip_ws(s, j + 1);
            if end == s.len() {
                Ok(p.0)
            } else {
                Err(ParseError)
            }
        } else {
            Err(ParseError)
        }
    }
}

} // verus!
