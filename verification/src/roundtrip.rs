//! The codec's round trip: a table serialized by the library parses back
//! pair for pair, provided every key and value is well-formed UTF-8 (which
//! everything decoded from a mapping file is).

use vstd::prelude::*;

use crate::json::{
    is_cont_byte, spec_chars_join, spec_escape, spec_escape_byte, spec_hex_digit, spec_hex_val,
    spec_parse_chars, spec_parse_config, spec_parse_members, spec_parse_pair, spec_parse_string,
    spec_ser_entries, spec_ser_pair, spec_ser_string, spec_serialize_config, spec_skip_ws,
    spec_unescape_byte, spec_utf8_encode, BACKSLASH, COLON, COMMA, LBRACE, LETTER_U, QUOTE, RBRACE,
};

verus! {

/// Well-formed string content: every byte at or above 0x80 belongs to a
/// valid UTF-8 multi-byte sequence (no overlong form, no surrogate, nothing
/// past 0x10ffff). Bytes below 0x80 are unconstrained: the serializer
/// escapes the ones JSON cannot hold verbatim.
pub open spec fn content_ok(bs: Seq<u8>) -> bool
    decreases bs.len(),
{
    if bs.len() == 0 {
        true
    } else if bs[0] < 0x80 {
        content_ok(bs.skip(1))
    } else {
        let b0 = bs[0];
        if 0xc2 <= b0 && b0 <= 0xdf {
            bs.len() >= 2 && is_cont_byte(bs[1]) && content_ok(bs.skip(2))
        } else if b0 == 0xe0 {
            bs.len() >= 3 && 0xa0 <= bs[1] && bs[1] <= 0xbf && is_cont_byte(bs[2]) && content_ok(
                bs.skip(3),
            )
        } else if 0xe1 <= b0 && b0 <= 0xec || 0xee <= b0 && b0 <= 0xef {
            bs.len() >= 3 && is_cont_byte(bs[1]) && is_cont_byte(bs[2]) && content_ok(bs.skip(3))
        } else if b0 == 0xed {
            bs.len() >= 3 && 0x80 <= bs[1] && bs[1] <= 0x9f && is_cont_byte(bs[2]) && content_ok(
                bs.skip(3),
            )
        } else if b0 == 0xf0 {
            bs.len() >= 4 && 0x90 <= bs[1] && bs[1] <= 0xbf && is_cont_byte(bs[2]) && is_cont_byte(
                bs[3],
            ) && content_ok(bs.skip(4))
        } else if 0xf1 <= b0 && b0 <= 0xf3 {
            bs.len() >= 4 && is_cont_byte(bs[1]) && is_cont_byte(bs[2]) && is_cont_byte(bs[3])
                && content_ok(bs.skip(4))
        } else if b0 == 0xf4 {
            bs.len() >= 4 && 0x80 <= bs[1] && bs[1] <= 0x8f && is_cont_byte(bs[2]) && is_cont_byte(
                bs[3],
            ) && content_ok(bs.skip(4))
        } else {
            false
        }
    }
}

proof fn lemma_hex_digit_val(v: int)
    requires
        0 <= v < 16,
    ensures
        spec_hex_val(spec_hex_digit(v)) == Some(v as u8),
{
}

proof fn lemma_escape_first(bs: Seq<u8>)
    requires
        bs.len() > 0,
    ensures
        spec_escape(bs) == spec_escape_byte(bs[0]) + spec_escape(bs.skip(1)),
    decreases bs.len(),
{
    if bs.len() == 1 {
        assert(bs.drop_last() =~= Seq::<u8>::empty());
        assert(bs.skip(1) =~= Seq::<u8>::empty());
        assert(Seq::<u8>::empty() + spec_escape_byte(bs[0]) =~= spec_escape_byte(bs[0]) + Seq::<
            u8,
        >::empty());
    } else {
        lemma_escape_first(bs.drop_last());
        assert(bs.drop_last().skip(1) =~= bs.skip(1).drop_last());
        assert(bs.skip(1).last() == bs.last());
        assert((spec_escape_byte(bs[0]) + spec_escape(bs.skip(1).drop_last())) + spec_escape_byte(
            bs.last(),
        ) =~= spec_escape_byte(bs[0]) + (spec_escape(bs.skip(1).drop_last()) + spec_escape_byte(
            bs.skip(1).last(),
        )));
    }
}

/// From a window of `s` that holds `a + b`, the bytes of `a` stand at `i`
/// and the bytes of `b` form the window right after them.
proof fn lemma_tail_window(s: Seq<u8>, i: int, a: Seq<u8>, b: Seq<u8>)
    requires
        0 <= i,
        i + a.len() + b.len() <= s.len(),
        s.subrange(i, i + a.len() + b.len()) == a + b,
    ensures
        s.subrange(i, i + a.len()) == a,
        s.subrange(i + a.len(), i + a.len() + b.len()) == b,
        forall|t: int| 0 <= t < a.len() ==> s[i + t] == a[t],
{
    assert forall|t: int| 0 <= t < a.len() implies s[i + t] == a[t] by {
        assert(s.subrange(i, i + a.len() + b.len())[t] == s[i + t]);
        assert((a + b)[t] == a[t]);
    }
    assert(s.subrange(i, i + a.len()) =~= a);
    assert(s.subrange(i + a.len(), i + a.len() + b.len()) =~= b) by {
        assert forall|t: int| 0 <= t < b.len() implies s[i + a.len() + t] == b[t] by {
            assert(s.subrange(i, i + a.len() + b.len())[a.len() + t] == s[i + a.len() + t]);
            assert((a + b)[a.len() + t] == b[t]);
        }
    }
}

/// The escaped bytes of well-formed content followed by a closing quote
/// decode back to exactly that content.
#[verifier::rlimit(100)]
proof fn lemma_parse_escaped(s: Seq<u8>, i: int, bs: Seq<u8>)
    requires
        content_ok(bs),
        0 <= i,
        i + spec_escape(bs).len() + 1 <= s.len(),
        s.subrange(i, i + spec_escape(bs).len() + 1) == spec_escape(bs) + seq![QUOTE],
    ensures
        spec_parse_chars(s, i) == Some((bs, i + spec_escape(bs).len() + 1)),
    decreases bs.len(), 1int,
{
    let le = spec_escape(bs).len();
    if bs.len() == 0 {
        assert(spec_escape(bs) + seq![QUOTE] =~= seq![QUOTE]);
        assert(s[i] == s.subrange(i, i + le + 1)[0]);
        assert(bs =~= Seq::<u8>::empty());
    } else {
        let b0 = bs[0];
        let rest = bs.skip(1);
        lemma_escape_first(bs);
        let eb = spec_escape_byte(b0);
        if b0 < 0x80 {
            assert(spec_escape(bs) + seq![QUOTE] =~= eb + (spec_escape(rest) + seq![QUOTE]));
            lemma_tail_window(s, i, eb, spec_escape(rest) + seq![QUOTE]);
            lemma_parse_escaped(s, i + eb.len(), rest);
            if b0 == QUOTE || b0 == BACKSLASH {
                // serialized as the two-byte escape `\"` or `\\`
                assert(s[i] == BACKSLASH && s[i + 1] == b0);
                assert(spec_parse_chars(s, i) == spec_chars_join(
                    seq![b0],
                    spec_parse_chars(s, i + 2),
                ));
            } else if b0 < 0x20 {
                // serialized as `\u00..`
                assert(s[i] == BACKSLASH && s[i + 1] == LETTER_U && s[i + 2] == 0x30 && s[i + 3]
                    == 0x30 && s[i + 4] == spec_hex_digit(b0 as int / 16) && s[i + 5]
                    == spec_hex_digit(b0 as int % 16));
                lemma_hex_digit_val(b0 as int / 16);
                lemma_hex_digit_val(b0 as int % 16);
                assert(crate::json::spec_hex4(s, i + 2) == Some(b0 as int));
                assert(spec_utf8_encode(b0 as int) =~= seq![b0]);
                assert(spec_parse_chars(s, i) == spec_chars_join(
                    seq![b0],
                    spec_parse_chars(s, i + 6),
                ));
            } else {
                // serialized verbatim
                assert(eb =~= seq![b0]);
                assert(s[i + 0] == eb[0]);
                assert(spec_parse_chars(s, i) == spec_chars_join(
                    seq![b0],
                    spec_parse_chars(s, i + 1),
                ));
            }
            assert(seq![b0] + rest =~= bs);
        } else {
            lemma_parse_escaped_multibyte(s, i, bs);
        }
    }
}

/// Bytes at or above 0x80 are escaped to themselves, so they pass through
/// `spec_escape` as a verbatim prefix.
proof fn lemma_escape_verbatim_prefix(bs: Seq<u8>, n: int)
    requires
        1 <= n <= bs.len(),
        forall|t: int| 0 <= t < n ==> bs[t] >= 0x80,
    ensures
        spec_escape(bs) == bs.take(n) + spec_escape(bs.skip(n)),
    decreases n,
{
    lemma_escape_first(bs);
    assert(spec_escape_byte(bs[0]) =~= seq![bs[0]]);
    if n == 1 {
        assert(seq![bs[0]] + spec_escape(bs.skip(1)) =~= bs.take(1) + spec_escape(bs.skip(1)));
    } else {
        lemma_escape_verbatim_prefix(bs.skip(1), n - 1);
        assert(bs.skip(1).skip(n - 1) =~= bs.skip(n));
        assert(seq![bs[0]] + (bs.skip(1).take(n - 1) + spec_escape(bs.skip(n))) =~= bs.take(n)
            + spec_escape(bs.skip(n)));
    }
}

/// The case of `lemma_parse_escaped` where the content starts with a
/// multi-byte UTF-8 sequence, which the serializer keeps verbatim.
#[verifier::rlimit(100)]
proof fn lemma_parse_escaped_multibyte(s: Seq<u8>, i: int, bs: Seq<u8>)
    requires
        content_ok(bs),
        bs.len() > 0,
        bs[0] >= 0x80,
        0 <= i,
        i + spec_escape(bs).len() + 1 <= s.len(),
        s.subrange(i, i + spec_escape(bs).len() + 1) == spec_escape(bs) + seq![QUOTE],
    ensures
        spec_parse_chars(s, i) == Some((bs, i + spec_escape(bs).len() + 1)),
    decreases bs.len(), 0int,
{
    let b0 = bs[0];
    // the length of the UTF-8 sequence at the front
    let n: int = if b0 <= 0xdf {
        2
    } else if b0 <= 0xef {
        3
    } else {
        4
    };
    let tail = bs.skip(n);
    assert(content_ok(tail));
    assert(forall|t: int| 0 <= t < n ==> bs[t] >= 0x80);
    lemma_escape_verbatim_prefix(bs, n);
    assert(spec_escape(bs) + seq![QUOTE] =~= bs.take(n) + (spec_escape(tail) + seq![QUOTE]));
    lemma_tail_window(s, i, bs.take(n), spec_escape(tail) + seq![QUOTE]);
    lemma_parse_escaped(s, i + n, tail);
    assert(s[i + 0] == bs.take(n)[0] && s[i + 1] == bs.take(n)[1]);
    if n >= 3 {
        assert(s[i + 2] == bs.take(n)[2]);
    }
    if n >= 4 {
        assert(s[i + 3] == bs.take(n)[3]);
    }
    assert(spec_parse_chars(s, i) == spec_chars_join(
        s.subrange(i, i + n),
        spec_parse_chars(s, i + n),
    ));
    assert(s.subrange(i, i + n) == bs.take(n));
    assert(bs.take(n) + tail =~= bs);
}

/// A serialized string, standing as a window of `s`, decodes back to its
/// content.
proof fn lemma_parse_ser_string(s: Seq<u8>, i: int, bs: Seq<u8>)
    requires
        content_ok(bs),
        0 <= i,
        i + spec_ser_string(bs).len() <= s.len(),
        s.subrange(i, i + spec_ser_string(bs).len()) == spec_ser_string(bs),
    ensures
        spec_parse_string(s, i) == Some((bs, i + spec_ser_string(bs).len())),
{
    assert(spec_ser_string(bs) =~= seq![QUOTE] + (spec_escape(bs) + seq![QUOTE]));
    lemma_tail_window(s, i, seq![QUOTE], spec_escape(bs) + seq![QUOTE]);
    assert(s[i + 0] == seq![QUOTE][0]);
    lemma_parse_escaped(s, i + 1, bs);
}

proof fn lemma_ser_pair_head(e: (Seq<u8>, Seq<u8>))
    ensures
        spec_ser_pair(e).len() >= 5,
        spec_ser_pair(e)[0] == QUOTE,
{
    assert(spec_ser_pair(e)[0] == spec_ser_string(e.0)[0]);
    assert(spec_ser_string(e.0)[0] == QUOTE);
}

/// A serialized pair, standing as a window of `s`, decodes back to its key
/// and value.
proof fn lemma_parse_ser_pair(s: Seq<u8>, i: int, e: (Seq<u8>, Seq<u8>))
    requires
        content_ok(e.0),
        content_ok(e.1),
        0 <= i,
        i + spec_ser_pair(e).len() <= s.len(),
        s.subrange(i, i + spec_ser_pair(e).len()) == spec_ser_pair(e),
    ensures
        spec_parse_pair(s, i) == Some((e, i + spec_ser_pair(e).len())),
{
    assert(spec_ser_pair(e) =~= spec_ser_string(e.0) + (seq![COLON] + spec_ser_string(e.1)));
    lemma_tail_window(s, i, spec_ser_string(e.0), seq![COLON] + spec_ser_string(e.1));
    lemma_parse_ser_string(s, i, e.0);
    let j = i + spec_ser_string(e.0).len();
    lemma_tail_window(s, j, seq![COLON], spec_ser_string(e.1));
    assert(s[j + 0] == seq![COLON][0]);
    lemma_parse_ser_string(s, j + 1, e.1);
    // no whitespace stands around the colon
    assert(s[j + 1] == s.subrange(j + 1, j + 1 + spec_ser_string(e.1).len())[0]);
    assert(spec_ser_string(e.1)[0] == QUOTE);
    assert(spec_skip_ws(s, j) == j);
    assert(spec_skip_ws(s, j + 1) == j + 1);
    assert((e.0, e.1) == e);
}

proof fn lemma_ser_entries_head(es: Seq<(Seq<u8>, Seq<u8>)>)
    requires
        es.len() > 0,
    ensures
        spec_ser_entries(es).len() > 0,
        spec_ser_entries(es)[0] == QUOTE,
    decreases es.len(),
{
    lemma_ser_pair_head(es[0]);
    if es.len() == 1 {
        assert(spec_ser_entries(es) == spec_ser_pair(es[0]));
    } else {
        lemma_ser_entries_first(es);
        assert(spec_ser_entries(es)[0] == spec_ser_pair(es[0])[0]);
    }
}

proof fn lemma_ser_entries_first(es: Seq<(Seq<u8>, Seq<u8>)>)
    requires
        es.len() >= 2,
    ensures
        spec_ser_entries(es) == spec_ser_pair(es[0]) + seq![COMMA] + spec_ser_entries(es.skip(1)),
    decreases es.len(),
{
    if es.len() == 2 {
        assert(es.drop_last() =~= seq![es[0]]);
        assert(es.skip(1) =~= seq![es[1]]);
        assert(spec_ser_entries(seq![es[0]]) == spec_ser_pair(seq![es[0]][0]));
        assert(spec_ser_entries(seq![es[1]]) == spec_ser_pair(seq![es[1]][0]));
        assert(seq![es[1]][0] == es.last());
    } else {
        lemma_ser_entries_first(es.drop_last());
        assert(es.drop_last().skip(1) =~= es.skip(1).drop_last());
        assert(es.drop_last()[0] == es[0]);
        assert(es.skip(1).last() == es.last());
        assert((spec_ser_pair(es[0]) + seq![COMMA] + spec_ser_entries(es.skip(1).drop_last()))
            + seq![COMMA] + spec_ser_pair(es.last()) =~= spec_ser_pair(es[0]) + seq![COMMA] + (
        spec_ser_entries(es.skip(1).drop_last()) + seq![COMMA] + spec_ser_pair(es.skip(1).last())));
    }
}

/// A serialized pair list, standing as a window of `s` and followed by the
/// object's closing brace, decodes back to its pairs.
proof fn lemma_parse_ser_members(s: Seq<u8>, i: int, es: Seq<(Seq<u8>, Seq<u8>)>)
    requires
        es.len() > 0,
        entries_content_ok(es),
        0 <= i,
        i + spec_ser_entries(es).len() < s.len(),
        s.subrange(i, i + spec_ser_entries(es).len()) == spec_ser_entries(es),
        s[i + spec_ser_entries(es).len()] == RBRACE,
    ensures
        spec_parse_members(s, i) == Some((es, i + spec_ser_entries(es).len())),
    decreases es.len(),
{
    assert(content_ok(es[0].0) && content_ok(es[0].1)) by {
        reveal(entries_content_ok);
    }
    if es.len() == 1 {
        assert(spec_ser_entries(es) == spec_ser_pair(es[0]));
        lemma_parse_ser_pair(s, i, es[0]);
        let j = i + spec_ser_pair(es[0]).len();
        assert(spec_skip_ws(s, j) == j);
        assert(seq![es[0]] =~= es);
    } else {
        lemma_ser_entries_first(es);
        assert(spec_ser_entries(es) =~= spec_ser_pair(es[0]) + (seq![COMMA] + spec_ser_entries(
            es.skip(1),
        )));
        lemma_tail_window(s, i, spec_ser_pair(es[0]), seq![COMMA] + spec_ser_entries(es.skip(1)));
        lemma_parse_ser_pair(s, i, es[0]);
        let j = i + spec_ser_pair(es[0]).len();
        lemma_tail_window(s, j, seq![COMMA], spec_ser_entries(es.skip(1)));
        assert(s[j + 0] == seq![COMMA][0]);
        lemma_ser_entries_head(es.skip(1));
        assert(s[j + 1] == s.subrange(j + 1, j + 1 + spec_ser_entries(es.skip(1)).len())[0]);
        assert(s[j + 1] == QUOTE);
        assert(spec_skip_ws(s, j) == j);
        assert(spec_skip_ws(s, j + 1) == j + 1);
        assert(entries_content_ok(es.skip(1))) by {
            reveal(entries_content_ok);
            assert forall|k: int|
                0 <= k < es.skip(1).len() implies content_ok(#[trigger] es.skip(1)[k].0)
                && content_ok(es.skip(1)[k].1) by {
                assert(es.skip(1)[k] == es[k + 1]);
                assert(content_ok(es[k + 1].0) && content_ok(es[k + 1].1));
            }
        }
        lemma_parse_ser_members(s, j + 1, es.skip(1));
        assert(seq![es[0]] + es.skip(1) =~= es);
    }
}

proof fn lemma_content_ok_prepend_ascii(b: u8, rest: Seq<u8>)
    requires
        b < 0x80,
        content_ok(rest),
    ensures
        content_ok(seq![b] + rest),
{
    assert((seq![b] + rest).skip(1) =~= rest);
}

/// The UTF-8 encoding of a scalar value is itself well-formed content.
#[verifier::rlimit(100)]
proof fn lemma_content_ok_prepend_encode(cp: int, rest: Seq<u8>)
    requires
        0 <= cp <= 0x10ffff,
        !(0xd800 <= cp < 0xe000),
        content_ok(rest),
    ensures
        content_ok(spec_utf8_encode(cp) + rest),
{
    let e = spec_utf8_encode(cp);
    let w = e + rest;
    if cp < 0x80 {
        assert(w.skip(1) =~= rest);
    } else if cp < 0x800 {
        assert(cp / 0x40 >= 2 && cp / 0x40 < 0x20) by (nonlinear_arith)
            requires
                0x80 <= cp < 0x800,
        ;
        assert(w[0] == e[0] && w[1] == e[1]);
        assert(0xc2 <= w[0] && w[0] <= 0xdf);
        assert(is_cont_byte(w[1]));
        assert(w.skip(2) =~= rest);
    } else if cp < 0x10000 {
        assert(cp / 0x1000 < 0x10 && cp / 0x1000 >= 0) by (nonlinear_arith)
            requires
                0x800 <= cp < 0x10000,
        ;
        assert(w[0] == e[0] && w[1] == e[1] && w[2] == e[2]);
        assert(is_cont_byte(w[2]));
        if cp < 0x1000 {
            // lead 0xe0: the second byte stays out of the overlong range
            assert(cp / 0x40 >= 0x20 && cp / 0x40 < 0x40) by (nonlinear_arith)
                requires
                    0x800 <= cp < 0x1000,
            ;
            assert((cp / 0x40) % 0x40 == cp / 0x40);
            assert(w[0] == 0xe0 && 0xa0 <= w[1] && w[1] <= 0xbf);
        } else if 0xd000 <= cp && cp < 0xe000 {
            // lead 0xed: the second byte stays out of the surrogate range
            assert(cp / 0x1000 == 0xd) by (nonlinear_arith)
                requires
                    0xd000 <= cp < 0xe000,
            ;
            assert(cp / 0x40 >= 0x340 && cp / 0x40 < 0x360) by (nonlinear_arith)
                requires
                    0xd000 <= cp < 0xd800,
            ;
            assert((cp / 0x40) % 0x40 < 0x20) by (nonlinear_arith)
                requires
                    0x340 <= cp / 0x40 < 0x360,
            ;
            assert(w[0] == 0xed && 0x80 <= w[1] && w[1] <= 0x9f);
        } else {
            // leads 0xe1 through 0xec and 0xee, 0xef
            assert(1 <= cp / 0x1000 && cp / 0x1000 <= 0xf && cp / 0x1000 != 0xd) by (
            nonlinear_arith)
                requires
                    0x1000 <= cp < 0x10000,
                    cp < 0xd000 || cp >= 0xe000,
            ;
            assert(0xe1 <= w[0] && w[0] <= 0xef && w[0] != 0xed);
            assert(is_cont_byte(w[1]));
        }
        assert(w.skip(3) =~= rest);
    } else {
        assert(cp / 0x40000 >= 0 && cp / 0x40000 <= 4) by (nonlinear_arith)
            requires
                0x10000 <= cp <= 0x10ffff,
        ;
        assert(w[0] == e[0] && w[1] == e[1] && w[2] == e[2] && w[3] == e[3]);
        assert(is_cont_byte(w[2]) && is_cont_byte(w[3]));
        if cp < 0x40000 {
            // lead 0xf0: the second byte stays out of the overlong range
            assert(cp / 0x1000 >= 0x10 && cp / 0x1000 < 0x40) by (nonlinear_arith)
                requires
                    0x10000 <= cp < 0x40000,
            ;
            assert((cp / 0x1000) % 0x40 == cp / 0x1000);
            assert(w[0] == 0xf0 && 0x90 <= w[1] && w[1] <= 0xbf);
        } else if cp < 0x100000 {
            assert(1 <= cp / 0x40000 && cp / 0x40000 <= 3) by (nonlinear_arith)
                requires
                    0x40000 <= cp < 0x100000,
            ;
            assert(0xf1 <= w[0] && w[0] <= 0xf3);
            assert(is_cont_byte(w[1]));
        } else {
            // lead 0xf4: the second byte stays at or below 0x8f
            assert(cp / 0x40000 == 4) by (nonlinear_arith)
                requires
                    0x100000 <= cp <= 0x10ffff,
            ;
            assert(cp / 0x1000 >= 0x100 && cp / 0x1000 < 0x110) by (nonlinear_arith)
                requires
                    0x100000 <= cp <= 0x10ffff,
            ;
            assert((cp / 0x1000) % 0x40 < 0x10) by (nonlinear_arith)
                requires
                    0x100 <= cp / 0x1000 < 0x110,
            ;
            assert(w[0] == 0xf4 && 0x80 <= w[1] && w[1] <= 0x8f);
        }
        assert(w.skip(4) =~= rest);
    }
}

proof fn lemma_content_ok_prepend_seq(p: Seq<u8>, rest: Seq<u8>)
    requires
        content_ok(rest),
        2 <= p.len() <= 4,
        p.len() == 2 ==> 0xc2 <= p[0] <= 0xdf && is_cont_byte(p[1]),
        p.len() == 3 ==> ((p[0] == 0xe0 && 0xa0 <= p[1] <= 0xbf) || ((0xe1 <= p[0] <= 0xec || 0xee
            <= p[0] <= 0xef) && is_cont_byte(p[1])) || (p[0] == 0xed && 0x80 <= p[1] <= 0x9f))
            && is_cont_byte(p[2]),
        p.len() == 4 ==> ((p[0] == 0xf0 && 0x90 <= p[1] <= 0xbf) || (0xf1 <= p[0] <= 0xf3
            && is_cont_byte(p[1])) || (p[0] == 0xf4 && 0x80 <= p[1] <= 0x8f)) && is_cont_byte(p[2])
            && is_cont_byte(p[3]),
    ensures
        content_ok(p + rest),
{
    let w = p + rest;
    assert(w[0] == p[0] && w[1] == p[1]);
    if p.len() >= 3 {
        assert(w[2] == p[2]);
    }
    if p.len() >= 4 {
        assert(w[3] == p[3]);
    }
    assert(w.skip(p.len() as int) =~= rest);
}

/// Whatever the string parser decodes is well-formed content.
#[verifier::rlimit(100)]
proof fn lemma_parse_chars_content_ok(s: Seq<u8>, i: int)
    requires
        0 <= i <= s.len(),
    ensures
        spec_parse_chars(s, i) matches Some(p) ==> content_ok(p.0),
    decreases s.len() - i,
{
    if spec_parse_chars(s, i) is Some && i < s.len() && s[i] != QUOTE {
        if s[i] == BACKSLASH {
            if i + 2 <= s.len() && s[i + 1] == LETTER_U {
                if i + 6 <= s.len() {
                    match crate::json::spec_hex4(s, i + 2) {
                        Some(cp) => if 0xd800 <= cp < 0xdc00 {
                            lemma_parse_chars_content_ok(s, i + 12);
                            match crate::json::spec_hex4(s, i + 8) {
                                Some(lo) => if 0xdc00 <= lo < 0xe000 {
                                    let full = 0x10000 + (cp - 0xd800) * 0x400 + (lo - 0xdc00);
                                    match spec_parse_chars(s, i + 12) {
                                        Some(r) => lemma_content_ok_prepend_encode(full, r.0),
                                        None => (),
                                    }
                                },
                                None => (),
                            }
                        } else if !(0xdc00 <= cp < 0xe000) {
                            lemma_parse_chars_content_ok(s, i + 6);
                            match spec_parse_chars(s, i + 6) {
                                Some(r) => lemma_content_ok_prepend_encode(cp, r.0),
                                None => (),
                            }
                        },
                        None => (),
                    }
                }
            } else if i + 2 <= s.len() {
                match spec_unescape_byte(s[i + 1]) {
                    Some(b) => {
                        lemma_parse_chars_content_ok(s, i + 2);
                        match spec_parse_chars(s, i + 2) {
                            Some(r) => lemma_content_ok_prepend_ascii(b, r.0),
                            None => (),
                        }
                    },
                    None => (),
                }
            }
        } else if s[i] < 0x80 {
            lemma_parse_chars_content_ok(s, i + 1);
            match spec_parse_chars(s, i + 1) {
                Some(r) => lemma_content_ok_prepend_ascii(s[i], r.0),
                None => (),
            }
        } else {
            let b0 = s[i];
            let n: int = if b0 <= 0xdf {
                2
            } else if b0 <= 0xef {
                3
            } else {
                4
            };
            lemma_parse_chars_content_ok(s, i + n);
            match spec_parse_chars(s, i + n) {
                Some(r) => {
                    let p = s.subrange(i, i + n);
                    assert(p[0] == b0 && p[1] == s[i + 1]);
                    if n >= 3 {
                        assert(p[2] == s[i + 2]);
                    }
                    if n >= 4 {
                        assert(p[3] == s[i + 3]);
                    }
                    lemma_content_ok_prepend_seq(p, r.0);
                },
                None => (),
            }
        }
    }
}

proof fn lemma_parse_string_content_ok(s: Seq<u8>, i: int)
    ensures
        spec_parse_string(s, i) matches Some(p) ==> content_ok(p.0),
{
    if 0 <= i < s.len() && s[i] == QUOTE {
        lemma_parse_chars_content_ok(s, i + 1);
    }
}

proof fn lemma_parse_pair_content_ok(s: Seq<u8>, i: int)
    ensures
        spec_parse_pair(s, i) matches Some(p) ==> content_ok(p.0.0) && content_ok(p.0.1),
{
    if spec_parse_pair(s, i) is Some {
        lemma_parse_string_content_ok(s, i);
        let k = spec_parse_string(s, i).unwrap();
        let j1 = spec_skip_ws(s, k.1);
        lemma_parse_string_content_ok(s, spec_skip_ws(s, j1 + 1));
    }
}

/// Well-formed content, pair for pair.
#[verifier::opaque]
pub open spec fn entries_content_ok(es: Seq<(Seq<u8>, Seq<u8>)>) -> bool {
    forall|k: int| 0 <= k < es.len() ==> content_ok(#[trigger] es[k].0) && content_ok(es[k].1)
}

proof fn lemma_content_entries_cons(e: (Seq<u8>, Seq<u8>), r: Seq<(Seq<u8>, Seq<u8>)>)
    requires
        content_ok(e.0),
        content_ok(e.1),
        entries_content_ok(r),
    ensures
        entries_content_ok(seq![e] + r),
{
    reveal(entries_content_ok);
    let all = seq![e] + r;
    assert forall|k: int|
        0 <= k < all.len() implies content_ok(#[trigger] all[k].0) && content_ok(all[k].1) by {
        if k == 0 {
            assert(all[0] == e);
        } else {
            assert(all[k] == r[k - 1]);
            assert(content_ok(r[k - 1].0) && content_ok(r[k - 1].1));
        }
    }
}

#[verifier::rlimit(100)]
proof fn lemma_parse_members_content_ok(s: Seq<u8>, i: int)
    ensures
        spec_parse_members(s, i) matches Some(p) ==> entries_content_ok(p.0),
    decreases s.len() - i,
{
    match spec_parse_pair(s, i) {
        None => {},
        Some(p) => {
            lemma_parse_pair_content_ok(s, i);
            crate::json::lemma_parse_pair_bounds(s, i);
            crate::json::lemma_skip_ws_bounds(s, p.1);
            let j2 = spec_skip_ws(s, p.1);
            if 0 <= j2 < s.len() && s[j2] == COMMA {
                crate::json::lemma_skip_ws_bounds(s, j2 + 1);
                let j3 = spec_skip_ws(s, j2 + 1);
                lemma_parse_members_content_ok(s, j3);
                match spec_parse_members(s, j3) {
                    Some(r) => {
                        lemma_content_entries_cons(p.0, r.0);
                    },
                    None => {},
                }
            } else {
                assert(entries_content_ok(seq![p.0])) by {
                    reveal(entries_content_ok);
                    assert(seq![p.0][0] == p.0);
                }
            }
        },
    }
}

/// Whatever the mapping-file parser decodes is well-formed content, key for
/// key and value for value.
pub proof fn lemma_parse_config_content_ok(bytes: Seq<u8>)
    ensures
        spec_parse_config(bytes) matches Some(es) ==> entries_content_ok(es),
{
    if spec_parse_config(bytes) is Some {
        let es = spec_parse_config(bytes).unwrap();
        let i0 = spec_skip_ws(bytes, 0);
        let i1 = spec_skip_ws(bytes, i0 + 1);
        if 0 <= i1 < bytes.len() && bytes[i1] == RBRACE {
            assert(es.len() == 0);
            assert(entries_content_ok(es)) by {
                reveal(entries_content_ok);
            }
        } else {
            lemma_parse_members_content_ok(bytes, i1);
            let p = spec_parse_members(bytes, i1).unwrap();
            assert(es == p.0);
        }
    }
}

/// Law: any table the library loads re-serializes to bytes that load back
/// as exactly the same table, with nothing assumed of the file's bytes
/// beyond that they parsed.
pub proof fn lemma_loaded_round_trip(bytes: Seq<u8>)
    requires
        spec_parse_config(bytes) is Some,
    ensures
        spec_parse_config(spec_serialize_config(spec_parse_config(bytes).unwrap()))
            == spec_parse_config(bytes),
{
    lemma_parse_config_content_ok(bytes);
    lemma_serialize_round_trip(spec_parse_config(bytes).unwrap());
}

/// Law: the codec round-trips. A table whose keys and values are
/// well-formed UTF-8 — as everything decoded from a mapping file is —
/// serializes to bytes that parse back to exactly the same pairs, in the
/// same order.
pub proof fn lemma_serialize_round_trip(es: Seq<(Seq<u8>, Seq<u8>)>)
    requires
        entries_content_ok(es),
    ensures
        spec_parse_config(spec_serialize_config(es)) == Some(es),
{
    let s = spec_serialize_config(es);
    if es.len() == 0 {
        crate::mapping::lemma_empty_round_trip();
        assert(es =~= Seq::<(Seq<u8>, Seq<u8>)>::empty());
    } else {
        let l1 = spec_ser_entries(es).len() as int;
        assert(s =~= seq![LBRACE] + (spec_ser_entries(es) + seq![RBRACE]));
        assert(s.subrange(0, s.len() as int) =~= s);
        lemma_tail_window(s, 0, seq![LBRACE], spec_ser_entries(es) + seq![RBRACE]);
        assert(s[0] == seq![LBRACE][0]);
        lemma_tail_window(s, 1, spec_ser_entries(es), seq![RBRACE]);
        assert(s[1 + l1] == seq![RBRACE][0]);
        lemma_ser_entries_head(es);
        assert(s[1] == s.subrange(1, 1 + l1)[0]);
        assert(s[1] == QUOTE);
        assert(spec_skip_ws(s, 0) == 0);
        assert(spec_skip_ws(s, 1) == 1);
        lemma_parse_ser_members(s, 1, es);
        assert(spec_skip_ws(s, 1 + l1 + 1) == s.len());
    }
}

} // verus!
