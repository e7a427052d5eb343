//! What holds of every successful lexing: the token list ends with `Eof`,
//! spans are in order and name their own line and column, identifiers and
//! literals spell their source bytes, words and numbers are scanned whole,
//! every non-ASCII byte outside a string or character literal sits in a
//! `//` comment, and bidirectional control characters occur only inside
//! string literals. Also the tables the lexer works from, stated byte by
//! byte: reserved words, operators and delimiters, escapes and trivia.

use vstd::prelude::*;
use vstd::utf8::*;
use vstd::arithmetic::power::pow;
use crate::bidi::{bidi_at, is_bidi_control, lemma_bidi_at_bytes, lemma_bidi_at_head};
use crate::span::SourceSpan;
use crate::text::{all_ascii, byte_chars, lemma_ascii_utf8};
use crate::token::{TokenOf, TokenView};
use crate::lex_spec::{
    byte_is, char_escape, col_at, comment_bidi, counters_fit, decimal_value, digits_end, ident_end, is_digit,
    is_ident_byte, is_ws, keyword_token, lemma_digits_end, lemma_ident_end,
    lemma_skip_trivia_bounds, lemma_string_body_bounds, lex, lex_from, line_at, next_token,
    scan_char, scan_punct, scan_string, scan_token, skip_comment, skip_trivia, span_of,
    string_body, string_escape, trivia_bidi, utf8_extra,
};

verus! {

/// Every byte of `src[s..e]` is ASCII.
pub open spec fn ascii_between(src: Seq<u8>, s: int, e: int) -> bool {
    forall|k: int| s <= k < e ==> #[trigger] src[k] < 0x80
}

/// String and character literals: the only tokens whose bytes may be
/// non-ASCII.
pub open spec fn is_text_literal(t: TokenView) -> bool {
    t is StringLit || t is CharLit
}

/// The first byte of a token's span.
pub open spec fn span_start(sp: SourceSpan) -> int {
    sp.byte_offset as int
}

/// One past the last byte of a token's span.
pub open spec fn span_end(sp: SourceSpan) -> int {
    sp.byte_offset + sp.length
}

/// Byte `k` lies in the body of a `//` comment: a `//` starts at some
/// `c < k - 1` and no newline comes between it and `k`.
pub open spec fn in_line_comment(src: Seq<u8>, k: int) -> bool {
    exists|c: int|
        #![trigger src[c], src[c + 1]]
        0 <= c && c + 1 < k && src[c] == 0x2fu8 && src[c + 1] == 0x2fu8 && forall|j: int|
            c <= j <= k ==> #[trigger] src[j] != 0x0au8
}

/// The bytes `src[s..e]` are a character literal for `c`: a quote, then a
/// backslash and the escape byte that stands for `c` or the UTF-8 encoding of
/// `c`, then a quote.
pub open spec fn char_literal_spells(src: Seq<u8>, s: int, e: int, c: char) -> bool {
    &&& src[s] == 0x27u8
    &&& src[e - 1] == 0x27u8
    &&& (e == s + 4 && src[s + 1] == 0x5cu8 && char_escape(src[s + 2]) == Some(c)) || src.subrange(
        s + 1,
        e - 1,
    ) == encode_scalar(c as u32)
}

/// The bytes `src[s..e]` are a string literal for `x`: a quote, then a body
/// that unescapes, up to its closing quote at `e - 1`, to the UTF-8
/// encoding of `x`.
pub open spec fn string_literal_spells(src: Seq<u8>, s: int, e: int, x: Seq<char>) -> bool {
    &&& src[s] == 0x22u8
    &&& string_body(src, s + 1, seq![]) == Ok::<(Seq<u8>, int), (int, Seq<char>)>(
        (encode_utf8(x), e),
    )
}


proof fn lemma_char_literal(src: Seq<u8>, s: int)
    requires
        0 <= s < src.len(),
        src[s] == 0x27u8,
    ensures
        scan_char(src, s + 1) matches Ok((t, e)) ==> {
            &&& s < e <= src.len()
            &&& t matches TokenOf::CharLit(c)
            &&& char_literal_spells(src, s, e, c)
            &&& no_bidi_between(src, s, e)
        },
{
    let p = s + 1;
    assert forall|i: int| 0 <= i < src.len() && bidi_at(src, i) implies src[i] == 0xe2u8 by {
        lemma_bidi_at_bytes(src, i);
    }
    if 0 <= p < src.len() && src[p] != 0x27u8 && src[p] != 0x5cu8 {
        match utf8_extra(src[p]) {
            Some(k) => {
                if p + 1 + k <= src.len() {
                    let buf = src.subrange(p, p + 1 + k);
                    if valid_utf8(buf) {
                        decode_utf8_first_scalar(buf);
                        assert(length_of_first_scalar(buf) == buf.len());
                        assert(take_first_scalar(buf) =~= buf);
                        assert(decode_utf8(buf)[0] == decode_first_scalar(buf) as char);
                        if byte_is(src, p + 1 + k, 0x27u8) {
                            assert(src.subrange(s + 1, p + 1 + k) =~= buf);
                        }
                        if byte_is(src, p + 1 + k, 0x27u8) && !bidi_at(src, p) {
                            assert(valid_first_scalar(buf));
                            assert forall|j: int| 1 <= j < buf.len() implies is_continuation_byte(
                                #[trigger] buf[j],
                            ) by {}
                            assert forall|i: int| s <= i < p + 2 + k implies !bidi_at(src, i) by {
                                if p < i < p + 1 + k {
                                    assert(src[i] == buf[i - p]);
                                    assert(is_continuation_byte(buf[i - p]));
                                }
                                if i == s || i == p + 1 + k {
                                    assert(src[i] == 0x27u8);
                                }
                            }
                        }
                    }
                }
            },
            None => {},
        }
    }
}

/// No bidi control character is encoded at any position of `src[s..e]`.
pub open spec fn no_bidi_between(src: Seq<u8>, s: int, e: int) -> bool {
    forall|k: int| s <= k < e ==> !#[trigger] bidi_at(src, k)
}

/// An ASCII letter of either case, or `_`: a byte that may start an
/// identifier.
pub open spec fn word_start_byte(b: u8) -> bool {
    (0x41u8 <= b <= 0x5au8) || (0x61u8 <= b <= 0x7au8) || b == 0x5fu8
}

/// An ASCII decimal digit, `0` to `9`.
pub open spec fn decimal_digit(b: u8) -> bool {
    0x30u8 <= b <= 0x39u8
}

/// An ASCII letter, digit or `_`: a byte that may continue an identifier.
pub open spec fn word_byte(b: u8) -> bool {
    word_start_byte(b) || decimal_digit(b)
}

/// Position `i` lies in the source and holds a decimal digit.
pub open spec fn digit_at(src: Seq<u8>, i: int) -> bool {
    0 <= i < src.len() && decimal_digit(src[i])
}

/// Position `i` lies in the source and holds a letter, digit or `_`.
pub open spec fn word_byte_at(src: Seq<u8>, i: int) -> bool {
    0 <= i < src.len() && word_byte(src[i])
}

/// `src[s..e]` is a whole word: it starts with a letter or `_`, holds only
/// letters, digits and `_`, and the byte after it (if any) is none of these.
pub open spec fn word_between(src: Seq<u8>, s: int, e: int) -> bool {
    &&& 0 <= s < e <= src.len()
    &&& word_start_byte(src[s])
    &&& forall|k: int| s <= k < e ==> word_byte(#[trigger] src[k])
    &&& !word_byte_at(src, e)
}

/// `t` is one or more decimal digits.
pub open spec fn digit_text(t: Seq<u8>) -> bool {
    &&& t.len() > 0
    &&& forall|k: int| 0 <= k < t.len() ==> decimal_digit(#[trigger] t[k])
}

/// `t` is one or more digits, a `.`, and one or more digits.
pub open spec fn float_text(t: Seq<u8>) -> bool {
    exists|d: int|
        0 < d < t.len() - 1 && #[trigger] t[d] == 0x2eu8 && forall|k: int|
            0 <= k < t.len() && k != d ==> decimal_digit(#[trigger] t[k])
}

/// The keywords, the boolean literals and `_`: the tokens spelled by a word.
pub open spec fn is_keyword_token(t: TokenView) -> bool {
    ||| t is Fn
    ||| t is Let
    ||| t is Mut
    ||| t is If
    ||| t is Else
    ||| t is Loop
    ||| t is For
    ||| t is Parallel
    ||| t is Match
    ||| t is Return
    ||| t is BoolLit
    ||| t is Underscore
}

/// The token a word `t` stands for: its keyword if it spells one, else an
/// identifier with its text.
pub open spec fn word_token(t: Seq<u8>) -> TokenView {
    match keyword_token(t) {
        Some(k) => k,
        None => TokenOf::Ident(byte_chars(t)),
    }
}

/// What holds of one scanned token: it ends after it starts and within the
/// source, it is not `Eof`, its bytes are ASCII unless it is a string or
/// character literal, an identifier spells its bytes and no keyword, an
/// identifier or keyword spans a whole word, and a number literal spans its
/// whole digit run: a float spells its source text, and an integer is the
/// value of its digits.
pub open spec fn scanned_token_facts(src: Seq<u8>, t: TokenView, s: int, e: int) -> bool {
    &&& s < e <= src.len()
    &&& (t is Ident || is_keyword_token(t)) ==> word_between(src, s, e) && word_token(
        src.subrange(s, e),
    ) == t
    &&& t matches TokenOf::FloatLit(x) ==> {
        &&& x == byte_chars(src.subrange(s, e))
        &&& float_text(src.subrange(s, e))
        &&& !digit_at(src, e)
    }
    &&& t matches TokenOf::IntLit(v) ==> {
        &&& digit_text(src.subrange(s, e))
        &&& v == decimal_value(src.subrange(s, e))
        &&& !digit_at(src, e)
        &&& !(e < src.len() && src[e] == 0x2eu8 && digit_at(src, e + 1))
    }
    &&& !(t is Eof)
    &&& !is_text_literal(t) ==> ascii_between(src, s, e)
    &&& t matches TokenOf::Ident(x) ==> x == byte_chars(src.subrange(s, e)) && keyword_token(
        src.subrange(s, e),
    ) is None
    &&& t matches TokenOf::CharLit(c) ==> char_literal_spells(src, s, e, c) && no_bidi_between(
        src,
        s,
        e,
    )
    &&& t matches TokenOf::StringLit(x) ==> string_literal_spells(src, s, e, x)
}

proof fn lemma_scan_token(src: Seq<u8>, s: int)
    requires
        0 <= s < src.len(),
    ensures
        scan_token(src, s) matches Ok((t, e)) ==> scanned_token_facts(src, t, s, e),
{
    let b = src[s];
    match scan_punct(src, s) {
        Some((t, e)) => {
            assert(b < 0x80);
            assert(e == s + 1 || (e == s + 2 && src[s + 1] < 0x80));
        },
        None => {
            if b == 0x22u8 {
                lemma_string_body_bounds(src, s + 1, seq![]);
                match string_body(src, s + 1, seq![]) {
                    Ok((bytes, e)) => {
                        if valid_utf8(bytes) {
                            decode_utf8_encode_utf8(bytes);
                        }
                    },
                    Err(_) => {},
                }
            } else if b == 0x27u8 {
                lemma_char_literal(src, s);
            } else if is_digit(b) {
                lemma_digits_end(src, s + 1);
                let p1 = digits_end(src, s + 1);
                if byte_is(src, p1, 0x2eu8) && 0 <= p1 + 1 < src.len() && is_digit(src[p1 + 1]) {
                    lemma_digits_end(src, p1 + 1);
                    let e = digits_end(src, p1 + 1);
                    assert forall|k: int| s <= k < e implies #[trigger] src[k] < 0x80 by {
                        if s < k < p1 {
                            assert(is_digit(src[k]));
                        } else if k > p1 {
                            assert(is_digit(src[k]));
                        }
                    }
                    let text = src.subrange(s, e);
                    assert(text[p1 - s] == 0x2eu8);
                    assert forall|k: int| 0 <= k < text.len() && k != p1 - s implies decimal_digit(
                        #[trigger] text[k],
                    ) by {
                        assert(text[k] == src[s + k]);
                        if 0 < k < p1 - s {
                            assert(is_digit(src[s + k]));
                        } else if k > p1 - s {
                            assert(is_digit(src[s + k]));
                        }
                    }
                    assert(float_text(text));
                } else {
                    assert forall|k: int| s <= k < p1 implies #[trigger] src[k] < 0x80 by {
                        if s < k {
                            assert(is_digit(src[k]));
                        }
                    }
                    let text = src.subrange(s, p1);
                    assert forall|k: int| 0 <= k < text.len() implies decimal_digit(
                        #[trigger] text[k],
                    ) by {
                        assert(text[k] == src[s + k]);
                        if 0 < k {
                            assert(is_digit(src[s + k]));
                        }
                    }
                }
            } else if crate::lex_spec::is_alpha(b) || b == 0x5fu8 {
                lemma_ident_end(src, s + 1);
                let e = ident_end(src, s + 1);
                assert forall|k: int| s <= k < e implies #[trigger] src[k] < 0x80 by {
                    if s < k {
                        assert(is_ident_byte(src[k]));
                    }
                }
                let text = src.subrange(s, e);
                match keyword_token(text) {
                    Some(kw) => {
                        assert(!(kw is Eof) && !(kw is Ident));
                    },
                    None => {},
                }
            }
        },
    }
}

/// What holds of the tokens lexed from position `p` on.
pub open spec fn lexed_facts(src: Seq<u8>, file_hash: u64, p: int, ts: Seq<(TokenView, SourceSpan)>) -> bool {
    &&& ts.len() >= 1
    &&& ts.last() == (TokenView::Eof, span_of(src, file_hash, src.len() as int, src.len() as int))
    &&& forall|i: int| 0 <= i < ts.len() - 1 ==> !(#[trigger] ts[i].0 is Eof)
    &&& trivia_bidi(src, p) is None
    &&& src.len() <= u32::MAX ==> {
        &&& skip_trivia(src, p) == span_start(ts[0].1)
        &&& forall|i: int|
            0 <= i < ts.len() - 1 ==> scanned_token_facts(
                src,
                #[trigger] ts[i].0,
                span_start(ts[i].1),
                span_end(ts[i].1),
            )
        &&& forall|i: int|
            0 <= i < ts.len() - 1 ==> trivia_bidi(src, span_end(#[trigger] ts[i].1)) is None
        &&& forall|i: int|
            0 <= i < ts.len() && #[trigger] ts[i].0 is CharLit ==> no_bidi_between(
                src,
                span_start(ts[i].1),
                span_end(ts[i].1),
            )
        &&& forall|i: int|
            0 <= i < ts.len() ==> #[trigger] ts[i].1 == span_of(
                src,
                file_hash,
                span_start(ts[i].1),
                span_end(ts[i].1),
            )
        &&& forall|i: int| 0 <= i < ts.len() ==> span_end(#[trigger] ts[i].1) <= src.len()
        &&& forall|i: int|
            0 <= i < ts.len() - 1 ==> span_start(ts[i].1) < span_end(#[trigger] ts[i].1)
        &&& forall|i: int|
            0 <= i < ts.len() - 1 ==> skip_trivia(src, span_end(#[trigger] ts[i].1)) == span_start(
                ts[i + 1].1,
            )
        &&& forall|i: int|
            0 <= i < ts.len() && !is_text_literal(#[trigger] ts[i].0) ==> ascii_between(
                src,
                span_start(ts[i].1),
                span_end(ts[i].1),
            )
        &&& forall|i: int|
            0 <= i < ts.len() ==> (#[trigger] ts[i].0 matches TokenOf::Ident(x) ==> x == byte_chars(
                src.subrange(span_start(ts[i].1), span_end(ts[i].1)),
            ) && keyword_token(src.subrange(span_start(ts[i].1), span_end(ts[i].1))) is None)
        &&& forall|i: int|
            0 <= i < ts.len() ==> (#[trigger] ts[i].0 matches TokenOf::CharLit(c)
                ==> char_literal_spells(src, span_start(ts[i].1), span_end(ts[i].1), c))
        &&& forall|i: int|
            0 <= i < ts.len() ==> (#[trigger] ts[i].0 matches TokenOf::StringLit(x)
                ==> string_literal_spells(src, span_start(ts[i].1), span_end(ts[i].1), x))
    }
}

proof fn lemma_span_of_exact(src: Seq<u8>, file_hash: u64, s: int, e: int)
    requires
        0 <= s <= e <= src.len(),
        src.len() <= u32::MAX,
    ensures
        span_start(span_of(src, file_hash, s, e)) == s,
        span_end(span_of(src, file_hash, s, e)) == e,
{
}

proof fn lemma_lex_from(src: Seq<u8>, file_hash: u64, p: int)
    requires
        0 <= p <= src.len(),
    ensures
        lex_from(src, file_hash, p) matches Ok(ts) ==> lexed_facts(src, file_hash, p, ts),
    decreases src.len() - p,
{
    lemma_skip_trivia_bounds(src, p);
    let s = skip_trivia(src, p);
    match next_token(src, p) {
        Err(_) => {},
        Ok(None) => {
            assert(s == src.len());
            if src.len() <= u32::MAX {
                lemma_span_of_exact(src, file_hash, src.len() as int, src.len() as int);
            }
        },
        Ok(Some((t, s1, e))) => {
            assert(s1 == s);
            lemma_scan_token(src, s);
            assert(scanned_token_facts(src, t, s, e));
            lemma_lex_from(src, file_hash, e);
            match lex_from(src, file_hash, e) {
                Err(_) => {},
                Ok(rest) => {
                    let sp = span_of(src, file_hash, s, e);
                    let ts = seq![(t, sp)] + rest;
                    assert(lex_from(src, file_hash, p) == Ok::<
                        Seq<(TokenView, SourceSpan)>,
                        (SourceSpan, Seq<char>),
                    >(ts));
                    assert(ts.last() == rest.last());
                    assert forall|i: int| 0 <= i < ts.len() - 1 implies !(#[trigger] ts[i].0 is Eof) by {
                        if i > 0 {
                            assert(ts[i] == rest[i - 1]);
                        }
                    }
                    if src.len() <= u32::MAX {
                        lemma_span_of_exact(src, file_hash, s, e);
                        assert forall|i: int| 0 <= i < ts.len() - 1 implies scanned_token_facts(
                            src,
                            #[trigger] ts[i].0,
                            span_start(ts[i].1),
                            span_end(ts[i].1),
                        ) by {
                            if i > 0 {
                                assert(ts[i] == rest[i - 1]);
                            }
                        }
                        assert forall|i: int| 0 <= i < ts.len() implies #[trigger] ts[i].1 == span_of(
                            src,
                            file_hash,
                            span_start(ts[i].1),
                            span_end(ts[i].1),
                        ) by {
                            if i > 0 {
                                assert(ts[i] == rest[i - 1]);
                            }
                        }
                        assert forall|i: int| 0 <= i < ts.len() implies span_end(#[trigger] ts[i].1)
                            <= src.len() by {
                            if i > 0 {
                                assert(ts[i] == rest[i - 1]);
                            }
                        }
                        assert forall|i: int| 0 <= i < ts.len() - 1 implies span_start(ts[i].1)
                            < span_end(#[trigger] ts[i].1) by {
                            if i > 0 {
                                assert(ts[i] == rest[i - 1]);
                            }
                        }
                        assert forall|i: int|
                            0 <= i < ts.len() - 1 implies skip_trivia(
                            src,
                            span_end(#[trigger] ts[i].1),
                        ) == span_start(ts[i + 1].1) by {
                            assert(ts[i + 1] == rest[i]);
                            if i > 0 {
                                assert(ts[i] == rest[i - 1]);
                            }
                        }
                        assert forall|i: int|
                            0 <= i < ts.len() && !is_text_literal(#[trigger] ts[i].0) implies ascii_between(
                            src,
                            span_start(ts[i].1),
                            span_end(ts[i].1),
                        ) by {
                            if i > 0 {
                                assert(ts[i] == rest[i - 1]);
                            }
                        }
                        assert forall|i: int|
                            0 <= i < ts.len() implies (#[trigger] ts[i].0 matches TokenOf::Ident(x)
                            ==> x == byte_chars(
                            src.subrange(span_start(ts[i].1), span_end(ts[i].1)),
                        ) && keyword_token(src.subrange(span_start(ts[i].1), span_end(ts[i].1)))
                            is None) by {
                            if i > 0 {
                                assert(ts[i] == rest[i - 1]);
                            }
                        }
                        assert forall|i: int|
                            0 <= i < ts.len() - 1 implies trivia_bidi(
                            src,
                            span_end(#[trigger] ts[i].1),
                        ) is None by {
                            if i > 0 {
                                assert(ts[i] == rest[i - 1]);
                            }
                        }
                        assert forall|i: int|
                            0 <= i < ts.len() && #[trigger] ts[i].0 is CharLit implies no_bidi_between(
                            src,
                            span_start(ts[i].1),
                            span_end(ts[i].1),
                        ) by {
                            if i > 0 {
                                assert(ts[i] == rest[i - 1]);
                            }
                        }
                        assert forall|i: int|
                            0 <= i < ts.len() implies (#[trigger] ts[i].0 matches TokenOf::CharLit(c)
                            ==> char_literal_spells(src, span_start(ts[i].1), span_end(ts[i].1), c))
                            by {
                            if i > 0 {
                                assert(ts[i] == rest[i - 1]);
                            }
                        }
                        assert forall|i: int|
                            0 <= i < ts.len() implies (#[trigger] ts[i].0 matches TokenOf::StringLit(
                                x,
                            ) ==> string_literal_spells(
                                src,
                                span_start(ts[i].1),
                                span_end(ts[i].1),
                                x,
                            )) by {
                            if i > 0 {
                                assert(ts[i] == rest[i - 1]);
                            }
                        }
                    }
                },
            }
        },
    }
}


/// Lines and columns count from 1.
pub proof fn lemma_line_col_positive(src: Seq<u8>, p: int)
    ensures
        line_at(src, p) >= 1,
        col_at(src, p) >= 1,
    decreases p,
{
    if p > 0 {
        lemma_line_col_positive(src, p - 1);
    }
}

/// The number of newline bytes in `t`.
pub open spec fn newline_count(t: Seq<u8>) -> nat {
    t.filter(|b: u8| b == 0x0au8).len()
}

/// The line of a position is one more than the number of newlines before it.
pub proof fn lemma_line_counts_newlines(src: Seq<u8>, p: int)
    requires
        0 <= p <= src.len(),
    ensures
        line_at(src, p) == 1 + newline_count(src.take(p)),
    decreases p,
{
    reveal(Seq::filter);
    if p > 0 {
        lemma_line_counts_newlines(src, p - 1);
        assert(src.take(p).drop_last() =~= src.take(p - 1));
    }
}

/// The column of a position is one more than the number of bytes since the
/// start of its line, which is the start of the source or the position just
/// after the last newline before it.
pub proof fn lemma_col_counts_from_line_start(src: Seq<u8>, p: int, q: int)
    requires
        0 <= q <= p <= src.len(),
        q == 0 || src[q - 1] == 0x0au8,
        forall|k: int| q <= k < p ==> src[k] != 0x0au8,
    ensures
        col_at(src, p) == p - q + 1,
    decreases p,
{
    if p > q {
        lemma_col_counts_from_line_start(src, p - 1, q);
    }
}

/// Lexing succeeds with a list that ends in `Eof`, spanning nothing at the
/// end of the source, and holds no other `Eof`.
pub proof fn lemma_lex_ends_with_eof(src: Seq<u8>, file_hash: u64)
    ensures
        lex(src, file_hash) matches Ok(ts) ==> {
            &&& ts.len() >= 1
            &&& ts.last().0 is Eof
            &&& ts.last().1 == span_of(src, file_hash, src.len() as int, src.len() as int)
            &&& forall|i: int| 0 <= i < ts.len() - 1 ==> !(#[trigger] ts[i].0 is Eof)
        },
{
    lemma_lex_from(src, file_hash, 0);
}

/// The spans of a successful lexing carry the file hash, lie within the
/// source, are non-empty except for `Eof`, come in source order without
/// overlap, and give the line and column of their first byte. (Offsets are
/// `u32`, so this is stated for sources of at most `u32::MAX` bytes.)
pub proof fn lemma_lex_spans(src: Seq<u8>, file_hash: u64)
    requires
        src.len() <= u32::MAX,
        counters_fit(src),
    ensures
        lex(src, file_hash) matches Ok(ts) ==> {
            &&& forall|i: int|
                0 <= i < ts.len() ==> {
                    let sp = #[trigger] ts[i].1;
                    &&& sp.file_hash == file_hash
                    &&& span_start(sp) <= span_end(sp) <= src.len()
                    &&& sp.line == line_at(src, span_start(sp))
                    &&& sp.col == col_at(src, span_start(sp))
                }
            &&& forall|i: int|
                0 <= i < ts.len() - 1 ==> span_start(#[trigger] ts[i].1) < span_end(ts[i].1)
                    <= span_start(ts[i + 1].1)
        },
{
    lemma_lex_from(src, file_hash, 0);
    match lex(src, file_hash) {
        Ok(ts) => {
            assert forall|i: int| 0 <= i < ts.len() implies {
                let sp = #[trigger] ts[i].1;
                &&& sp.file_hash == file_hash
                &&& span_start(sp) <= span_end(sp) <= src.len()
                &&& sp.line == line_at(src, span_start(sp))
                &&& sp.col == col_at(src, span_start(sp))
            } by {
                let sp = ts[i].1;
                assert(sp == span_of(src, file_hash, span_start(sp), span_end(sp)));
                lemma_line_col_positive(src, span_start(sp));
                assert(line_at(src, span_start(sp)) <= u32::MAX);
                assert(col_at(src, span_start(sp)) <= u32::MAX);
            }
            assert forall|i: int| 0 <= i < ts.len() - 1 implies span_start(#[trigger] ts[i].1)
                < span_end(ts[i].1) <= span_start(ts[i + 1].1) by {
                assert(span_end(ts[i].1) <= src.len());
                lemma_skip_trivia_bounds(src, span_end(ts[i].1));
            }
        },
        Err(_) => {},
    }
}

/// An identifier token spells the source bytes of its span, and those bytes
/// are not a keyword.
pub proof fn lemma_identifiers_spell_source(src: Seq<u8>, file_hash: u64)
    requires
        src.len() <= u32::MAX,
    ensures
        lex(src, file_hash) matches Ok(ts) ==> forall|i: int|
            0 <= i < ts.len() ==> (#[trigger] ts[i].0 matches TokenOf::Ident(x) ==> {
                let bytes = src.subrange(span_start(ts[i].1), span_end(ts[i].1));
                x == byte_chars(bytes) && keyword_token(bytes) is None
            }),
{
    lemma_lex_from(src, file_hash, 0);
}

/// A float literal token carries exactly the source text of its span; that
/// text is digits, a `.` and digits, and no digit follows it.
pub proof fn lemma_float_literals_spell_source(src: Seq<u8>, file_hash: u64)
    requires
        src.len() <= u32::MAX,
    ensures
        lex(src, file_hash) matches Ok(ts) ==> forall|i: int|
            0 <= i < ts.len() ==> (#[trigger] ts[i].0 matches TokenOf::FloatLit(x) ==> {
                let bytes = src.subrange(span_start(ts[i].1), span_end(ts[i].1));
                &&& x == byte_chars(bytes)
                &&& float_text(bytes)
                &&& !digit_at(src, span_end(ts[i].1))
            }),
{
    lemma_lex_from(src, file_hash, 0);
}

/// An integer literal token spans a whole run of decimal digits, not followed
/// by another digit nor by `.` and a digit, and its value is the value of
/// those digits.
pub proof fn lemma_int_literals_are_decimal(src: Seq<u8>, file_hash: u64)
    requires
        src.len() <= u32::MAX,
    ensures
        lex(src, file_hash) matches Ok(ts) ==> forall|i: int|
            0 <= i < ts.len() ==> (#[trigger] ts[i].0 matches TokenOf::IntLit(v) ==> {
                let e = span_end(ts[i].1);
                let bytes = src.subrange(span_start(ts[i].1), e);
                &&& digit_text(bytes)
                &&& v == decimal_value(bytes)
                &&& !digit_at(src, e)
                &&& !(e < src.len() && src[e] == 0x2eu8 && digit_at(src, e + 1))
            }),
{
    lemma_lex_from(src, file_hash, 0);
}

/// Every identifier, keyword, boolean literal and `_` token spans a whole
/// word: a letter or `_`, then letters, digits and `_`, up to the end of the
/// source or a byte that is none of these. The token is the one that word
/// stands for.
pub proof fn lemma_words_are_maximal(src: Seq<u8>, file_hash: u64)
    requires
        src.len() <= u32::MAX,
    ensures
        lex(src, file_hash) matches Ok(ts) ==> forall|i: int|
            0 <= i < ts.len() && (#[trigger] ts[i].0 is Ident || is_keyword_token(ts[i].0)) ==> {
                &&& word_between(src, span_start(ts[i].1), span_end(ts[i].1))
                &&& word_token(src.subrange(span_start(ts[i].1), span_end(ts[i].1))) == ts[i].0
            },
{
    lemma_lex_from(src, file_hash, 0);
}

/// The reserved words: `fn`, `let`, `mut`, `if`, `else`, `loop`, `for`,
/// `parallel`, `match` and `return` are keywords, `true` and `false` boolean
/// literals, and `_` the wildcard. No other text is reserved, so every other
/// word is an identifier.
pub proof fn lemma_keyword_words(t: Seq<u8>)
    ensures
        keyword_token(seq![0x66u8, 0x6eu8]) == Some(TokenView::Fn),
        keyword_token(seq![0x6cu8, 0x65u8, 0x74u8]) == Some(TokenView::Let),
        keyword_token(seq![0x6du8, 0x75u8, 0x74u8]) == Some(TokenView::Mut),
        keyword_token(seq![0x69u8, 0x66u8]) == Some(TokenView::If),
        keyword_token(seq![0x65u8, 0x6cu8, 0x73u8, 0x65u8]) == Some(TokenView::Else),
        keyword_token(seq![0x6cu8, 0x6fu8, 0x6fu8, 0x70u8]) == Some(TokenView::Loop),
        keyword_token(seq![0x66u8, 0x6fu8, 0x72u8]) == Some(TokenView::For),
        keyword_token(seq![0x70u8, 0x61u8, 0x72u8, 0x61u8, 0x6cu8, 0x6cu8, 0x65u8, 0x6cu8])
            == Some(TokenView::Parallel),
        keyword_token(seq![0x6du8, 0x61u8, 0x74u8, 0x63u8, 0x68u8]) == Some(TokenView::Match),
        keyword_token(seq![0x72u8, 0x65u8, 0x74u8, 0x75u8, 0x72u8, 0x6eu8])
            == Some(TokenView::Return),
        keyword_token(seq![0x74u8, 0x72u8, 0x75u8, 0x65u8]) == Some(TokenView::BoolLit(true)),
        keyword_token(seq![0x66u8, 0x61u8, 0x6cu8, 0x73u8, 0x65u8]) == Some(
            TokenView::BoolLit(false),
        ),
        keyword_token(seq![0x5fu8]) == Some(TokenView::Underscore),
        keyword_token(t) is Some ==> {
            ||| t == seq![0x66u8, 0x6eu8]
            ||| t == seq![0x6cu8, 0x65u8, 0x74u8]
            ||| t == seq![0x6du8, 0x75u8, 0x74u8]
            ||| t == seq![0x69u8, 0x66u8]
            ||| t == seq![0x65u8, 0x6cu8, 0x73u8, 0x65u8]
            ||| t == seq![0x6cu8, 0x6fu8, 0x6fu8, 0x70u8]
            ||| t == seq![0x66u8, 0x6fu8, 0x72u8]
            ||| t == seq![0x70u8, 0x61u8, 0x72u8, 0x61u8, 0x6cu8, 0x6cu8, 0x65u8, 0x6cu8]
            ||| t == seq![0x6du8, 0x61u8, 0x74u8, 0x63u8, 0x68u8]
            ||| t == seq![0x72u8, 0x65u8, 0x74u8, 0x75u8, 0x72u8, 0x6eu8]
            ||| t == seq![0x74u8, 0x72u8, 0x75u8, 0x65u8]
            ||| t == seq![0x66u8, 0x61u8, 0x6cu8, 0x73u8, 0x65u8]
            ||| t == seq![0x5fu8]
        },
{
    if keyword_token(t) is Some {
        if t.len() == 1 {
            assert(t =~= seq![0x5fu8]);
        } else if t.len() == 2 {
            if t[0] == 0x66u8 {
                assert(t =~= seq![0x66u8, 0x6eu8]);
            } else {
                assert(t =~= seq![0x69u8, 0x66u8]);
            }
        } else if t.len() == 3 {
            if t[0] == 0x6cu8 {
                assert(t =~= seq![0x6cu8, 0x65u8, 0x74u8]);
            } else if t[0] == 0x6du8 {
                assert(t =~= seq![0x6du8, 0x75u8, 0x74u8]);
            } else {
                assert(t =~= seq![0x66u8, 0x6fu8, 0x72u8]);
            }
        } else if t.len() == 4 {
            if t[0] == 0x65u8 {
                assert(t =~= seq![0x65u8, 0x6cu8, 0x73u8, 0x65u8]);
            } else if t[0] == 0x6cu8 {
                assert(t =~= seq![0x6cu8, 0x6fu8, 0x6fu8, 0x70u8]);
            } else {
                assert(t =~= seq![0x74u8, 0x72u8, 0x75u8, 0x65u8]);
            }
        } else if t.len() == 5 {
            if t[0] == 0x6du8 {
                assert(t =~= seq![0x6du8, 0x61u8, 0x74u8, 0x63u8, 0x68u8]);
            } else {
                assert(t =~= seq![0x66u8, 0x61u8, 0x6cu8, 0x73u8, 0x65u8]);
            }
        } else if t.len() == 6 {
            assert(t =~= seq![0x72u8, 0x65u8, 0x74u8, 0x75u8, 0x72u8, 0x6eu8]);
        } else {
            assert(t =~= seq![0x70u8, 0x61u8, 0x72u8, 0x61u8, 0x6cu8, 0x6cu8, 0x65u8, 0x6cu8]);
        }
    }
}

/// A token that starts with an ASCII letter of either case or `_` is the
/// whole word there: scanning succeeds, the token runs to the end of the
/// source or the first byte that is not a letter, digit or `_`, and it is the
/// keyword that word spells, or else an identifier with its text.
pub proof fn lemma_word_start_scans_word(src: Seq<u8>, s: int)
    requires
        0 <= s < src.len(),
        word_start_byte(src[s]),
    ensures
        scan_token(src, s) matches Ok((t, e)) && word_between(src, s, e) && t == word_token(
            src.subrange(s, e),
        ),
{
    lemma_scan_token(src, s);
}

/// The escapes of string literals: after a backslash, `n`, `t`, `r`, `0`,
/// `\` and `"` stand for a newline, a tab, a carriage return, NUL, a
/// backslash and a double quote. No other byte makes an escape.
pub proof fn lemma_string_escapes(b: u8)
    ensures
        string_escape(0x6eu8) == Some(0x0au8),
        string_escape(0x74u8) == Some(0x09u8),
        string_escape(0x72u8) == Some(0x0du8),
        string_escape(0x30u8) == Some(0x00u8),
        string_escape(0x5cu8) == Some(0x5cu8),
        string_escape(0x22u8) == Some(0x22u8),
        string_escape(b) is Some ==> b == 0x6eu8 || b == 0x74u8 || b == 0x72u8 || b == 0x30u8
            || b == 0x5cu8 || b == 0x22u8,
{
}

/// The escapes of character literals: after a backslash, `n`, `t`, `r`, `0`,
/// `\` and `'` stand for a newline, a tab, a carriage return, NUL, a
/// backslash and a single quote. No other byte makes an escape.
pub proof fn lemma_char_escapes(b: u8)
    ensures
        char_escape(0x6eu8) == Some('\n'),
        char_escape(0x74u8) == Some('\t'),
        char_escape(0x72u8) == Some('\r'),
        char_escape(0x30u8) == Some('\0'),
        char_escape(0x5cu8) == Some('\\'),
        char_escape(0x27u8) == Some('\''),
        char_escape(b) is Some ==> b == 0x6eu8 || b == 0x74u8 || b == 0x72u8 || b == 0x30u8
            || b == 0x5cu8 || b == 0x27u8,
{
}

/// Digits are read most significant first: a single digit `d` is worth
/// `d - '0'`, and the digits of `a` followed by those of `b` are worth
/// `value(a) * 10^|b| + value(b)`.
pub proof fn lemma_decimal_value_concat(a: Seq<u8>, b: Seq<u8>)
    ensures
        b.len() == 1 && decimal_digit(b[0]) ==> decimal_value(b) == b[0] - 0x30,
        decimal_value(a + b) == decimal_value(a) * pow(10, b.len()) + decimal_value(b),
    decreases b.len(),
{
    reveal(pow);
    if b.len() == 0 {
        assert(a + b =~= a);
    } else {
        let b1 = b.drop_last();
        lemma_decimal_value_concat(a, b1);
        assert((a + b).drop_last() =~= a + b1);
        assert(b.drop_last() =~= b1);
        if b.len() == 1 {
            assert(b1.len() == 0);
        }
        let va = decimal_value(a) as int;
        let vb1 = decimal_value(b1) as int;
        let p1 = pow(10, b1.len());
        let d = (b.last() - 0x30u8) as int;
        assert(pow(10, b.len()) == 10 * p1);
        assert((va * p1 + vb1) * 10 + d == va * (10 * p1) + (vb1 * 10 + d)) by (nonlinear_arith);
    }
}

/// The byte after position `s` exists and is `c`.
pub open spec fn followed_by(src: Seq<u8>, s: int, c: u8) -> bool {
    s + 1 < src.len() && src[s + 1] == c
}

/// Scanning at `s` gives the token `t`, spanning `n` bytes.
pub open spec fn scans_as(src: Seq<u8>, s: int, t: TokenView, n: int) -> bool {
    scan_token(src, s) == Ok::<(TokenView, int), (int, Seq<char>)>((t, s + n))
}

/// Scanning at `s` fails on its first byte: the error ends after that byte
/// and names it as an unexpected character.
pub open spec fn unexpected_at(src: Seq<u8>, s: int) -> bool {
    scan_token(src, s) == Err::<(TokenView, int), (int, Seq<char>)>(
        (s + 1, "unexpected character '"@ + seq![src[s] as char] + "'"@),
    )
}

/// The operators and delimiters. `( ) { } [ ] , ; : + * / % @` are one-byte
/// tokens; `-` `=` `!` `<` `>` `&` take the longest of `->`, `==`, `=>`,
/// `!=`, `<=`, `>=`, `&&` that starts there; `|` and `.` are tokens only
/// doubled, as `||` and `..`. A byte that starts no token (none of these,
/// no quote, digit, letter or `_`) is an unexpected character.
pub proof fn lemma_punctuation(src: Seq<u8>, s: int)
    requires
        0 <= s < src.len(),
    ensures
        src[s] == 0x28u8 ==> scans_as(src, s, TokenView::LParen, 1),
        src[s] == 0x29u8 ==> scans_as(src, s, TokenView::RParen, 1),
        src[s] == 0x7bu8 ==> scans_as(src, s, TokenView::LBrace, 1),
        src[s] == 0x7du8 ==> scans_as(src, s, TokenView::RBrace, 1),
        src[s] == 0x5bu8 ==> scans_as(src, s, TokenView::LBracket, 1),
        src[s] == 0x5du8 ==> scans_as(src, s, TokenView::RBracket, 1),
        src[s] == 0x2cu8 ==> scans_as(src, s, TokenView::Comma, 1),
        src[s] == 0x3bu8 ==> scans_as(src, s, TokenView::Semicolon, 1),
        src[s] == 0x3au8 ==> scans_as(src, s, TokenView::Colon, 1),
        src[s] == 0x2bu8 ==> scans_as(src, s, TokenView::Plus, 1),
        src[s] == 0x2au8 ==> scans_as(src, s, TokenView::Star, 1),
        src[s] == 0x2fu8 ==> scans_as(src, s, TokenView::Slash, 1),
        src[s] == 0x25u8 ==> scans_as(src, s, TokenView::Percent, 1),
        src[s] == 0x40u8 ==> scans_as(src, s, TokenView::At, 1),
        src[s] == 0x2du8 ==> if followed_by(src, s, 0x3eu8) {
            scans_as(src, s, TokenView::Arrow, 2)
        } else {
            scans_as(src, s, TokenView::Minus, 1)
        },
        src[s] == 0x3du8 ==> if followed_by(src, s, 0x3du8) {
            scans_as(src, s, TokenView::EqEq, 2)
        } else if followed_by(src, s, 0x3eu8) {
            scans_as(src, s, TokenView::FatArrow, 2)
        } else {
            scans_as(src, s, TokenView::Eq, 1)
        },
        src[s] == 0x21u8 ==> if followed_by(src, s, 0x3du8) {
            scans_as(src, s, TokenView::NotEq, 2)
        } else {
            scans_as(src, s, TokenView::Not, 1)
        },
        src[s] == 0x3cu8 ==> if followed_by(src, s, 0x3du8) {
            scans_as(src, s, TokenView::LtEq, 2)
        } else {
            scans_as(src, s, TokenView::Lt, 1)
        },
        src[s] == 0x3eu8 ==> if followed_by(src, s, 0x3du8) {
            scans_as(src, s, TokenView::GtEq, 2)
        } else {
            scans_as(src, s, TokenView::Gt, 1)
        },
        src[s] == 0x26u8 ==> if followed_by(src, s, 0x26u8) {
            scans_as(src, s, TokenView::AndAnd, 2)
        } else {
            scans_as(src, s, TokenView::Amp, 1)
        },
        src[s] == 0x7cu8 ==> if followed_by(src, s, 0x7cu8) {
            scans_as(src, s, TokenView::OrOr, 2)
        } else {
            unexpected_at(src, s)
        },
        src[s] == 0x2eu8 ==> if followed_by(src, s, 0x2eu8) {
            scans_as(src, s, TokenView::DotDot, 2)
        } else {
            unexpected_at(src, s)
        },
        !(src[s] == 0x28u8 || src[s] == 0x29u8 || src[s] == 0x7bu8 || src[s] == 0x7du8 || src[s]
            == 0x5bu8 || src[s] == 0x5du8 || src[s] == 0x2cu8 || src[s] == 0x3bu8 || src[s]
            == 0x3au8 || src[s] == 0x2bu8 || src[s] == 0x2au8 || src[s] == 0x2fu8 || src[s]
            == 0x25u8 || src[s] == 0x40u8 || src[s] == 0x2du8 || src[s] == 0x3du8 || src[s]
            == 0x21u8 || src[s] == 0x3cu8 || src[s] == 0x3eu8 || src[s] == 0x26u8 || src[s]
            == 0x7cu8 || src[s] == 0x2eu8 || src[s] == 0x22u8 || src[s] == 0x27u8 || decimal_digit(
            src[s],
        ) || word_start_byte(src[s])) ==> unexpected_at(src, s),
{
}

/// A token that starts with a digit is the whole number there. When the digit
/// run is followed by `.` and a digit, it is a float literal spelling digits,
/// `.`, digits; else it is the digit run, an integer literal with its value
/// when that fits in `i64`, and an error otherwise.
pub proof fn lemma_digit_start_scans_number(src: Seq<u8>, s: int)
    requires
        0 <= s < src.len(),
        decimal_digit(src[s]),
    ensures
        match scan_token(src, s) {
            Ok((TokenOf::FloatLit(x), e)) => {
                &&& x == byte_chars(src.subrange(s, e))
                &&& float_text(src.subrange(s, e))
                &&& !digit_at(src, e)
            },
            Ok((TokenOf::IntLit(v), e)) => {
                &&& digit_text(src.subrange(s, e))
                &&& v == decimal_value(src.subrange(s, e))
                &&& !digit_at(src, e)
                &&& !(e < src.len() && src[e] == 0x2eu8 && digit_at(src, e + 1))
            },
            Ok(_) => false,
            Err((e, _)) => {
                &&& s < e <= src.len()
                &&& digit_text(src.subrange(s, e))
                &&& decimal_value(src.subrange(s, e)) > i64::MAX
                &&& !digit_at(src, e)
                &&& !(e < src.len() && src[e] == 0x2eu8 && digit_at(src, e + 1))
            },
        },
{
    lemma_scan_token(src, s);
    lemma_digits_end(src, s + 1);
    let p1 = digits_end(src, s + 1);
    let text = src.subrange(s, p1);
    assert forall|k: int| 0 <= k < text.len() implies decimal_digit(#[trigger] text[k]) by {
        assert(text[k] == src[s + k]);
        if 0 < k {
            assert(is_digit(src[s + k]));
        }
    }
}

/// String and character literal tokens spell their values: a character
/// literal's span holds a quote, the escape or the UTF-8 encoding of its char,
/// and a quote; a string literal's span holds a quote and a body that
/// unescapes to the UTF-8 encoding of its text before the closing quote.
pub proof fn lemma_literals_spell_their_values(src: Seq<u8>, file_hash: u64)
    requires
        src.len() <= u32::MAX,
    ensures
        lex(src, file_hash) matches Ok(ts) ==> {
            &&& forall|i: int|
                0 <= i < ts.len() ==> (#[trigger] ts[i].0 matches TokenOf::CharLit(c)
                    ==> char_literal_spells(src, span_start(ts[i].1), span_end(ts[i].1), c))
            &&& forall|i: int|
                0 <= i < ts.len() ==> (#[trigger] ts[i].0 matches TokenOf::StringLit(x)
                    ==> string_literal_spells(src, span_start(ts[i].1), span_end(ts[i].1), x))
        },
{
    lemma_lex_from(src, file_hash, 0);
}

proof fn lemma_trivia_non_ascii(src: Seq<u8>, a: int, k: int)
    requires
        0 <= a <= k < skip_trivia(src, a),
        k < src.len(),
        src[k] >= 0x80,
    ensures
        in_line_comment(src, k),
    decreases src.len() - a, 0int,
{
    if is_ws(src[a]) {
        lemma_trivia_non_ascii(src, a + 1, k);
    } else {
        lemma_comment_non_ascii(src, a, a + 2, k);
    }
}

proof fn lemma_comment_non_ascii(src: Seq<u8>, c: int, p: int, k: int)
    requires
        0 <= c,
        c + 2 <= p <= k < skip_comment(src, p),
        k < src.len(),
        byte_is(src, c, 0x2fu8),
        byte_is(src, c + 1, 0x2fu8),
        forall|j: int| c <= j < p ==> #[trigger] src[j] != 0x0au8,
        src[k] >= 0x80,
    ensures
        in_line_comment(src, k),
    decreases src.len() - p, 1int,
{
    if src[p] == 0x0au8 {
        lemma_trivia_non_ascii(src, p, k);
    } else if k == p {
        assert(forall|j: int| c <= j <= k ==> #[trigger] src[j] != 0x0au8);
        assert(src[c] == 0x2fu8 && src[c + 1] == 0x2fu8);
    } else {
        lemma_comment_non_ascii(src, c, p + 1, k);
    }
}

proof fn lemma_locate_byte(
    src: Seq<u8>,
    file_hash: u64,
    ts: Seq<(TokenView, SourceSpan)>,
    i: int,
    k: int,
)
    requires
        src.len() <= u32::MAX,
        lexed_facts(src, file_hash, 0, ts),
        0 <= i < ts.len(),
        span_start(ts[i].1) <= k < src.len(),
        src[k] >= 0x80,
    ensures
        (exists|j: int|
            0 <= j < ts.len() && is_text_literal(#[trigger] ts[j].0) && span_start(ts[j].1) <= k
                < span_end(ts[j].1)) || in_line_comment(src, k),
    decreases ts.len() - i,
{
    let sp = ts[i].1;
    if k < span_end(sp) {
        if !is_text_literal(ts[i].0) {
            assert(ascii_between(src, span_start(sp), span_end(sp)));
            assert(src[k] < 0x80);
        }
    } else {
        if i == ts.len() - 1 {
            assert(ts[i] == ts.last());
            assert(span_start(sp) == src.len());
        } else if span_start(ts[i + 1].1) <= k {
            lemma_locate_byte(src, file_hash, ts, i + 1, k);
        } else {
            assert(skip_trivia(src, span_end(sp)) == span_start(ts[i + 1].1));
            lemma_trivia_non_ascii(src, span_end(sp), k);
        }
    }
}

/// Non-ASCII text: when lexing succeeds, every non-ASCII byte of the source
/// lies inside a string or character literal token or in the body of a `//`
/// comment; anywhere else it is a lexing error. (Bidirectional control
/// characters are excluded from comments and character literals too: see
/// `lemma_bidi_only_in_string_literals`.)
pub proof fn lemma_non_ascii_only_in_literals_or_comments(src: Seq<u8>, file_hash: u64, k: int)
    requires
        src.len() <= u32::MAX,
        0 <= k < src.len(),
        src[k] >= 0x80,
    ensures
        lex(src, file_hash) matches Ok(ts) ==> (exists|j: int|
            0 <= j < ts.len() && is_text_literal(#[trigger] ts[j].0) && span_start(ts[j].1) <= k
                < span_end(ts[j].1)) || in_line_comment(src, k),
{
    lemma_lex_from(src, file_hash, 0);
    match lex(src, file_hash) {
        Ok(ts) => {
            if k < span_start(ts[0].1) {
                lemma_trivia_non_ascii(src, 0, k);
            } else {
                lemma_locate_byte(src, file_hash, ts, 0, k);
            }
        },
        Err(_) => {},
    }
}

/// No bidi control character is encoded in trivia whose comments hold none.
proof fn lemma_trivia_no_bidi(src: Seq<u8>, a: int, k: int)
    requires
        0 <= a <= k < skip_trivia(src, a),
        trivia_bidi(src, a) is None,
    ensures
        !bidi_at(src, k),
    decreases src.len() - a, 0int,
{
    if bidi_at(src, k) {
        lemma_bidi_at_bytes(src, k);
        if is_ws(src[a]) {
            lemma_trivia_no_bidi(src, a + 1, k);
        } else {
            lemma_comment_no_bidi(src, a + 2, k);
        }
    }
}

proof fn lemma_comment_no_bidi(src: Seq<u8>, p: int, k: int)
    requires
        0 <= p <= k < skip_comment(src, p),
        comment_bidi(src, p) is None,
    ensures
        !bidi_at(src, k),
    decreases src.len() - p, 1int,
{
    if bidi_at(src, k) {
        lemma_bidi_at_bytes(src, k);
        if src[p] == 0x0au8 {
            lemma_trivia_no_bidi(src, p, k);
        } else if k > p {
            lemma_comment_no_bidi(src, p + 1, k);
        }
    }
}

proof fn lemma_locate_bidi(
    src: Seq<u8>,
    file_hash: u64,
    ts: Seq<(TokenView, SourceSpan)>,
    i: int,
    k: int,
)
    requires
        src.len() <= u32::MAX,
        lexed_facts(src, file_hash, 0, ts),
        0 <= i < ts.len(),
        span_start(ts[i].1) <= k,
        bidi_at(src, k),
    ensures
        exists|j: int|
            0 <= j < ts.len() && #[trigger] ts[j].0 is StringLit && span_start(ts[j].1) <= k
                < span_end(ts[j].1),
    decreases ts.len() - i,
{
    lemma_bidi_at_bytes(src, k);
    let sp = ts[i].1;
    if k < span_end(sp) {
        if !is_text_literal(ts[i].0) {
            assert(ascii_between(src, span_start(sp), span_end(sp)));
            assert(src[k] < 0x80);
        } else if ts[i].0 is CharLit {
            assert(no_bidi_between(src, span_start(sp), span_end(sp)));
        }
    } else {
        if i == ts.len() - 1 {
            assert(ts[i] == ts.last());
            assert(span_start(sp) == src.len());
        } else if span_start(ts[i + 1].1) <= k {
            lemma_locate_bidi(src, file_hash, ts, i + 1, k);
        } else {
            assert(skip_trivia(src, span_end(sp)) == span_start(ts[i + 1].1));
            assert(trivia_bidi(src, span_end(sp)) is None);
            lemma_trivia_no_bidi(src, span_end(sp), k);
        }
    }
}

/// Trojan Source: a bidirectional control character is text only inside a
/// string literal. When lexing succeeds, every position where one is encoded
/// lies inside the span of a string literal token; in a comment, in a
/// character literal or anywhere else it is a lexing error.
pub proof fn lemma_bidi_only_in_string_literals(src: Seq<u8>, file_hash: u64, k: int)
    requires
        src.len() <= u32::MAX,
        bidi_at(src, k),
    ensures
        lex(src, file_hash) matches Ok(ts) ==> exists|j: int|
            0 <= j < ts.len() && #[trigger] ts[j].0 is StringLit && span_start(ts[j].1) <= k
                < span_end(ts[j].1),
{
    lemma_lex_from(src, file_hash, 0);
    match lex(src, file_hash) {
        Ok(ts) => {
            if k < span_start(ts[0].1) {
                lemma_trivia_no_bidi(src, 0, k);
            } else {
                lemma_locate_bidi(src, file_hash, ts, 0, k);
            }
        },
        Err(_) => {},
    }
}

/// Where skipping trivia stops: the end of the source, or a byte that is
/// neither whitespace nor the start of a `//` comment.
pub open spec fn trivia_stop(src: Seq<u8>, q: int) -> bool {
    q >= src.len() || (!is_ws(src[q]) && !(byte_is(src, q, 0x2fu8) && byte_is(src, q + 1, 0x2fu8)))
}

proof fn lemma_skip_trivia_stops(src: Seq<u8>, p: int)
    requires
        0 <= p <= src.len(),
    ensures
        trivia_stop(src, skip_trivia(src, p)),
    decreases src.len() - p, 0int,
{
    if p < src.len() {
        if is_ws(src[p]) {
            lemma_skip_trivia_stops(src, p + 1);
        } else if byte_is(src, p, 0x2fu8) && byte_is(src, p + 1, 0x2fu8) {
            lemma_skip_comment_stops(src, p + 2);
        }
    }
}

proof fn lemma_skip_comment_stops(src: Seq<u8>, p: int)
    requires
        0 <= p <= src.len(),
    ensures
        trivia_stop(src, skip_comment(src, p)),
    decreases src.len() - p, 1int,
{
    if p < src.len() {
        if src[p] == 0x0au8 {
            lemma_skip_trivia_stops(src, p);
        } else {
            lemma_skip_comment_stops(src, p + 1);
        }
    }
}

/// Skipping trivia settles: skipping again from where it stopped moves
/// nowhere.
pub proof fn lemma_skip_trivia_settles(src: Seq<u8>, p: int)
    requires
        0 <= p <= src.len(),
    ensures
        skip_trivia(src, skip_trivia(src, p)) == skip_trivia(src, p),
{
    lemma_skip_trivia_stops(src, p);
    lemma_skip_trivia_bounds(src, p);
}

proof fn lemma_skip_comment_to_line_end(src: Seq<u8>, r: int, q: int)
    requires
        0 <= r <= q <= src.len(),
        q == src.len() || src[q] == 0x0au8,
        forall|k: int| r <= k < q ==> src[k] != 0x0au8,
    ensures
        skip_comment(src, r) == skip_trivia(src, q),
    decreases q - r,
{
    if r < q {
        lemma_skip_comment_to_line_end(src, r + 1, q);
    }
}

/// What skipping trivia passes over: a space, tab, newline or carriage
/// return, one byte at a time, and a `//` comment up to (not including) the
/// newline that ends it, or to the end of the source. At any other byte, or
/// at the end of the source, it stops.
pub proof fn lemma_trivia_bytes(src: Seq<u8>, p: int, q: int)
    requires
        0 <= p <= q <= src.len(),
    ensures
        p < src.len() && (src[p] == 0x20u8 || src[p] == 0x09u8 || src[p] == 0x0au8 || src[p]
            == 0x0du8) ==> skip_trivia(src, p) == skip_trivia(src, p + 1),
        p + 1 < q && src[p] == 0x2fu8 && src[p + 1] == 0x2fu8 && (q == src.len() || src[q]
            == 0x0au8) && (forall|k: int| p <= k < q ==> src[k] != 0x0au8) ==> skip_trivia(src, p)
            == skip_trivia(src, q),
        p == src.len() || !(src[p] == 0x20u8 || src[p] == 0x09u8 || src[p] == 0x0au8 || src[p]
            == 0x0du8 || (src[p] == 0x2fu8 && followed_by(src, p, 0x2fu8))) ==> skip_trivia(src, p)
            == p,
{
    if p + 1 < q && src[p] == 0x2fu8 && src[p + 1] == 0x2fu8 && (q == src.len() || src[q]
        == 0x0au8) && (forall|k: int| p <= k < q ==> src[k] != 0x0au8) {
        lemma_skip_comment_to_line_end(src, p + 2, q);
    }
}

/// The end of input is reached exactly when the rest of the source is
/// whitespace and comments, with no bidirectional control character in a
/// comment.
pub proof fn lemma_end_of_input(src: Seq<u8>, p: int)
    requires
        0 <= p <= src.len(),
    ensures
        next_token(src, p) == Ok::<Option<(TokenView, int, int)>, (int, int, Seq<char>)>(None)
            <==> (trivia_bidi(src, p) is None && skip_trivia(src, p) == src.len()),
{
    lemma_skip_trivia_bounds(src, p);
}

/// A token found by `next_token` starts where the trivia after `p` end, is
/// non-empty, and ends within the source, where the next search starts.
pub proof fn lemma_next_token_span(src: Seq<u8>, p: int)
    requires
        0 <= p <= src.len(),
    ensures
        next_token(src, p) matches Ok(Some((t, s, e))) ==> {
            &&& s == skip_trivia(src, p)
            &&& p <= s < e <= src.len()
            &&& !(t is Eof)
        },
{
    lemma_skip_trivia_bounds(src, p);
    let s = skip_trivia(src, p);
    if 0 <= s < src.len() {
        lemma_scan_token(src, s);
    }
}

/// How a character literal reads the width of its char from the first byte:
/// an ASCII byte stands alone, `0xC0..=0xDF` leads one continuation byte,
/// `0xE0..=0xEF` two and `0xF0..=0xF7` three; a continuation byte
/// (`0x80..=0xBF`) or a byte from `0xF8` up leads nothing.
pub proof fn lemma_lead_byte_table(b: u8)
    ensures
        utf8_extra(b) == Some(0int) <==> b <= 0x7fu8,
        utf8_extra(b) == Some(1int) <==> 0xc0u8 <= b <= 0xdfu8,
        utf8_extra(b) == Some(2int) <==> 0xe0u8 <= b <= 0xefu8,
        utf8_extra(b) == Some(3int) <==> 0xf0u8 <= b <= 0xf7u8,
        utf8_extra(b) is None <==> (0x80u8 <= b <= 0xbfu8 || 0xf8u8 <= b),
{
}

/// The lead byte of a char's UTF-8 encoding gives its width minus one.
pub proof fn lemma_lead_byte_width(c: char)
    ensures
        utf8_extra(encode_scalar(c as u32)[0]) == Some(encode_scalar(c as u32).len() - 1),
{
    let one = seq![c];
    assert(encode_utf8(one) =~= encode_scalar(c as u32) + encode_utf8(one.drop_first()));
    assert(one.drop_first() =~= Seq::<char>::empty());
    assert(encode_utf8(one) =~= encode_scalar(c as u32));
    encode_utf8_first_scalar(one);
}

/// A quoted char scans back to itself: after an opening quote, the UTF-8
/// encoding of a char followed by a quote is a character literal for that
/// char, unless the char is a quote, a backslash or a bidi control.
pub proof fn lemma_char_literal_roundtrip(src: Seq<u8>, p: int, c: char)
    requires
        0 <= p,
        c != '\'',
        c != '\\',
        !is_bidi_control(c),
        p + encode_scalar(c as u32).len() < src.len(),
        src.subrange(p, p + encode_scalar(c as u32).len()) == encode_scalar(c as u32),
        src[p + encode_scalar(c as u32).len()] == 0x27u8,
    ensures
        scan_char(src, p) == Ok::<(TokenView, int), (int, Seq<char>)>(
            (TokenOf::CharLit(c), p + encode_scalar(c as u32).len() + 1),
        ),
{
    let e = encode_scalar(c as u32);
    let w = e.len() as int;
    let one = seq![c];
    assert(encode_utf8(one) =~= encode_scalar(c as u32) + encode_utf8(one.drop_first()));
    assert(one.drop_first() =~= Seq::<char>::empty());
    assert(encode_utf8(one) =~= e);
    encode_utf8_first_scalar(one);
    encode_utf8_valid_utf8(one);
    encode_utf8_decode_utf8(one);
    lemma_lead_byte_width(c);
    assert(src[p] == e[0]);
    if w == 1 {
        let b = e[0];
        assert(is_leading_byte_width_1(b));
        assert(decode_first_scalar(e) == (b & 0x7f) as u32);
        assert(b <= 0x7f ==> (b & 0x7f) as u32 == b as u32) by (bit_vector);
        char_u32_cast(c, c as u32);
        if b == 0x27u8 {
            assert(c as u32 == 0x27u32);
            assert(('\'' as u32) == 0x27u32);
            char_u32_cast('\'', '\'' as u32);
        }
        if b == 0x5cu8 {
            assert(c as u32 == 0x5cu32);
            assert(('\\' as u32) == 0x5cu32);
            char_u32_cast('\\', '\\' as u32);
        }
    }
    assert(src[p] != 0x27u8 && src[p] != 0x5cu8);
    if bidi_at(src, p) {
        lemma_bidi_at_bytes(src, p);
        assert(w == 3);
        assert(src.subrange(p, p + 3) =~= e);
        lemma_bidi_at_head(one);
        assert(e.subrange(0, 3) =~= e);
    }
    assert(src.subrange(p, p + 1 + (w - 1)) =~= e);
}

/// An escaped char scans back to itself: a backslash, an escape byte and a
/// quote are a character literal for the char the escape stands for.
pub proof fn lemma_escaped_char_roundtrip(src: Seq<u8>, p: int, b: u8, c: char)
    requires
        0 <= p,
        p + 2 < src.len(),
        char_escape(b) == Some(c),
        src[p] == 0x5cu8,
        src[p + 1] == b,
        src[p + 2] == 0x27u8,
    ensures
        scan_char(src, p) == Ok::<(TokenView, int), (int, Seq<char>)>(
            (TokenOf::CharLit(c), p + 3),
        ),
{
}

/// How a byte is written inside a string literal: a quote, a backslash and
/// a newline as backslash escapes, any other byte as itself.
pub open spec fn escape_string_byte(b: u8) -> Seq<u8> {
    if b == 0x22u8 {
        seq![0x5cu8, 0x22u8]
    } else if b == 0x5cu8 {
        seq![0x5cu8, 0x5cu8]
    } else if b == 0x0au8 {
        seq![0x5cu8, 0x6eu8]
    } else {
        seq![b]
    }
}

/// How a byte sequence is written inside a string literal.
pub open spec fn escape_string_bytes(bs: Seq<u8>) -> Seq<u8>
    decreases bs.len(),
{
    if bs.len() == 0 {
        seq![]
    } else {
        escape_string_byte(bs[0]) + escape_string_bytes(bs.drop_first())
    }
}

proof fn lemma_string_body_roundtrip(src: Seq<u8>, p: int, acc: Seq<u8>, bs: Seq<u8>)
    requires
        0 <= p,
        p + escape_string_bytes(bs).len() < src.len(),
        src.subrange(p, p + escape_string_bytes(bs).len()) == escape_string_bytes(bs),
        src[p + escape_string_bytes(bs).len()] == 0x22u8,
    ensures
        string_body(src, p, acc) == Ok::<(Seq<u8>, int), (int, Seq<char>)>(
            (acc + bs, p + escape_string_bytes(bs).len() + 1),
        ),
    decreases bs.len(),
{
    let q = p + escape_string_bytes(bs).len();
    if bs.len() == 0 {
        assert(acc + bs =~= acc);
    } else {
        let b = bs[0];
        let eb = escape_string_byte(b);
        let rest = bs.drop_first();
        let er = escape_string_bytes(rest);
        assert(escape_string_bytes(bs) == eb + er);
        let w = eb.len() as int;
        assert(src.subrange(p + w, q) =~= er) by {
            assert forall|i: int| 0 <= i < er.len() implies src.subrange(p + w, q)[i] == er[i] by {
                assert(src.subrange(p, q)[w + i] == (eb + er)[w + i]);
            }
        }
        assert(src[p] == src.subrange(p, q)[0]);
        assert(src[p] == eb[0]);
        if w == 2 {
            assert(src[p + 1] == src.subrange(p, q)[1]);
            assert(src[p + 1] == eb[1]);
        }
        lemma_string_body_roundtrip(src, p + w, acc.push(b), rest);
        assert(acc.push(b) + rest =~= acc + bs);
    }
}

/// An escaped string scans back to itself: after an opening quote, the
/// written form of the UTF-8 encoding of a text, followed by a quote, is a
/// string literal for that text.
pub proof fn lemma_string_literal_roundtrip(src: Seq<u8>, p: int, x: Seq<char>)
    requires
        0 <= p,
        p + escape_string_bytes(encode_utf8(x)).len() < src.len(),
        src.subrange(p, p + escape_string_bytes(encode_utf8(x)).len()) == escape_string_bytes(
            encode_utf8(x),
        ),
        src[p + escape_string_bytes(encode_utf8(x)).len()] == 0x22u8,
    ensures
        scan_string(src, p) == Ok::<(TokenView, int), (int, Seq<char>)>(
            (TokenOf::StringLit(x), p + escape_string_bytes(encode_utf8(x)).len() + 1),
        ),
{
    lemma_string_body_roundtrip(src, p, seq![], encode_utf8(x));
    assert(Seq::<u8>::empty() + encode_utf8(x) =~= encode_utf8(x));
    encode_utf8_valid_utf8(x);
    encode_utf8_decode_utf8(x);
}

/// After a char boundary that holds an ASCII byte, the next position is a
/// char boundary too (or the end).
proof fn lemma_boundary_after_ascii(src: Seq<u8>, i: int)
    requires
        valid_utf8(src),
        0 <= i < src.len(),
        src[i] < 0x80,
    ensures
        i + 1 == src.len() || is_char_boundary(src, i + 1),
{
    if i + 1 < src.len() {
        assert(!is_continuation_byte(src[i])) by {}
        is_char_boundary_iff_not_is_continuation_byte(src, i);
        valid_utf8_split(src, i);
        let t = src.subrange(i, src.len() as int);
        assert(t[0] == src[i]);
        assert(valid_first_scalar(t));
        assert(length_of_first_scalar(t) == 1);
        assert(valid_utf8(pop_first_scalar(t)));
        let u = pop_first_scalar(t);
        assert(u.len() > 0);
        assert(valid_first_scalar(u));
        assert(u[0] == src[i + 1]);
        is_char_boundary_iff_not_is_continuation_byte(src, i + 1);
    }
}

/// The bytes between two char boundaries are valid UTF-8.
proof fn lemma_valid_between_boundaries(src: Seq<u8>, q: int, p: int)
    requires
        valid_utf8(src),
        0 <= q <= p <= src.len(),
        is_char_boundary(src, q),
        p == src.len() || is_char_boundary(src, p),
    ensures
        valid_utf8(src.subrange(q, p)),
{
    valid_utf8_split(src, q);
    let t = src.subrange(q, src.len() as int);
    if p < src.len() {
        is_char_boundary_iff_not_is_continuation_byte(src, p);
        assert(t[p - q] == src[p]);
        is_char_boundary_iff_not_is_continuation_byte(t, p - q);
        valid_utf8_split(t, p - q);
        assert(t.subrange(0, p - q) =~= src.subrange(q, p));
    } else {
        assert(t =~= src.subrange(q, p));
    }
}

proof fn lemma_string_body_valid(src: Seq<u8>, p: int, acc0: Seq<u8>, q: int)
    requires
        valid_utf8(src),
        0 <= q <= p <= src.len(),
        is_char_boundary(src, q),
        valid_utf8(acc0),
    ensures
        string_body(src, p, acc0 + src.subrange(q, p)) matches Ok((bs, _)) ==> valid_utf8(bs),
    decreases src.len() - p,
{
    let acc = acc0 + src.subrange(q, p);
    if p < src.len() {
        let b = src[p];
        if b == 0x22u8 || b == 0x5cu8 {
            is_char_boundary_iff_not_is_continuation_byte(src, p);
            lemma_valid_between_boundaries(src, q, p);
            valid_utf8_concat(acc0, src.subrange(q, p));
        }
        if b == 0x5cu8 && p + 1 < src.len() {
            match string_escape(src[p + 1]) {
                Some(c) => {
                    lemma_boundary_after_ascii(src, p);
                    lemma_boundary_after_ascii(src, p + 1);
                    let one = seq![c];
                    assert(all_ascii(one));
                    lemma_ascii_utf8(one);
                    valid_utf8_concat(acc, one);
                    assert(acc.push(c) =~= acc + one);
                    if p + 2 < src.len() {
                        lemma_string_body_valid(src, p + 2, acc.push(c), p + 2);
                    } else {
                        is_char_boundary_start_end_of_seq(src);
                        lemma_string_body_valid(src, p + 2, acc.push(c), p + 2);
                    }
                    assert(acc.push(c) + src.subrange(p + 2, p + 2) =~= acc.push(c));
                },
                None => {},
            }
        } else if b != 0x22u8 && b != 0x0au8 && b != 0x5cu8 {
            lemma_string_body_valid(src, p + 1, acc0, q);
            assert(acc0 + src.subrange(q, p + 1) =~= acc.push(b));
        }
    }
}

/// A source that is a `&str` never meets "string literal is not valid
/// UTF-8": the bytes that a string literal's body decodes to are valid
/// UTF-8, so the literal is its decoding or an error of its body.
pub proof fn lemma_source_strings_are_utf8(x: Seq<char>, s: int)
    requires
        0 <= s < encode_utf8(x).len(),
        encode_utf8(x)[s] == 0x22u8,
    ensures
        string_body(encode_utf8(x), s + 1, seq![]) matches Ok((bs, _)) ==> valid_utf8(bs),
        scan_string(encode_utf8(x), s + 1) == match string_body(encode_utf8(x), s + 1, seq![]) {
            Ok((bs, e)) => Ok((TokenOf::StringLit(decode_utf8(bs)), e)),
            Err(err) => Err::<(TokenView, int), (int, Seq<char>)>(err),
        },
{
    let src = encode_utf8(x);
    encode_utf8_valid_utf8(x);
    is_char_boundary_iff_not_is_continuation_byte(src, s);
    lemma_boundary_after_ascii(src, s);
    is_char_boundary_start_end_of_seq(src);
    lemma_ascii_utf8(Seq::<u8>::empty());
    lemma_string_body_valid(src, s + 1, seq![], s + 1);
    assert(Seq::<u8>::empty() + src.subrange(s + 1, s + 1) =~= Seq::<u8>::empty());
}

} // verus!
