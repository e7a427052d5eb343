//! The meaning of lexing, stated over the source bytes.
//!
//! Positions are byte offsets into the UTF-8 encoding of the source. Line and
//! column are functions of a position: the line is one more than the number
//! of newlines before it, the column one more than the number of bytes since
//! the last newline. Each scanning function takes the position just after
//! the bytes already consumed and gives the token with the position after
//! it, or the position reached when the error was found with its message.

use vstd::prelude::*;
use vstd::utf8::*;
use crate::bidi::bidi_at;
use crate::span::SourceSpan;
use crate::text::byte_chars;
use crate::token::{TokenOf, TokenView};

verus! {

/// A token and the position just after it, or an error: the position reached
/// when it was found, and its message.
pub type Scanned = Result<(TokenView, int), (int, Seq<char>)>;

/// The 1-based line of byte position `p`.
pub open spec fn line_at(src: Seq<u8>, p: int) -> int
    decreases p,
{
    if p <= 0 {
        1
    } else if src[p - 1] == 0x0au8 {
        line_at(src, p - 1) + 1
    } else {
        line_at(src, p - 1)
    }
}

/// The 1-based column (in bytes) of byte position `p`.
pub open spec fn col_at(src: Seq<u8>, p: int) -> int
    decreases p,
{
    if p <= 0 {
        1
    } else if src[p - 1] == 0x0au8 {
        1
    } else {
        col_at(src, p - 1) + 1
    }
}

/// The line and column counters, which are `u32`, never overflow on `src`.
pub open spec fn counters_fit(src: Seq<u8>) -> bool {
    &&& forall|p: int| 0 <= p <= src.len() ==> #[trigger] line_at(src, p) <= u32::MAX
    &&& forall|p: int| 0 <= p <= src.len() ==> #[trigger] col_at(src, p) <= u32::MAX
}

/// Consuming the byte at `p`, with line and column counters `line` and
/// `col`, bumps a counter that is below `u32::MAX`: the line for a newline,
/// else the column.
pub open spec fn bump_fits_at(src: Seq<u8>, p: int, line: int, col: int) -> bool {
    0 <= p < src.len() ==> if src[p] == 0x0au8 {
        line < u32::MAX
    } else {
        col < u32::MAX
    }
}

/// Where the counters fit over the whole source, the counter that the next
/// byte bumps fits too.
pub broadcast proof fn lemma_bump_fits(src: Seq<u8>, p: int, line: int, col: int)
    requires
        counters_fit(src),
        0 <= p,
        line == line_at(src, p),
        col == col_at(src, p),
    ensures
        #[trigger] bump_fits_at(src, p, line, col),
{
    if p < src.len() {
        assert(line_at(src, p + 1) <= u32::MAX);
        assert(col_at(src, p + 1) <= u32::MAX);
    }
}

/// The span of the bytes `src[s..e]`.
pub open spec fn span_of(src: Seq<u8>, file_hash: u64, s: int, e: int) -> SourceSpan {
    SourceSpan {
        file_hash,
        line: line_at(src, s) as u32,
        col: col_at(src, s) as u32,
        byte_offset: s as u32,
        length: (e - s) as u32,
    }
}

pub open spec fn is_ws(b: u8) -> bool {
    b == 0x20u8 || b == 0x09u8 || b == 0x0au8 || b == 0x0du8
}

pub open spec fn is_digit(b: u8) -> bool {
    0x30u8 <= b <= 0x39u8
}

pub open spec fn is_alpha(b: u8) -> bool {
    (0x61u8 <= b <= 0x7au8) || (0x41u8 <= b <= 0x5au8)
}

/// Bytes that continue an identifier: ASCII letters, digits and `_`.
pub open spec fn is_ident_byte(b: u8) -> bool {
    is_alpha(b) || is_digit(b) || b == 0x5fu8
}

/// `src[i] == c`, with `i` in bounds.
pub open spec fn byte_is(src: Seq<u8>, i: int, c: u8) -> bool {
    0 <= i < src.len() && src[i] == c
}

/// The position after the whitespace and `//` comments that start at `p`.
pub open spec fn skip_trivia(src: Seq<u8>, p: int) -> int
    decreases src.len() - p, 0int,
{
    if p < 0 || p >= src.len() {
        p
    } else if is_ws(src[p]) {
        skip_trivia(src, p + 1)
    } else if byte_is(src, p, 0x2fu8) && byte_is(src, p + 1, 0x2fu8) {
        skip_comment(src, p + 2)
    } else {
        p
    }
}

/// The position after the trivia that follows the rest of a `//` comment
/// whose body continues at `p`.
pub open spec fn skip_comment(src: Seq<u8>, p: int) -> int
    decreases src.len() - p, 1int,
{
    if p < 0 || p >= src.len() {
        p
    } else if src[p] == 0x0au8 {
        skip_trivia(src, p)
    } else {
        skip_comment(src, p + 1)
    }
}

/// The message for a bidirectional control character met outside a string
/// literal.
pub open spec fn msg_bidi() -> Seq<char> {
    "Unicode bidirectional control character outside a string literal"@
}

/// The position of the first bidi control character inside a `//` comment
/// among the trivia that start at `p`, if any.
pub open spec fn trivia_bidi(src: Seq<u8>, p: int) -> Option<int>
    decreases src.len() - p, 0int,
{
    if p < 0 || p >= src.len() {
        None
    } else if is_ws(src[p]) {
        trivia_bidi(src, p + 1)
    } else if byte_is(src, p, 0x2fu8) && byte_is(src, p + 1, 0x2fu8) {
        comment_bidi(src, p + 2)
    } else {
        None
    }
}

/// The position of the first bidi control character in the rest of a `//`
/// comment whose body continues at `p`, or among the trivia after it.
pub open spec fn comment_bidi(src: Seq<u8>, p: int) -> Option<int>
    decreases src.len() - p, 1int,
{
    if p < 0 || p >= src.len() {
        None
    } else if src[p] == 0x0au8 {
        trivia_bidi(src, p)
    } else if bidi_at(src, p) {
        Some(p)
    } else {
        comment_bidi(src, p + 1)
    }
}

/// The end of the run of identifier bytes starting at `p`.
pub open spec fn ident_end(src: Seq<u8>, p: int) -> int
    decreases src.len() - p,
{
    if 0 <= p < src.len() && is_ident_byte(src[p]) {
        ident_end(src, p + 1)
    } else {
        p
    }
}

/// The end of the run of decimal digits starting at `p`.
pub open spec fn digits_end(src: Seq<u8>, p: int) -> int
    decreases src.len() - p,
{
    if 0 <= p < src.len() && is_digit(src[p]) {
        digits_end(src, p + 1)
    } else {
        p
    }
}

/// `t` spells the two ASCII bytes `a b`, and so on for longer words.
pub open spec fn spells2(t: Seq<u8>, a: u8, b: u8) -> bool {
    t.len() == 2 && t[0] == a && t[1] == b
}

pub open spec fn spells3(t: Seq<u8>, a: u8, b: u8, c: u8) -> bool {
    t.len() == 3 && t[0] == a && t[1] == b && t[2] == c
}

pub open spec fn spells4(t: Seq<u8>, a: u8, b: u8, c: u8, d: u8) -> bool {
    t.len() == 4 && t[0] == a && t[1] == b && t[2] == c && t[3] == d
}

pub open spec fn spells5(t: Seq<u8>, a: u8, b: u8, c: u8, d: u8, e: u8) -> bool {
    t.len() == 5 && t[0] == a && t[1] == b && t[2] == c && t[3] == d && t[4] == e
}

/// The keyword, boolean literal or `_` that the identifier text `t` spells.
pub open spec fn keyword_token(t: Seq<u8>) -> Option<TokenView> {
    if spells2(t, 0x66, 0x6e) {
        Some(TokenOf::Fn)
    } else if spells3(t, 0x6c, 0x65, 0x74) {
        Some(TokenOf::Let)
    } else if spells3(t, 0x6d, 0x75, 0x74) {
        Some(TokenOf::Mut)
    } else if spells2(t, 0x69, 0x66) {
        Some(TokenOf::If)
    } else if spells4(t, 0x65, 0x6c, 0x73, 0x65) {
        Some(TokenOf::Else)
    } else if spells4(t, 0x6c, 0x6f, 0x6f, 0x70) {
        Some(TokenOf::Loop)
    } else if spells3(t, 0x66, 0x6f, 0x72) {
        Some(TokenOf::For)
    } else if t.len() == 8 && t[0] == 0x70 && t[1] == 0x61 && t[2] == 0x72 && t[3] == 0x61
        && t[4] == 0x6c && t[5] == 0x6c && t[6] == 0x65 && t[7] == 0x6c {
        Some(TokenOf::Parallel)
    } else if spells5(t, 0x6d, 0x61, 0x74, 0x63, 0x68) {
        Some(TokenOf::Match)
    } else if t.len() == 6 && t[0] == 0x72 && t[1] == 0x65 && t[2] == 0x74 && t[3] == 0x75
        && t[4] == 0x72 && t[5] == 0x6e {
        Some(TokenOf::Return)
    } else if spells4(t, 0x74, 0x72, 0x75, 0x65) {
        Some(TokenOf::BoolLit(true))
    } else if spells5(t, 0x66, 0x61, 0x6c, 0x73, 0x65) {
        Some(TokenOf::BoolLit(false))
    } else if t.len() == 1 && t[0] == 0x5f {
        Some(TokenOf::Underscore)
    } else {
        None
    }
}

/// The identifier or keyword whose first byte is at `s`.
pub open spec fn scan_ident(src: Seq<u8>, s: int) -> (TokenView, int) {
    let e = ident_end(src, s + 1);
    let text = src.subrange(s, e);
    match keyword_token(text) {
        Some(k) => (k, e),
        None => (TokenOf::Ident(byte_chars(text)), e),
    }
}

/// The value of a run of decimal digits.
pub open spec fn decimal_value(t: Seq<u8>) -> nat
    decreases t.len(),
{
    if t.len() == 0 {
        0
    } else {
        decimal_value(t.drop_last()) * 10 + (t.last() - 0x30u8) as nat
    }
}

pub open spec fn msg_int_out_of_range(text: Seq<u8>) -> Seq<char> {
    "integer literal '"@ + byte_chars(text) + "' out of range"@
}

/// The number literal whose first digit is at `s`: a float when the digits
/// are followed by `.` and a digit, else an integer that must fit in `i64`.
pub open spec fn scan_number(src: Seq<u8>, s: int) -> Scanned {
    let p1 = digits_end(src, s + 1);
    if byte_is(src, p1, 0x2eu8) && 0 <= p1 + 1 < src.len() && is_digit(src[p1 + 1]) {
        let e = digits_end(src, p1 + 1);
        Ok((TokenOf::FloatLit(byte_chars(src.subrange(s, e))), e))
    } else {
        let text = src.subrange(s, p1);
        if decimal_value(text) <= i64::MAX {
            Ok((TokenOf::IntLit(decimal_value(text) as i64), p1))
        } else {
            Err((p1, msg_int_out_of_range(text)))
        }
    }
}

/// The byte that a string escape `\b` stands for.
pub open spec fn string_escape(b: u8) -> Option<u8> {
    if b == 0x6eu8 {
        Some(0x0au8)
    } else if b == 0x74u8 {
        Some(0x09u8)
    } else if b == 0x72u8 {
        Some(0x0du8)
    } else if b == 0x30u8 {
        Some(0u8)
    } else if b == 0x5cu8 {
        Some(0x5cu8)
    } else if b == 0x22u8 {
        Some(0x22u8)
    } else {
        None
    }
}

/// The char that a character-literal escape `\b` stands for.
pub open spec fn char_escape(b: u8) -> Option<char> {
    if b == 0x6eu8 {
        Some('\n')
    } else if b == 0x74u8 {
        Some('\t')
    } else if b == 0x72u8 {
        Some('\r')
    } else if b == 0x30u8 {
        Some('\0')
    } else if b == 0x5cu8 {
        Some('\\')
    } else if b == 0x27u8 {
        Some('\'')
    } else {
        None
    }
}

pub open spec fn msg_unknown_escape(b: u8) -> Seq<char> {
    "unknown escape sequence '\\"@ + seq![b as char] + "'"@
}

pub open spec fn msg_unexpected_char(b: u8) -> Seq<char> {
    "unexpected character '"@ + seq![b as char] + "'"@
}

/// The decoded bytes of a string literal whose body continues at `p`, with
/// `acc` decoded so far, and the position after the closing quote.
pub open spec fn string_body(src: Seq<u8>, p: int, acc: Seq<u8>) -> Result<
    (Seq<u8>, int),
    (int, Seq<char>),
>
    decreases src.len() - p,
{
    if p < 0 || p >= src.len() {
        Err((p, "unterminated string literal"@))
    } else if src[p] == 0x22u8 {
        Ok((acc, p + 1))
    } else if src[p] == 0x0au8 {
        Err((p + 1, "unterminated string literal (raw newline — use \\n)"@))
    } else if src[p] == 0x5cu8 {
        if p + 1 >= src.len() {
            Err((p + 1, "unterminated escape sequence in string literal"@))
        } else {
            match string_escape(src[p + 1]) {
                Some(c) => string_body(src, p + 2, acc.push(c)),
                None => Err((p + 2, msg_unknown_escape(src[p + 1]))),
            }
        }
    } else {
        string_body(src, p + 1, acc.push(src[p]))
    }
}

/// The string literal whose body starts at `p` (after the opening quote).
pub open spec fn scan_string(src: Seq<u8>, p: int) -> Scanned {
    match string_body(src, p, seq![]) {
        Ok((bytes, e)) => if valid_utf8(bytes) {
            Ok((TokenOf::StringLit(decode_utf8(bytes)), e))
        } else {
            Err((e, "string literal is not valid UTF-8"@))
        },
        Err(x) => Err(x),
    }
}

/// How many continuation bytes follow a UTF-8 lead byte.
pub open spec fn utf8_extra(b: u8) -> Option<int> {
    if b <= 0x7fu8 {
        Some(0)
    } else if 0xc0u8 <= b <= 0xdfu8 {
        Some(1)
    } else if 0xe0u8 <= b <= 0xefu8 {
        Some(2)
    } else if 0xf0u8 <= b <= 0xf7u8 {
        Some(3)
    } else {
        None
    }
}

/// After the char `c` of a character literal, at `q`: the closing quote.
pub open spec fn close_char(src: Seq<u8>, q: int, c: char) -> Scanned {
    if byte_is(src, q, 0x27u8) {
        Ok((TokenOf::CharLit(c), q + 1))
    } else if 0 <= q < src.len() {
        Err((q + 1, "character literal must contain exactly one character"@))
    } else {
        Err((q, "character literal must contain exactly one character"@))
    }
}

/// The character literal whose body starts at `p` (after the opening quote).
/// A bidirectional control character is not accepted as its char.
pub open spec fn scan_char(src: Seq<u8>, p: int) -> Scanned {
    if p < 0 || p >= src.len() {
        Err((p, "unterminated character literal"@))
    } else if src[p] == 0x27u8 {
        Err((p + 1, "empty character literal"@))
    } else if src[p] == 0x5cu8 {
        if p + 1 >= src.len() {
            Err((p + 1, "unterminated character literal"@))
        } else {
            match char_escape(src[p + 1]) {
                Some(c) => close_char(src, p + 2, c),
                None => Err((p + 2, msg_unknown_escape(src[p + 1]))),
            }
        }
    } else {
        match utf8_extra(src[p]) {
            None => Err((p + 1, "invalid UTF-8 lead byte in character literal"@)),
            Some(k) => if p + 1 + k > src.len() {
                Err((src.len() as int, "unterminated character literal"@))
            } else if bidi_at(src, p) {
                Err((p + 1 + k, msg_bidi()))
            } else {
                let buf = src.subrange(p, p + 1 + k);
                if valid_utf8(buf) {
                    close_char(src, p + 1 + k, decode_utf8(buf)[0])
                } else {
                    Err((p + 1 + k, "invalid UTF-8 in character literal"@))
                }
            },
        }
    }
}

/// The token whose first byte, `src[s]`, is one of the one- or two-byte
/// operators and delimiters.
pub open spec fn scan_punct(src: Seq<u8>, s: int) -> Option<(TokenView, int)> {
    let b = src[s];
    let r = s + 1;
    if b == 0x28u8 {
        Some((TokenOf::LParen, r))
    } else if b == 0x29u8 {
        Some((TokenOf::RParen, r))
    } else if b == 0x7bu8 {
        Some((TokenOf::LBrace, r))
    } else if b == 0x7du8 {
        Some((TokenOf::RBrace, r))
    } else if b == 0x5bu8 {
        Some((TokenOf::LBracket, r))
    } else if b == 0x5du8 {
        Some((TokenOf::RBracket, r))
    } else if b == 0x2cu8 {
        Some((TokenOf::Comma, r))
    } else if b == 0x3bu8 {
        Some((TokenOf::Semicolon, r))
    } else if b == 0x3au8 {
        Some((TokenOf::Colon, r))
    } else if b == 0x2bu8 {
        Some((TokenOf::Plus, r))
    } else if b == 0x2au8 {
        Some((TokenOf::Star, r))
    } else if b == 0x2fu8 {
        Some((TokenOf::Slash, r))
    } else if b == 0x25u8 {
        Some((TokenOf::Percent, r))
    } else if b == 0x40u8 {
        Some((TokenOf::At, r))
    } else if b == 0x2du8 {
        if byte_is(src, r, 0x3eu8) {
            Some((TokenOf::Arrow, r + 1))
        } else {
            Some((TokenOf::Minus, r))
        }
    } else if b == 0x3du8 {
        if byte_is(src, r, 0x3du8) {
            Some((TokenOf::EqEq, r + 1))
        } else if byte_is(src, r, 0x3eu8) {
            Some((TokenOf::FatArrow, r + 1))
        } else {
            Some((TokenOf::Eq, r))
        }
    } else if b == 0x21u8 {
        if byte_is(src, r, 0x3du8) {
            Some((TokenOf::NotEq, r + 1))
        } else {
            Some((TokenOf::Not, r))
        }
    } else if b == 0x3cu8 {
        if byte_is(src, r, 0x3du8) {
            Some((TokenOf::LtEq, r + 1))
        } else {
            Some((TokenOf::Lt, r))
        }
    } else if b == 0x3eu8 {
        if byte_is(src, r, 0x3du8) {
            Some((TokenOf::GtEq, r + 1))
        } else {
            Some((TokenOf::Gt, r))
        }
    } else if b == 0x26u8 {
        if byte_is(src, r, 0x26u8) {
            Some((TokenOf::AndAnd, r + 1))
        } else {
            Some((TokenOf::Amp, r))
        }
    } else if b == 0x7cu8 && byte_is(src, r, 0x7cu8) {
        Some((TokenOf::OrOr, r + 1))
    } else if b == 0x2eu8 && byte_is(src, r, 0x2eu8) {
        Some((TokenOf::DotDot, r + 1))
    } else {
        None
    }
}

/// The token whose first byte is `src[s]`.
pub open spec fn scan_token(src: Seq<u8>, s: int) -> Scanned {
    let b = src[s];
    match scan_punct(src, s) {
        Some((t, e)) => Ok((t, e)),
        None => if b == 0x22u8 {
            scan_string(src, s + 1)
        } else if b == 0x27u8 {
            scan_char(src, s + 1)
        } else if is_digit(b) {
            scan_number(src, s)
        } else if is_alpha(b) || b == 0x5fu8 {
            Ok(scan_ident(src, s))
        } else {
            Err((s + 1, msg_unexpected_char(b)))
        },
    }
}

/// The next token after position `p`: `Ok(None)` at the end of input, else
/// the token with its start and end, or an error with the start, the
/// position reached, and the message. A bidirectional control character in
/// a comment, or where a token would start, is an error (Trojan Source),
/// checked before anything else is done at its position; inside a string
/// literal it is text. Errors come in source order: this is the first one
/// after `p`.
pub open spec fn next_token(src: Seq<u8>, p: int) -> Result<
    Option<(TokenView, int, int)>,
    (int, int, Seq<char>),
> {
    let s = skip_trivia(src, p);
    match trivia_bidi(src, p) {
        Some(q) => Err((q, q + 3, msg_bidi())),
        None => if s < 0 || s >= src.len() {
            Ok(None)
        } else if bidi_at(src, s) {
            Err((s, s + 3, msg_bidi()))
        } else {
            match scan_token(src, s) {
                Ok((t, e)) => Ok(Some((t, s, e))),
                Err((e, m)) => Err((s, e, m)),
            }
        },
    }
}

/// The tokens of `src` from position `p` on, each with its span, ending
/// with `Eof`; or the first error, with its span and message.
pub open spec fn lex_from(src: Seq<u8>, file_hash: u64, p: int) -> Result<
    Seq<(TokenView, SourceSpan)>,
    (SourceSpan, Seq<char>),
>
    decreases src.len() - p
    via lex_from_decreases
{
    match next_token(src, p) {
        Err((s, e, m)) => Err((span_of(src, file_hash, s, e), m)),
        Ok(None) => Ok(
            seq![(TokenOf::Eof, span_of(src, file_hash, src.len() as int, src.len() as int))],
        ),
        Ok(Some((t, s, e))) => match lex_from(src, file_hash, e) {
            Ok(rest) => Ok(seq![(t, span_of(src, file_hash, s, e))] + rest),
            Err(x) => Err(x),
        },
    }
}

/// The tokens of the whole source.
pub open spec fn lex(src: Seq<u8>, file_hash: u64) -> Result<
    Seq<(TokenView, SourceSpan)>,
    (SourceSpan, Seq<char>),
> {
    lex_from(src, file_hash, 0)
}

} // verus!

verus! {

/// The value of a prefix of a digit run is at most the value of the run.
pub proof fn lemma_decimal_prefix(t: Seq<u8>, i: int)
    requires
        0 <= i <= t.len(),
    ensures
        decimal_value(t.take(i)) <= decimal_value(t),
    decreases t.len(),
{
    if i < t.len() {
        lemma_decimal_prefix(t.drop_last(), i);
        assert(t.drop_last().take(i) =~= t.take(i));
    } else {
        assert(t.take(i) =~= t);
    }
}

} // verus!

verus! {

/// Skipping trivia moves forward and stays within the source.
pub proof fn lemma_skip_trivia_bounds(src: Seq<u8>, p: int)
    requires
        0 <= p <= src.len(),
    ensures
        p <= skip_trivia(src, p) <= src.len(),
    decreases src.len() - p, 0int,
{
    if p < src.len() {
        if is_ws(src[p]) {
            lemma_skip_trivia_bounds(src, p + 1);
        } else if byte_is(src, p, 0x2fu8) && byte_is(src, p + 1, 0x2fu8) {
            lemma_skip_comment_bounds(src, p + 2);
        }
    }
}

/// Skipping the rest of a comment moves forward and stays within the source.
pub proof fn lemma_skip_comment_bounds(src: Seq<u8>, p: int)
    requires
        0 <= p <= src.len(),
    ensures
        p <= skip_comment(src, p) <= src.len(),
    decreases src.len() - p, 1int,
{
    if p < src.len() {
        if src[p] == 0x0au8 {
            lemma_skip_trivia_bounds(src, p);
        } else {
            lemma_skip_comment_bounds(src, p + 1);
        }
    }
}

/// Identifier runs stay in the source, hold identifier bytes, and stop only
/// at the end of the source or at a byte that is not one.
pub proof fn lemma_ident_end(src: Seq<u8>, p: int)
    requires
        0 <= p <= src.len(),
    ensures
        p <= ident_end(src, p) <= src.len(),
        forall|k: int| p <= k < ident_end(src, p) ==> is_ident_byte(#[trigger] src[k]),
        ident_end(src, p) < src.len() ==> !is_ident_byte(src[ident_end(src, p)]),
    decreases src.len() - p,
{
    if p < src.len() && is_ident_byte(src[p]) {
        lemma_ident_end(src, p + 1);
    }
}

/// Digit runs stay in the source, hold digits, and stop only at the end of
/// the source or at a byte that is not a digit.
pub proof fn lemma_digits_end(src: Seq<u8>, p: int)
    requires
        0 <= p <= src.len(),
    ensures
        p <= digits_end(src, p) <= src.len(),
        forall|k: int| p <= k < digits_end(src, p) ==> is_digit(#[trigger] src[k]),
        digits_end(src, p) < src.len() ==> !is_digit(src[digits_end(src, p)]),
    decreases src.len() - p,
{
    if p < src.len() && is_digit(src[p]) {
        lemma_digits_end(src, p + 1);
    }
}

/// A string body that closes ends after it starts and within the source.
pub proof fn lemma_string_body_bounds(src: Seq<u8>, p: int, acc: Seq<u8>)
    requires
        0 <= p,
    ensures
        string_body(src, p, acc) matches Ok((_, e)) ==> p < e <= src.len(),
    decreases src.len() - p,
{
    if 0 <= p < src.len() && src[p] != 0x22u8 && src[p] != 0x0au8 {
        if src[p] == 0x5cu8 {
            if p + 1 < src.len() {
                match string_escape(src[p + 1]) {
                    Some(c) => lemma_string_body_bounds(src, p + 2, acc.push(c)),
                    None => {},
                }
            }
        } else {
            lemma_string_body_bounds(src, p + 1, acc.push(src[p]));
        }
    }
}


/// A scanned token ends after its first byte and within the source.
pub proof fn lemma_scan_token_advances(src: Seq<u8>, s: int)
    requires
        0 <= s < src.len(),
    ensures
        scan_token(src, s) matches Ok((_, e)) ==> s < e <= src.len(),
{
    let b = src[s];
    if scan_punct(src, s) is None {
        if b == 0x22u8 {
            lemma_string_body_bounds(src, s + 1, seq![]);
        } else if is_digit(b) {
            lemma_digits_end(src, s + 1);
            let p1 = digits_end(src, s + 1);
            if byte_is(src, p1, 0x2eu8) && 0 <= p1 + 1 < src.len() {
                lemma_digits_end(src, p1 + 1);
            }
        } else if is_alpha(b) || b == 0x5fu8 {
            lemma_ident_end(src, s + 1);
        }
    }
}

/// A token that `next_token` finds starts where the trivia after `p` end
/// and is non-empty and within the source; so lexing moves forward.
pub proof fn lemma_next_token_advances(src: Seq<u8>, p: int)
    ensures
        next_token(src, p) matches Ok(Some((_, s, e))) ==> {
            &&& s == skip_trivia(src, p)
            &&& p <= s < e <= src.len()
        },
{
    if 0 <= p <= src.len() {
        lemma_skip_trivia_bounds(src, p);
    }
    let s = skip_trivia(src, p);
    if 0 <= s < src.len() {
        lemma_scan_token_advances(src, s);
    }
}

#[via_fn]
proof fn lex_from_decreases(src: Seq<u8>, file_hash: u64, p: int) {
    lemma_next_token_advances(src, p);
}

} // verus!
