//! Lexical analysis: byte stream -> tokens.
//!
//! Per Chapter 3 (Trojan Source mitigation): Unicode bidirectional
//! control characters (U+202A, U+202B, U+202D, U+202E, U+2066-U+2069,
//! U+200F) outside string literal bytes are hard lexer errors, not
//! ignored: in a `//` comment, in a character literal and where a token
//! would start, the bidi check at a position comes before any other
//! tokenization of it (see `lex_laws`). Lexing reports the first error in
//! source order, so an error of another kind earlier in the source (say an
//! unexpected `#`) is the one reported; where a string literal ends is only
//! known by lexing up to it. [`contains_bidi_control`] locates bidi controls
//! anywhere in a source, string literals included.
//!
//! [`tokenize`] is specified by `lex_spec::lex`: its result is exactly the
//! token list (or first error) that the specification gives for the UTF-8
//! bytes of the source.

use vstd::prelude::*;
use vstd::string::*;
use vstd::utf8::*;
use crate::ParseError;
use crate::span::SourceSpan;
use crate::text::{ascii_string, byte_char_string, string_from_utf8};
pub use crate::token::{Token, TokenOf, TokenView};
pub use crate::bidi::{bidi_at, bidi_controls, char_offset, is_bidi_control};
use crate::bidi::{
    bidi_bytes_at, lemma_bidi_at_bytes, lemma_bidi_at_char, lemma_char_offset_increasing,
};
use crate::lex_spec::{
    bump_fits_at, byte_is, col_at, comment_bidi, counters_fit, decimal_value, digits_end,
    ident_end, is_alpha, is_digit, keyword_token, lemma_decimal_prefix, lemma_skip_trivia_bounds,
    lex, lex_from, line_at, msg_bidi, msg_unexpected_char, msg_unknown_escape, next_token,
    scan_char, scan_ident, scan_number, scan_punct, scan_string, skip_comment, skip_trivia,
    span_of, string_body, trivia_bidi, utf8_extra, Scanned,
};

verus! {

broadcast use crate::lex_spec::lemma_bump_fits;

/// How many continuation bytes follow this UTF-8 lead byte, i.e. how wide
/// (in bytes) the character starting here is, minus one. Needed because a
/// character literal must hold exactly one Unicode scalar value, which can
/// span 1-4 bytes.
fn utf8_extra_bytes(first_byte: u8) -> (r: Option<usize>)
    ensures
        r is None <==> utf8_extra(first_byte) is None,
        r matches Some(k) ==> utf8_extra(first_byte) == Some(k as int),
{
    if first_byte <= 0x7f {
        Some(0)
    } else if 0xc0 <= first_byte && first_byte <= 0xdf {
        Some(1)
    } else if 0xe0 <= first_byte && first_byte <= 0xef {
        Some(2)
    } else if 0xf0 <= first_byte && first_byte <= 0xf7 {
        Some(3)
    } else {
        None
    }
}

fn is_ascii_digit(b: u8) -> (r: bool)
    ensures
        r == is_digit(b),
{
    0x30 <= b && b <= 0x39
}

fn is_ascii_alphabetic(b: u8) -> (r: bool)
    ensures
        r == is_alpha(b),
{
    (0x61 <= b && b <= 0x7a) || (0x41 <= b && b <= 0x5a)
}

fn is_ascii_alphanumeric(b: u8) -> (r: bool)
    ensures
        r == (is_alpha(b) || is_digit(b)),
{
    is_ascii_alphabetic(b) || is_ascii_digit(b)
}

/// A `String` holding the text of a literal.
fn text_of(s: &str) -> (r: String)
    ensures
        r@ == s@,
{
    String::from_str(s)
}

/// A cursor over the UTF-8 bytes of a source, with the line and column of
/// the current position.
pub struct Lexer<'a> {
    source: &'a [u8],
    pos: usize,
    line: u32,
    col: u32,
    file_hash: u64,
}

/// The result of a scanning step agrees with its specification: the same
/// token and the lexer left just after it, or the same error with the span
/// from `s` to where it was found and the lexer left there.
pub open spec fn scanned_as(
    r: Result<Token, ParseError>,
    expected: Scanned,
    src: Seq<u8>,
    file_hash: u64,
    s: int,
    pos_after: int,
) -> bool {
    match (r, expected) {
        (Ok(t), Ok((tv, e))) => t@ == tv && pos_after == e,
        (Err(err), Err((e, m))) => err.span == span_of(src, file_hash, s, e) && err.message@ == m
            && pos_after == e,
        _ => false,
    }
}

impl<'a> Lexer<'a> {
    /// The source bytes being lexed.
    pub closed spec fn bytes(&self) -> Seq<u8> {
        self.source@
    }

    /// The byte position of the next unread byte.
    pub closed spec fn offset(&self) -> int {
        self.pos as int
    }

    /// The file hash stamped on every span.
    pub closed spec fn file(&self) -> u64 {
        self.file_hash
    }

    /// The position is within the source and the line and column counters
    /// are those of the position.
    pub closed spec fn wf(&self) -> bool {
        &&& self.source@.len() <= usize::MAX
        &&& self.pos <= self.source@.len()
        &&& self.line == line_at(self.source@, self.pos as int)
        &&& self.col == col_at(self.source@, self.pos as int)
    }

    pub fn new(source: &'a str, file_hash: u64) -> (l: Self)
        ensures
            l.wf(),
            l.bytes() == source.spec_bytes(),
            l.offset() == 0,
            l.file() == file_hash,
    {
        let bytes = source.as_bytes();
        // A slice's length is a usize.
        let _len = bytes.len();
        Self { source: bytes, pos: 0, line: 1, col: 1, file_hash }
    }

    //Current byte without consuming it.
    fn peek(&self) -> (r: Option<u8>)
        ensures
            self.pos < self.source@.len() ==> r == Some(self.source@[self.pos as int]),
            self.pos >= self.source@.len() ==> r is None,
    {
        if self.pos < self.source.len() {
            Some(self.source[self.pos])
        } else {
            None
        }
    }

    //Look further ahead than 'peek', without consuming anything
    //Needed for two-character operators like '->' and '=='
    fn peek_at(&self, offset: usize) -> (r: Option<u8>)
        requires
            self.pos + offset <= usize::MAX,
        ensures
            self.pos + offset < self.source@.len() ==> r == Some(
                self.source@[self.pos + offset],
            ),
            self.pos + offset >= self.source@.len() ==> r is None,
    {
        let i = self.pos + offset;
        if i < self.source.len() {
            Some(self.source[i])
        } else {
            None
        }
    }

    /// The counter that consuming the current byte bumps (the line for a
    /// newline, else the column) is below `u32::MAX`.
    spec fn bump_fits(&self) -> bool {
        bump_fits_at(self.source@, self.pos as int, self.line as int, self.col as int)
    }

    //Consume and return the current byte, advancing line/col bookkeeping
    fn advance(&mut self) -> (r: Option<u8>)
        requires
            old(self).wf(),
            old(self).bump_fits(),
        ensures
            final(self).wf(),
            final(self).source == old(self).source,
            final(self).file_hash == old(self).file_hash,
            old(self).pos < old(self).source@.len() ==> {
                &&& r == Some(old(self).source@[old(self).pos as int])
                &&& final(self).pos == old(self).pos + 1
                &&& if old(self).source@[old(self).pos as int] == 0x0au8 {
                    final(self).line == old(self).line + 1 && final(self).col == 1
                } else {
                    final(self).line == old(self).line && final(self).col == old(self).col + 1
                }
            },
            old(self).pos >= old(self).source@.len() ==> {
                &&& r is None
                &&& final(self).pos == old(self).pos
                &&& final(self).line == old(self).line
                &&& final(self).col == old(self).col
            },
    {
        let b = match self.peek() {
            Some(b) => b,
            None => return None,
        };
        self.pos += 1;
        if b == 0x0a {
            self.line += 1;
            self.col = 1;
        } else {
            self.col += 1;
        }
        Some(b)
    }

    ///Skips spaces, tabs, newlines, and '//' line comments. Loops because
    ///a comment can be followed by more whitespaces, which can be followed
    ///by another comment, etc. - This has to fully settle before the next
    ///real token starts. A bidirectional control character in a comment is
    ///an error (Trojan Source), found before the comment is passed.
    fn skip_whitespace_and_comments(&mut self) -> (r: Result<(), ParseError>)
        requires
            old(self).wf(),
            counters_fit(old(self).source@),
        ensures
            final(self).wf(),
            final(self).source == old(self).source,
            final(self).file_hash == old(self).file_hash,
            match trivia_bidi(old(self).source@, old(self).pos as int) {
                None => r is Ok && final(self).pos == skip_trivia(
                    old(self).source@,
                    old(self).pos as int,
                ),
                Some(q) => r matches Err(e) && e.span == span_of(
                    old(self).source@,
                    old(self).file_hash,
                    q,
                    q + 3,
                ) && e.message@ == msg_bidi() && final(self).pos == q + 3,
            },
    {
        let ghost src = self.source@;
        let ghost s0 = self.source;
        let ghost fh = self.file_hash;
        let ghost target = skip_trivia(src, self.pos as int);
        let ghost target_b = trivia_bidi(src, self.pos as int);
        loop
            invariant_except_break
                self.wf(),
                self.source == s0,
                self.file_hash == fh,
                self.source@ == src,
                s0 == old(self).source,
                fh == old(self).file_hash,
                src == old(self).source@,
                counters_fit(src),
                target == skip_trivia(src, old(self).pos as int),
                target_b == trivia_bidi(src, old(self).pos as int),
                skip_trivia(src, self.pos as int) == target,
                trivia_bidi(src, self.pos as int) == target_b,
            ensures
                self.wf(),
                self.source == s0,
                self.file_hash == fh,
                self.pos == target,
                target_b is None,
            decreases src.len() - self.pos,
        {
            let ghost before = self.pos;
            match self.peek() {
                Some(b) => {
                    if b == 0x20 || b == 0x09 || b == 0x0a || b == 0x0d {
                        self.advance();
                    } else if b == 0x2f && self.peek_at(1) == Some(0x2f) {
                        self.advance();
                        self.advance();
                        loop
                            invariant_except_break
                                self.wf(),
                                self.source == s0,
                                self.file_hash == fh,
                                self.source@ == src,
                                s0 == old(self).source,
                                fh == old(self).file_hash,
                                src == old(self).source@,
                                counters_fit(src),
                                target_b == trivia_bidi(src, old(self).pos as int),
                                skip_comment(src, self.pos as int) == target,
                                comment_bidi(src, self.pos as int) == target_b,
                                self.pos > before,
                            ensures
                                self.pos > before,
                                self.wf(),
                                self.source == s0,
                                self.file_hash == fh,
                                self.source@ == src,
                                skip_trivia(src, self.pos as int) == target,
                                trivia_bidi(src, self.pos as int) == target_b,
                            decreases src.len() - self.pos,
                        {
                            match self.peek() {
                                Some(c) => {
                                    if c == 0x0a {
                                        break;
                                    }
                                    if self.source.len() - self.pos >= 3 && bidi_bytes_at(
                                        self.source,
                                        self.pos,
                                    ) {
                                        return Err(self.bidi_error());
                                    }
                                    self.advance();
                                },
                                None => break,
                            }
                        }
                    } else {
                        break;
                    }
                },
                None => break,
            }
        }
        Ok(())
    }

    /// The error for the bidirectional control character at the current
    /// position; the lexer is left after it.
    fn bidi_error(&mut self) -> (e: ParseError)
        requires
            old(self).wf(),
            counters_fit(old(self).source@),
            bidi_at(old(self).source@, old(self).pos as int),
        ensures
            final(self).wf(),
            final(self).source == old(self).source,
            final(self).file_hash == old(self).file_hash,
            final(self).pos == old(self).pos + 3,
            e.span == span_of(
                old(self).source@,
                old(self).file_hash,
                old(self).pos as int,
                old(self).pos + 3,
            ),
            e.message@ == msg_bidi(),
    {
        proof {
            lemma_bidi_at_bytes(self.source@, self.pos as int);
        }
        let start_line = self.line;
        let start_col = self.col;
        let start_offset = self.pos;
        self.advance();
        self.advance();
        self.advance();
        ParseError {
            span: self.make_span(start_line, start_col, start_offset),
            message: text_of("Unicode bidirectional control character outside a string literal"),
        }
    }

    ///Builds a SourceSpan from a token's starting position to the lexer's
    ///current position (i.e. one past the token's last byte).
    fn make_span(&self, start_line: u32, start_col: u32, start_offset: usize) -> (r: SourceSpan)
        requires
            start_offset <= self.pos,
        ensures
            r == (SourceSpan {
                file_hash: self.file_hash,
                line: start_line,
                col: start_col,
                byte_offset: start_offset as u32,
                length: (self.pos - start_offset) as u32,
            }),
            start_line == line_at(self.source@, start_offset as int) && start_col == col_at(
                self.source@,
                start_offset as int,
            ) ==> r == span_of(self.source@, self.file_hash, start_offset as int, self.pos as int),
    {
        SourceSpan {
            file_hash: self.file_hash,
            line: start_line,
            col: start_col,
            byte_offset: start_offset as u32,
            length: (self.pos - start_offset) as u32,
        }
    }
}


/// The keyword, boolean literal or `_` spelled by `src[start..end]`.
fn keyword(src: &[u8], start: usize, end: usize) -> (r: Option<Token>)
    requires
        start <= end <= src@.len(),
    ensures
        r is None <==> keyword_token(src@.subrange(start as int, end as int)) is None,
        r matches Some(k) ==> keyword_token(src@.subrange(start as int, end as int)) == Some(k@),
{
    let ghost t = src@.subrange(start as int, end as int);
    let n = end - start;
    let s = start;
    if n == 2 && src[s] == 0x66 && src[s + 1] == 0x6e {
        Some(TokenOf::Fn)
    } else if n == 3 && src[s] == 0x6c && src[s + 1] == 0x65 && src[s + 2] == 0x74 {
        Some(TokenOf::Let)
    } else if n == 3 && src[s] == 0x6d && src[s + 1] == 0x75 && src[s + 2] == 0x74 {
        Some(TokenOf::Mut)
    } else if n == 2 && src[s] == 0x69 && src[s + 1] == 0x66 {
        Some(TokenOf::If)
    } else if n == 4 && src[s] == 0x65 && src[s + 1] == 0x6c && src[s + 2] == 0x73 && src[s + 3]
        == 0x65 {
        Some(TokenOf::Else)
    } else if n == 4 && src[s] == 0x6c && src[s + 1] == 0x6f && src[s + 2] == 0x6f && src[s + 3]
        == 0x70 {
        Some(TokenOf::Loop)
    } else if n == 3 && src[s] == 0x66 && src[s + 1] == 0x6f && src[s + 2] == 0x72 {
        Some(TokenOf::For)
    } else if n == 8 && src[s] == 0x70 && src[s + 1] == 0x61 && src[s + 2] == 0x72 && src[s + 3]
        == 0x61 && src[s + 4] == 0x6c && src[s + 5] == 0x6c && src[s + 6] == 0x65 && src[s + 7]
        == 0x6c {
        Some(TokenOf::Parallel)
    } else if n == 5 && src[s] == 0x6d && src[s + 1] == 0x61 && src[s + 2] == 0x74 && src[s + 3]
        == 0x63 && src[s + 4] == 0x68 {
        Some(TokenOf::Match)
    } else if n == 6 && src[s] == 0x72 && src[s + 1] == 0x65 && src[s + 2] == 0x74 && src[s + 3]
        == 0x75 && src[s + 4] == 0x72 && src[s + 5] == 0x6e {
        Some(TokenOf::Return)
    } else if n == 4 && src[s] == 0x74 && src[s + 1] == 0x72 && src[s + 2] == 0x75 && src[s + 3]
        == 0x65 {
        Some(TokenOf::BoolLit(true))
    } else if n == 5 && src[s] == 0x66 && src[s + 1] == 0x61 && src[s + 2] == 0x6c && src[s + 3]
        == 0x73 && src[s + 4] == 0x65 {
        Some(TokenOf::BoolLit(false))
    } else if n == 1 && src[s] == 0x5f {
        Some(TokenOf::Underscore)
    } else {
        None
    }
}

impl<'a> Lexer<'a> {
    ///Scans an identifier or keyword. The first character was already
    ///consumed by 'advance()' in 'next_token'; this reads the rest
    fn scan_identifier_or_keyword(&mut self, start_offset: usize) -> (r: Token)
        requires
            old(self).wf(),
            counters_fit(old(self).source@),
            start_offset + 1 == old(self).pos,
            is_alpha(old(self).source@[start_offset as int]) || old(self).source@[start_offset as int]
                == 0x5f,
        ensures
            final(self).wf(),
            final(self).source == old(self).source,
            final(self).file_hash == old(self).file_hash,
            old(self).pos <= final(self).pos,
            (r@, final(self).pos as int) == scan_ident(old(self).source@, start_offset as int),
    {
        let ghost src = self.source@;
        let ghost s0 = self.source;
        let ghost fh = self.file_hash;
        loop
            invariant_except_break
                self.wf(),
                self.source == s0,
                self.file_hash == fh,
                self.source@ == src,
                counters_fit(src),
                start_offset < self.pos,
                ident_end(src, self.pos as int) == ident_end(src, start_offset + 1),
                forall|i: int| start_offset <= i < self.pos ==> #[trigger] src[i] < 0x80,
            ensures
                self.wf(),
                self.source == s0,
                self.file_hash == fh,
                start_offset < self.pos,
                self.pos == ident_end(src, start_offset + 1),
                forall|i: int| start_offset <= i < self.pos ==> #[trigger] src[i] < 0x80,
            decreases src.len() - self.pos,
        {
            match self.peek() {
                Some(b) => {
                    if is_ascii_alphanumeric(b) || b == 0x5f {
                        self.advance();
                    } else {
                        break;
                    }
                },
                None => break,
            }
        }
        proof {
            let t = src.subrange(start_offset as int, self.pos as int);
            assert forall|i: int| 0 <= i < t.len() implies #[trigger] t[i] < 0x80 by {
                assert(t[i] == src[start_offset + i]);
            }
        }
        match keyword(self.source, start_offset, self.pos) {
            Some(k) => k,
            None => TokenOf::Ident(ascii_string(self.source, start_offset, self.pos)),
        }
    }

    /// Advances over a run of decimal digits.
    fn skip_digits(&mut self)
        requires
            old(self).wf(),
            counters_fit(old(self).source@),
        ensures
            final(self).wf(),
            final(self).source == old(self).source,
            final(self).file_hash == old(self).file_hash,
            final(self).pos == digits_end(old(self).source@, old(self).pos as int),
            old(self).pos <= final(self).pos,
            forall|i: int|
                old(self).pos <= i < final(self).pos ==> is_digit(#[trigger] old(self).source@[i]),
    {
        let ghost src = self.source@;
        let ghost s0 = self.source;
        let ghost fh = self.file_hash;
        let ghost p0 = self.pos as int;
        loop
            invariant_except_break
                self.wf(),
                self.source == s0,
                self.file_hash == fh,
                self.source@ == src,
                counters_fit(src),
                p0 <= self.pos,
                digits_end(src, self.pos as int) == digits_end(src, p0),
                forall|i: int| p0 <= i < self.pos ==> is_digit(#[trigger] src[i]),
            ensures
                self.wf(),
                self.source == s0,
                self.file_hash == fh,
                self.pos == digits_end(src, p0),
                p0 <= self.pos,
                forall|i: int| p0 <= i < self.pos ==> is_digit(#[trigger] src[i]),
            decreases src.len() - self.pos,
        {
            match self.peek() {
                Some(b) => {
                    if is_ascii_digit(b) {
                        self.advance();
                    } else {
                        break;
                    }
                },
                None => break,
            }
        }
    }

    /// The error for the bytes from `start_offset` to the current position.
    fn error_here(&self, start_line: u32, start_col: u32, start_offset: usize, message: String) -> (r:
        ParseError)
        requires
            start_offset <= self.pos,
            start_line == line_at(self.source@, start_offset as int),
            start_col == col_at(self.source@, start_offset as int),
        ensures
            r.span == span_of(self.source@, self.file_hash, start_offset as int, self.pos as int),
            r.message@ == message@,
    {
        ParseError { span: self.make_span(start_line, start_col, start_offset), message }
    }

    ///Scans an integer or float literal. The first digit was already
    ///consumed by 'advance()' in 'next_token'
    fn scan_number(&mut self, start_line: u32, start_col: u32, start_offset: usize) -> (r: Result<
        Token,
        ParseError,
    >)
        requires
            old(self).wf(),
            counters_fit(old(self).source@),
            start_offset + 1 == old(self).pos,
            is_digit(old(self).source@[start_offset as int]),
            start_line == line_at(old(self).source@, start_offset as int),
            start_col == col_at(old(self).source@, start_offset as int),
        ensures
            final(self).wf(),
            final(self).source == old(self).source,
            final(self).file_hash == old(self).file_hash,
            r is Ok ==> old(self).pos <= final(self).pos,
            scanned_as(
                r,
                scan_number(old(self).source@, start_offset as int),
                old(self).source@,
                old(self).file_hash,
                start_offset as int,
                final(self).pos as int,
            ),
    {
        let ghost src = self.source@;
        let s = start_offset;
        self.skip_digits();
        let p1 = self.pos;
        let mut is_float = false;
        if self.peek() == Some(0x2e) {
            match self.peek_at(1) {
                Some(c) => {
                    if is_ascii_digit(c) {
                        is_float = true;
                        self.advance();
                        self.skip_digits();
                    }
                },
                None => {},
            }
        }
        proof {
            assert(self.source@ == src);
            assert(s < self.pos <= src.len());
            assert(forall|i: int| s <= i < self.pos ==> is_digit(#[trigger] src[i]) || src[i] == 0x2e);
            let t = src.subrange(s as int, self.pos as int);
            assert forall|i: int| 0 <= i < t.len() implies #[trigger] t[i] < 0x80 by {
                assert(t[i] == src[s + i]);
            }
        }
        if is_float {
            return Ok(TokenOf::FloatLit(ascii_string(self.source, s, self.pos)));
        }
        let ghost text = src.subrange(s as int, p1 as int);
        let ghost s0 = self.source;
        let ghost fh = self.file_hash;
        let mut v: i64 = 0;
        let mut i = s;
        while i < p1
            invariant
                self.wf(),
                self.source == s0,
                self.file_hash == fh,
                s0 == old(self).source,
                fh == old(self).file_hash,
                self.source@ == src,
                start_line == line_at(src, start_offset as int),
                start_col == col_at(src, start_offset as int),
                s == start_offset,
                p1 == digits_end(src, s + 1),
                !(byte_is(src, p1 as int, 0x2eu8) && 0 <= p1 + 1 < src.len() && is_digit(
                    src[p1 + 1],
                )),
                s <= i <= p1 <= src.len(),
                p1 == self.pos,
                text == src.subrange(s as int, p1 as int),
                forall|k: int| s <= k < p1 ==> is_digit(#[trigger] src[k]),
                v == decimal_value(src.subrange(s as int, i as int)),
            decreases p1 - i,
        {
            let d = (self.source[i] - 0x30) as i64;
            proof {
                assert(is_digit(src[i as int]));
                let u = src.subrange(s as int, i + 1);
                assert(u.drop_last() =~= src.subrange(s as int, i as int));
                assert(u.last() == src[i as int]);
                assert(decimal_value(u) == v * 10 + d);
            }
            let next = match v.checked_mul(10) {
                Some(m) => m.checked_add(d),
                None => None,
            };
            match next {
                Some(x) => {
                    v = x;
                },
                None => {
                    proof {
                        assert(src.subrange(s as int, i + 1) =~= text.take(i + 1 - s));
                        lemma_decimal_prefix(text, i + 1 - s);
                    }
                    let mut m = text_of("integer literal '");
                    let digits = ascii_string(self.source, s, p1);
                    m.append(digits.as_str());
                    m.append("' out of range");
                    return Err(self.error_here(start_line, start_col, start_offset, m));
                },
            }
            i = i + 1;
        }
        proof {
            assert(src.subrange(s as int, i as int) =~= text);
        }
        Ok(TokenOf::IntLit(v))
    }
}


/// The message for an unknown escape `\\e`.
fn unknown_escape_message(e: u8) -> (m: String)
    ensures
        m@ == msg_unknown_escape(e),
{
    let mut m = text_of("unknown escape sequence '\\");
    let c = byte_char_string(e);
    m.append(c.as_str());
    m.append("'");
    m
}

/// The message for a byte that starts no token.
fn unexpected_char_message(b: u8) -> (m: String)
    ensures
        m@ == msg_unexpected_char(b),
{
    let mut m = text_of("unexpected character '");
    let c = byte_char_string(b);
    m.append(c.as_str());
    m.append("'");
    m
}

impl<'a> Lexer<'a> {
    /// Scans a string literal. The opening '"' was already consumed by
    /// `advance()` in `next_token`. Decodes escapes as it goes, rather
    /// than storing the raw source bytes, so `\n` in the literal becomes
    /// an actual newline byte in the resulting Token, not two characters.
    fn scan_string(&mut self, start_line: u32, start_col: u32, start_offset: usize) -> (r: Result<
        Token,
        ParseError,
    >)
        requires
            old(self).wf(),
            counters_fit(old(self).source@),
            start_offset + 1 == old(self).pos,
            start_line == line_at(old(self).source@, start_offset as int),
            start_col == col_at(old(self).source@, start_offset as int),
        ensures
            final(self).wf(),
            final(self).source == old(self).source,
            final(self).file_hash == old(self).file_hash,
            r is Ok ==> old(self).pos <= final(self).pos,
            scanned_as(
                r,
                scan_string(old(self).source@, start_offset + 1),
                old(self).source@,
                old(self).file_hash,
                start_offset as int,
                final(self).pos as int,
            ),
    {
        let ghost src = self.source@;
        let ghost target = string_body(src, start_offset + 1, seq![]);
        let mut bytes: Vec<u8> = Vec::new();
        loop
            invariant_except_break
                self.wf(),
                self.source == old(self).source,
                self.file_hash == old(self).file_hash,
                self.source@ == src,
                counters_fit(src),
                start_line == line_at(src, start_offset as int),
                start_col == col_at(src, start_offset as int),
                start_offset < self.pos,
                target == string_body(src, start_offset + 1, seq![]),
                string_body(src, self.pos as int, bytes@) == target,
            ensures
                self.wf(),
                self.source == old(self).source,
                self.file_hash == old(self).file_hash,
                start_offset < self.pos,
                start_line == line_at(src, start_offset as int),
                start_col == col_at(src, start_offset as int),
                target == Ok::<(Seq<u8>, int), (int, Seq<char>)>((bytes@, self.pos as int)),
            decreases src.len() - self.pos,
        {
            match self.advance() {
                None => {
                    return Err(
                        self.error_here(
                            start_line,
                            start_col,
                            start_offset,
                            text_of("unterminated string literal"),
                        ),
                    );
                },
                Some(b) => {
                    if b == 0x22 {
                        break ;
                    } else if b == 0x0a {
                        return Err(
                            self.error_here(
                                start_line,
                                start_col,
                                start_offset,
                                text_of("unterminated string literal (raw newline — use \\n)"),
                            ),
                        );
                    } else if b == 0x5c {
                        match self.advance() {
                            None => {
                                return Err(
                                    self.error_here(
                                        start_line,
                                        start_col,
                                        start_offset,
                                        text_of("unterminated escape sequence in string literal"),
                                    ),
                                );
                            },
                            Some(escaped) => {
                                let c: u8 = if escaped == 0x6e {
                                    0x0a
                                } else if escaped == 0x74 {
                                    0x09
                                } else if escaped == 0x72 {
                                    0x0d
                                } else if escaped == 0x30 {
                                    0
                                } else if escaped == 0x5c {
                                    0x5c
                                } else if escaped == 0x22 {
                                    0x22
                                } else {
                                    return Err(
                                        self.error_here(
                                            start_line,
                                            start_col,
                                            start_offset,
                                            unknown_escape_message(escaped),
                                        ),
                                    );
                                };
                                bytes.push(c);
                            },
                        }
                    } else {
                        bytes.push(b);
                    }
                },
            }
        }
        match string_from_utf8(bytes) {
            Some(value) => Ok(TokenOf::StringLit(value)),
            None => Err(
                self.error_here(
                    start_line,
                    start_col,
                    start_offset,
                    text_of("string literal is not valid UTF-8"),
                ),
            ),
        }
    }

    /// Builds the "unterminated character literal" error.
    fn unterminated_char(&self, start_line: u32, start_col: u32, start_offset: usize) -> (r:
        ParseError)
        requires
            start_offset <= self.pos,
        ensures
            r.span == (SourceSpan {
                file_hash: self.file_hash,
                line: start_line,
                col: start_col,
                byte_offset: start_offset as u32,
                length: (self.pos - start_offset) as u32,
            }),
            start_line == line_at(self.source@, start_offset as int) && start_col == col_at(
                self.source@,
                start_offset as int,
            ) ==> r.span == span_of(
                self.source@,
                self.file_hash,
                start_offset as int,
                self.pos as int,
            ),
            r.message@ == "unterminated character literal"@,
    {
        ParseError {
            span: self.make_span(start_line, start_col, start_offset),
            message: text_of("unterminated character literal"),
        }
    }

    fn scan_char(&mut self, start_line: u32, start_col: u32, start_offset: usize) -> (r: Result<
        Token,
        ParseError,
    >)
        requires
            old(self).wf(),
            counters_fit(old(self).source@),
            start_offset + 1 == old(self).pos,
            start_line == line_at(old(self).source@, start_offset as int),
            start_col == col_at(old(self).source@, start_offset as int),
        ensures
            final(self).wf(),
            final(self).source == old(self).source,
            final(self).file_hash == old(self).file_hash,
            r is Ok ==> old(self).pos <= final(self).pos,
            scanned_as(
                r,
                scan_char(old(self).source@, start_offset + 1),
                old(self).source@,
                old(self).file_hash,
                start_offset as int,
                final(self).pos as int,
            ),
    {
        let ghost src = self.source@;
        let ghost p = self.pos as int;
        let ch: char = match self.advance() {
            None => return Err(self.unterminated_char(start_line, start_col, start_offset)),
            Some(b) => {
                if b == 0x27 {
                    return Err(
                        self.error_here(
                            start_line,
                            start_col,
                            start_offset,
                            text_of("empty character literal"),
                        ),
                    );
                } else if b == 0x5c {
                    match self.advance() {
                        None => return Err(
                            self.unterminated_char(start_line, start_col, start_offset),
                        ),
                        Some(escaped) => {
                            if escaped == 0x6e {
                                '\n'
                            } else if escaped == 0x74 {
                                '\t'
                            } else if escaped == 0x72 {
                                '\r'
                            } else if escaped == 0x30 {
                                '\0'
                            } else if escaped == 0x5c {
                                '\\'
                            } else if escaped == 0x27 {
                                '\''
                            } else {
                                return Err(
                                    self.error_here(
                                        start_line,
                                        start_col,
                                        start_offset,
                                        unknown_escape_message(escaped),
                                    ),
                                );
                            }
                        },
                    }
                } else {
                    let extra = match utf8_extra_bytes(b) {
                        Some(k) => k,
                        None => {
                            return Err(
                                self.error_here(
                                    start_line,
                                    start_col,
                                    start_offset,
                                    text_of("invalid UTF-8 lead byte in character literal"),
                                ),
                            );
                        },
                    };
                    let p_exec = start_offset + 1;
                    let mut buf: Vec<u8> = Vec::new();
                    buf.push(b);
                    let mut i: usize = 0;
                    while i < extra
                        invariant
                            self.wf(),
                            self.source == old(self).source,
                            self.file_hash == old(self).file_hash,
                            self.source@ == src,
                            counters_fit(src),
                            start_line == line_at(src, start_offset as int),
                            start_col == col_at(src, start_offset as int),
                            start_offset + 1 == p,
                            0 <= i <= extra <= 3,
                            self.pos == p + 1 + i,
                            p < src.len(),
                            p + 1 + extra > src.len() ==> scan_char(src, p) == Err::<
                                (TokenView, int),
                                (int, Seq<char>),
                            >((src.len() as int, "unterminated character literal"@)),
                            buf@ == src.subrange(p, self.pos as int),
                        decreases extra - i,
                    {
                        match self.advance() {
                            Some(x) => {
                                buf.push(x);
                                proof {
                                    assert(buf@ =~= src.subrange(p, self.pos as int));
                                }
                            },
                            None => {
                                return Err(
                                    self.unterminated_char(start_line, start_col, start_offset),
                                );
                            },
                        }
                        i = i + 1;
                    }
                    if extra == 2 && bidi_bytes_at(self.source, p_exec) {
                        return Err(
                            self.error_here(
                                start_line,
                                start_col,
                                start_offset,
                                text_of(
                                    "Unicode bidirectional control character outside a string literal",
                                ),
                            ),
                        );
                    }
                    proof {
                        if bidi_at(src, p) {
                            lemma_bidi_at_bytes(src, p);
                        }
                    }
                    match string_from_utf8(buf) {
                        Some(st) => {
                            proof {
                                assert(st@.len() > 0);
                            }
                            st.as_str().get_char(0)
                        },
                        None => {
                            return Err(
                                self.error_here(
                                    start_line,
                                    start_col,
                                    start_offset,
                                    text_of("invalid UTF-8 in character literal"),
                                ),
                            );
                        },
                    }
                }
            },
        };
        let q = self.pos;
        match self.advance() {
            Some(c) => {
                if c == 0x27 {
                    return Ok(TokenOf::CharLit(ch));
                }
            },
            None => {},
        }
        Err(
            self.error_here(
                start_line,
                start_col,
                start_offset,
                text_of("character literal must contain exactly one character"),
            ),
        )
    }
}


/// The result of `next_token` agrees with its specification: end of input
/// with the lexer at the end, the same token with its span and the lexer just
/// after it, or the same error with its span and the lexer at its end.
pub open spec fn next_token_as(
    r: Result<Option<(Token, SourceSpan)>, ParseError>,
    expected: Result<Option<(TokenView, int, int)>, (int, int, Seq<char>)>,
    src: Seq<u8>,
    file_hash: u64,
    pos_after: int,
) -> bool {
    match (r, expected) {
        (Ok(None), Ok(None)) => pos_after == src.len(),
        (Ok(Some((t, sp))), Ok(Some((tv, s, e)))) => t@ == tv && sp == span_of(src, file_hash, s, e)
            && pos_after == e,
        (Err(err), Err((s, e, m))) => err.span == span_of(src, file_hash, s, e) && err.message@
            == m && pos_after == e,
        _ => false,
    }
}

impl<'a> Lexer<'a> {
    /// The operator or delimiter that starts with `b`, already consumed,
    /// taking its second byte when it has one.
    fn scan_operator(&mut self, b: u8) -> (r: Option<Token>)
        requires
            old(self).wf(),
            counters_fit(old(self).source@),
            0 < old(self).pos,
            old(self).source@[old(self).pos - 1] == b,
        ensures
            final(self).wf(),
            final(self).source == old(self).source,
            final(self).file_hash == old(self).file_hash,
            old(self).pos <= final(self).pos,
            match scan_punct(old(self).source@, old(self).pos - 1) {
                Some((t, e)) => r matches Some(tok) && tok@ == t && final(self).pos == e,
                None => r is None && final(self).pos == old(self).pos,
            },
    {
        if b == 0x28 {
            Some(TokenOf::LParen)
        } else if b == 0x29 {
            Some(TokenOf::RParen)
        } else if b == 0x7b {
            Some(TokenOf::LBrace)
        } else if b == 0x7d {
            Some(TokenOf::RBrace)
        } else if b == 0x5b {
            Some(TokenOf::LBracket)
        } else if b == 0x5d {
            Some(TokenOf::RBracket)
        } else if b == 0x2c {
            Some(TokenOf::Comma)
        } else if b == 0x3b {
            Some(TokenOf::Semicolon)
        } else if b == 0x3a {
            Some(TokenOf::Colon)
        } else if b == 0x2b {
            Some(TokenOf::Plus)
        } else if b == 0x2a {
            Some(TokenOf::Star)
        } else if b == 0x2f {
            Some(TokenOf::Slash)
        } else if b == 0x25 {
            Some(TokenOf::Percent)
        } else if b == 0x40 {
            Some(TokenOf::At)
        } else if b == 0x2d {
            if self.peek() == Some(0x3e) {
                self.advance();
                Some(TokenOf::Arrow)
            } else {
                Some(TokenOf::Minus)
            }
        } else if b == 0x3d {
            if self.peek() == Some(0x3d) {
                self.advance();
                Some(TokenOf::EqEq)
            } else if self.peek() == Some(0x3e) {
                self.advance();
                Some(TokenOf::FatArrow)
            } else {
                Some(TokenOf::Eq)
            }
        } else if b == 0x21 {
            if self.peek() == Some(0x3d) {
                self.advance();
                Some(TokenOf::NotEq)
            } else {
                Some(TokenOf::Not)
            }
        } else if b == 0x3c {
            if self.peek() == Some(0x3d) {
                self.advance();
                Some(TokenOf::LtEq)
            } else {
                Some(TokenOf::Lt)
            }
        } else if b == 0x3e {
            if self.peek() == Some(0x3d) {
                self.advance();
                Some(TokenOf::GtEq)
            } else {
                Some(TokenOf::Gt)
            }
        } else if b == 0x26 {
            if self.peek() == Some(0x26) {
                self.advance();
                Some(TokenOf::AndAnd)
            } else {
                Some(TokenOf::Amp)
            }
        } else if b == 0x7c && self.peek() == Some(0x7c) {
            self.advance();
            Some(TokenOf::OrOr)
        } else if b == 0x2e && self.peek() == Some(0x2e) {
            self.advance();
            Some(TokenOf::DotDot)
        } else {
            None
        }
    }

    ///Produces the next token, or none at the end of input: One dispatch on
    ///the current byte, with one-byte lookahead for the two-character operators
    fn next_token(&mut self) -> (r: Result<Option<(Token, SourceSpan)>, ParseError>)
        requires
            old(self).wf(),
            counters_fit(old(self).source@),
        ensures
            final(self).wf(),
            final(self).source == old(self).source,
            final(self).file_hash == old(self).file_hash,
            next_token_as(
                r,
                next_token(old(self).source@, old(self).pos as int),
                old(self).source@,
                old(self).file_hash,
                final(self).pos as int,
            ),
            r matches Ok(Some(_)) ==> old(self).pos < final(self).pos,
    {
        let ghost src = self.source@;
        match self.skip_whitespace_and_comments() {
            Ok(()) => {},
            Err(e) => return Err(e),
        }
        proof {
            lemma_skip_trivia_bounds(src, old(self).pos as int);
        }
        if self.source.len() - self.pos >= 3 && bidi_bytes_at(self.source, self.pos) {
            return Err(self.bidi_error());
        }
        let start_line = self.line;
        let start_col = self.col;
        let start_offset = self.pos;
        let b = match self.advance() {
            None => return Ok(None),
            Some(b) => b,
        };
        let kind = match self.scan_operator(b) {
            Some(t) => t,
            None => {
                if b == 0x22 {
                    match self.scan_string(start_line, start_col, start_offset) {
                        Ok(t) => t,
                        Err(e) => return Err(e),
                    }
                } else if b == 0x27 {
                    match self.scan_char(start_line, start_col, start_offset) {
                        Ok(t) => t,
                        Err(e) => return Err(e),
                    }
                } else if is_ascii_digit(b) {
                    match self.scan_number(start_line, start_col, start_offset) {
                        Ok(t) => t,
                        Err(e) => return Err(e),
                    }
                } else if is_ascii_alphabetic(b) || b == 0x5f {
                    self.scan_identifier_or_keyword(start_offset)
                } else {
                    return Err(
                        self.error_here(
                            start_line,
                            start_col,
                            start_offset,
                            unexpected_char_message(b),
                        ),
                    );
                }
            },
        };
        Ok(Some((kind, self.make_span(start_line, start_col, start_offset))))
    }
}


/// The model of a token list: each token by its view, with its span.
pub open spec fn tokens_view(v: Seq<(Token, SourceSpan)>) -> Seq<(TokenView, SourceSpan)> {
    v.map_values(|p: (Token, SourceSpan)| (p.0@, p.1))
}

/// The model of the result of [`tokenize`].
pub open spec fn lex_result_view(r: Result<Vec<(Token, SourceSpan)>, ParseError>) -> Result<
    Seq<(TokenView, SourceSpan)>,
    (SourceSpan, Seq<char>),
> {
    match r {
        Ok(v) => Ok(tokens_view(v@)),
        Err(e) => Err((e.span, e.message@)),
    }
}

/// `done` followed by whatever `rest` lexes to.
pub open spec fn after_tokens(
    done: Seq<(TokenView, SourceSpan)>,
    rest: Result<Seq<(TokenView, SourceSpan)>, (SourceSpan, Seq<char>)>,
) -> Result<Seq<(TokenView, SourceSpan)>, (SourceSpan, Seq<char>)> {
    match rest {
        Ok(ts) => Ok(done + ts),
        Err(x) => Err(x),
    }
}

/// Splits `source` into tokens, each with its span, ending with `Eof`; or
/// the first lexical error. The line and column counters must not overflow
/// on the source (they would panic).
pub fn tokenize(source: &str, file_hash: u64) -> (r: Result<Vec<(Token, SourceSpan)>, ParseError>)
    requires
        counters_fit(source.spec_bytes()),
    ensures
        lex_result_view(r) == lex(source.spec_bytes(), file_hash),
{
    let ghost src = source.spec_bytes();
    let mut lexer = Lexer::new(source, file_hash);
    let mut tokens: Vec<(Token, SourceSpan)> = Vec::new();
    proof {
        assert(tokens_view(tokens@) =~= Seq::<(TokenView, SourceSpan)>::empty());
        assert(lex_from(src, file_hash, 0) == after_tokens(
            tokens_view(tokens@),
            lex_from(src, file_hash, 0),
        )) by {
            match lex_from(src, file_hash, 0) {
                Ok(ts) => {
                    assert(tokens_view(tokens@) + ts =~= ts);
                },
                Err(_) => {},
            }
        }
    }
    loop
        invariant_except_break
            src == source.spec_bytes(),
            lexer.wf(),
            lexer.source@ == src,
            lexer.file_hash == file_hash,
            counters_fit(src),
            lex(src, file_hash) == after_tokens(
                tokens_view(tokens@),
                lex_from(src, file_hash, lexer.pos as int),
            ),
        ensures
            lexer.wf(),
            lexer.source@ == src,
            lexer.file_hash == file_hash,
            lexer.pos == src.len(),
            lex(src, file_hash) == after_tokens(
                tokens_view(tokens@),
                lex_from(src, file_hash, lexer.pos as int),
            ),
            next_token(src, lexer.pos as int) == Ok::<
                Option<(TokenView, int, int)>,
                (int, int, Seq<char>),
            >(None),
        decreases src.len() - lexer.pos,
    {
        let ghost p = lexer.pos as int;
        let ghost done = tokens_view(tokens@);
        match lexer.next_token() {
            Err(e) => {
                proof {
                    assert(lex_from(src, file_hash, p) == Err::<
                        Seq<(TokenView, SourceSpan)>,
                        (SourceSpan, Seq<char>),
                    >((e.span, e.message@)));
                }
                return Err(e);
            },
            Ok(None) => {
                break ;
            },
            Ok(Some(tok)) => {
                tokens.push(tok);
                proof {
                    let rest = lex_from(src, file_hash, lexer.pos as int);
                    assert(tokens_view(tokens@) =~= done.push((tok.0@, tok.1)));
                    match rest {
                        Ok(ts) => {
                            assert(done + (seq![(tok.0@, tok.1)] + ts) =~= tokens_view(tokens@)
                                + ts);
                        },
                        Err(_) => {},
                    }
                }
            },
        }
    }
    let eof_span = lexer.make_span(lexer.line, lexer.col, lexer.pos);
    let ghost done = tokens_view(tokens@);
    tokens.push((TokenOf::Eof, eof_span));
    proof {
        assert(tokens_view(tokens@) =~= done + seq![(TokenOf::Eof, eof_span)]);
    }
    Ok(tokens)
}


/// The byte offset of the first Unicode bidirectional control character in
/// `source`, if there is one.
pub fn contains_bidi_control(source: &str) -> (r: Option<usize>)
    ensures
        r matches Some(i) ==> exists|j: int|
            0 <= j < source@.len() && #[trigger] is_bidi_control(source@[j]) && i == char_offset(
                source@,
                j,
            ) && forall|k: int| 0 <= k < j ==> !is_bidi_control(#[trigger] source@[k]),
        r is None <==> forall|j: int|
            0 <= j < source@.len() ==> !is_bidi_control(#[trigger] source@[j]),
        r matches Some(i) ==> bidi_at(source.spec_bytes(), i as int),
        r matches Some(i) ==> forall|k: int| 0 <= k < i ==> !bidi_at(source.spec_bytes(), k),
        r is None ==> forall|k: int| !bidi_at(source.spec_bytes(), k),
{
    let bytes = source.as_bytes();
    let n = bytes.len();
    let mut i: usize = 0;
    while i < n && n - i >= 3
        invariant
            n == bytes@.len(),
            bytes@ == source.spec_bytes(),
            i <= n,
            forall|k: int| 0 <= k < i ==> !bidi_at(bytes@, k),
        decreases n - i,
    {
        if bidi_bytes_at(bytes, i) {
            proof {
                let s = source@;
                lemma_bidi_at_char(s, i as int);
                let j = choose|j: int|
                    0 <= j < s.len() && #[trigger] is_bidi_control(s[j]) && i == char_offset(s, j);
                assert forall|k: int| 0 <= k < j implies !is_bidi_control(#[trigger] s[k]) by {
                    if is_bidi_control(s[k]) {
                        lemma_char_offset_increasing(s, k, j);
                        lemma_bidi_at_char(s, char_offset(s, k));
                    }
                }
            }
            return Some(i);
        }
        i = i + 1;
    }
    proof {
        assert forall|k: int| !bidi_at(bytes@, k) by {
            if k >= i && 0 <= k {
                assert(k + 3 > n);
            }
        }
        let s = source@;
        assert forall|j: int| 0 <= j < s.len() implies !is_bidi_control(#[trigger] s[j]) by {
            lemma_bidi_at_char(s, char_offset(s, j));
        }
    }
    None
}


/// Whether the line and column counters stay within `u32` over all of
/// `source`, which [`tokenize`] requires.
pub fn line_col_fit(source: &str) -> (r: bool)
    ensures
        r == counters_fit(source.spec_bytes()),
{
    let bytes = source.as_bytes();
    let n = bytes.len();
    let mut line: u32 = 1;
    let mut col: u32 = 1;
    let mut i: usize = 0;
    while i < n
        invariant
            n == bytes@.len(),
            bytes@ == source.spec_bytes(),
            i <= n,
            line == line_at(bytes@, i as int),
            col == col_at(bytes@, i as int),
            forall|p: int| 0 <= p <= i ==> #[trigger] line_at(bytes@, p) <= u32::MAX,
            forall|p: int| 0 <= p <= i ==> #[trigger] col_at(bytes@, p) <= u32::MAX,
        decreases n - i,
    {
        if bytes[i] == 0x0a {
            if line == u32::MAX {
                proof {
                    assert(line_at(bytes@, i + 1) > u32::MAX);
                }
                return false;
            }
            line = line + 1;
            col = 1;
        } else {
            if col == u32::MAX {
                proof {
                    assert(col_at(bytes@, i + 1) > u32::MAX);
                }
                return false;
            }
            col = col + 1;
        }
        i = i + 1;
    }
    true
}

} // verus!
