//! The lexer: turns source bytes into tokens, one per call.
//!
//! The behaviour of [`Scanner::scan_token`] is pinned down by the
//! specification function [`scan_spec`]: maximal-munch lexing with
//! one-byte lookahead for the two-byte operators, a fixed keyword table,
//! line counting across whitespace and string literals, and a synthetic
//! end-of-input token once the cursor reaches the end.

use vstd::prelude::*;
use vstd::string::StringSliceAdditionalSpecFns;

use crate::token::{Token, TokenType};

verus! {

/// ASCII decimal digit.
pub open spec fn is_digit(b: u8) -> bool {
    ('0' as u8) <= b && b <= ('9' as u8)
}

/// ASCII letter: what may start an identifier.  The lexer works on
/// bytes, so identifiers are ASCII-only; any other byte outside a string
/// literal yields an error token.
pub open spec fn is_alpha(b: u8) -> bool {
    (('a' as u8) <= b && b <= ('z' as u8)) || (('A' as u8) <= b && b <= ('Z' as u8))
}

/// Cursor and line after skipping blanks, carriage returns, tabs and
/// newlines; newlines advance the line count.
pub open spec fn skip_ws(src: Seq<u8>, pos: int, line: int) -> (int, int)
    decreases src.len() - pos,
{
    if pos < 0 || pos >= src.len() {
        (pos, line)
    } else if src[pos] == (' ' as u8) || src[pos] == ('\r' as u8) || src[pos] == ('\t' as u8) {
        skip_ws(src, pos + 1, line)
    } else if src[pos] == ('\n' as u8) {
        skip_ws(src, pos + 1, line + 1)
    } else {
        (pos, line)
    }
}

/// First position at or after `pos` holding no decimal digit.
pub open spec fn digits_end(src: Seq<u8>, pos: int) -> int
    decreases src.len() - pos,
{
    if 0 <= pos < src.len() && is_digit(src[pos]) {
        digits_end(src, pos + 1)
    } else {
        pos
    }
}

/// End of a numeric literal starting at `pos`: digits, then optionally a
/// decimal point followed by at least one digit.
pub open spec fn number_end(src: Seq<u8>, pos: int) -> int {
    let de = digits_end(src, pos);
    if de + 1 < src.len() && src[de] == ('.' as u8) && is_digit(src[de + 1]) {
        digits_end(src, de + 2)
    } else {
        de
    }
}

/// First position at or after `pos` holding no identifier byte.
pub open spec fn ident_end(src: Seq<u8>, pos: int) -> int
    decreases src.len() - pos,
{
    if 0 <= pos < src.len() && (is_alpha(src[pos]) || is_digit(src[pos])) {
        ident_end(src, pos + 1)
    } else {
        pos
    }
}

/// Position of the closing quote of a string literal whose body starts at
/// `pos`, or the end of the source if the literal is unterminated.
pub open spec fn string_end(src: Seq<u8>, pos: int) -> int
    decreases src.len() - pos,
{
    if pos < 0 || pos >= src.len() {
        pos
    } else if src[pos] == ('"' as u8) {
        pos
    } else {
        string_end(src, pos + 1)
    }
}

/// Number of newline bytes in `src[a .. b]`.
pub open spec fn nl_count(src: Seq<u8>, a: int, b: int) -> int
    decreases b - a,
{
    if a >= b {
        0
    } else {
        (if src[a] == ('\n' as u8) {
            1int
        } else {
            0int
        }) + nl_count(src, a + 1, b)
    }
}

/// The fixed message an error token for an unknown byte carries.
pub open spec fn unexpected_character_message() -> Seq<u8> {
    seq![
        ('U' as u8), ('n' as u8), ('e' as u8), ('x' as u8), ('p' as u8), ('e' as u8),
        ('c' as u8), ('t' as u8), ('e' as u8), ('d' as u8), (' ' as u8), ('c' as u8),
        ('h' as u8), ('a' as u8), ('r' as u8), ('a' as u8), ('c' as u8), ('t' as u8),
        ('e' as u8), ('r' as u8), ('.' as u8),
    ]
}

/// The fixed message an error token for an unterminated string carries.
pub open spec fn unterminated_string_message() -> Seq<u8> {
    seq![
        ('U' as u8), ('n' as u8), ('t' as u8), ('e' as u8), ('r' as u8), ('m' as u8),
        ('i' as u8), ('n' as u8), ('a' as u8), ('t' as u8), ('e' as u8), ('d' as u8),
        (' ' as u8), ('s' as u8), ('t' as u8), ('r' as u8), ('i' as u8), ('n' as u8),
        ('g' as u8), ('.' as u8),
    ]
}

/// Builds the unknown-byte diagnostic message.
pub fn make_unexpected_character_message() -> (m: Vec<u8>)
    ensures
        m@ == unexpected_character_message(),
{
    let mut m: Vec<u8> = Vec::new();
    m.push('U' as u8);
    m.push('n' as u8);
    m.push('e' as u8);
    m.push('x' as u8);
    m.push('p' as u8);
    m.push('e' as u8);
    m.push('c' as u8);
    m.push('t' as u8);
    m.push('e' as u8);
    m.push('d' as u8);
    m.push(' ' as u8);
    m.push('c' as u8);
    m.push('h' as u8);
    m.push('a' as u8);
    m.push('r' as u8);
    m.push('a' as u8);
    m.push('c' as u8);
    m.push('t' as u8);
    m.push('e' as u8);
    m.push('r' as u8);
    m.push('.' as u8);
    proof {
        assert(m@ =~= unexpected_character_message());
    }
    m
}

/// Builds the unterminated-string diagnostic message.
pub fn make_unterminated_string_message() -> (m: Vec<u8>)
    ensures
        m@ == unterminated_string_message(),
{
    let mut m: Vec<u8> = Vec::new();
    m.push('U' as u8);
    m.push('n' as u8);
    m.push('t' as u8);
    m.push('e' as u8);
    m.push('r' as u8);
    m.push('m' as u8);
    m.push('i' as u8);
    m.push('n' as u8);
    m.push('a' as u8);
    m.push('t' as u8);
    m.push('e' as u8);
    m.push('d' as u8);
    m.push(' ' as u8);
    m.push('s' as u8);
    m.push('t' as u8);
    m.push('r' as u8);
    m.push('i' as u8);
    m.push('n' as u8);
    m.push('g' as u8);
    m.push('.' as u8);
    proof {
        assert(m@ =~= unterminated_string_message());
    }
    m
}

/// The fixed keyword table: which identifier lexemes are keywords.
pub open spec fn keyword_type(lex: Seq<u8>) -> TokenType {
    if lex.len() == 3 && lex[0] == ('a' as u8) && lex[1] == ('n' as u8) && lex[2] == ('d' as u8) {
        TokenType::And
    } else if lex.len() == 5 && lex[0] == ('c' as u8) && lex[1] == ('l' as u8) && lex[2] == ('a'
        as u8) && lex[3] == ('s' as u8) && lex[4] == ('s' as u8) {
        TokenType::Class
    } else if lex.len() == 4 && lex[0] == ('e' as u8) && lex[1] == ('l' as u8) && lex[2] == ('s'
        as u8) && lex[3] == ('e' as u8) {
        TokenType::Else
    } else if lex.len() == 5 && lex[0] == ('f' as u8) && lex[1] == ('a' as u8) && lex[2] == ('l'
        as u8) && lex[3] == ('s' as u8) && lex[4] == ('e' as u8) {
        TokenType::False
    } else if lex.len() == 3 && lex[0] == ('f' as u8) && lex[1] == ('o' as u8) && lex[2] == ('r'
        as u8) {
        TokenType::For
    } else if lex.len() == 3 && lex[0] == ('f' as u8) && lex[1] == ('u' as u8) && lex[2] == ('n'
        as u8) {
        TokenType::Fun
    } else if lex.len() == 2 && lex[0] == ('i' as u8) && lex[1] == ('f' as u8) {
        TokenType::If
    } else if lex.len() == 3 && lex[0] == ('n' as u8) && lex[1] == ('i' as u8) && lex[2] == ('l'
        as u8) {
        TokenType::Nil
    } else if lex.len() == 2 && lex[0] == ('o' as u8) && lex[1] == ('r' as u8) {
        TokenType::Or
    } else if lex.len() == 5 && lex[0] == ('p' as u8) && lex[1] == ('r' as u8) && lex[2] == ('i'
        as u8) && lex[3] == ('n' as u8) && lex[4] == ('t' as u8) {
        TokenType::Print
    } else if lex.len() == 6 && lex[0] == ('r' as u8) && lex[1] == ('e' as u8) && lex[2] == ('t'
        as u8) && lex[3] == ('u' as u8) && lex[4] == ('r' as u8) && lex[5] == ('n' as u8) {
        TokenType::Return
    } else if lex.len() == 5 && lex[0] == ('s' as u8) && lex[1] == ('u' as u8) && lex[2] == ('p'
        as u8) && lex[3] == ('e' as u8) && lex[4] == ('r' as u8) {
        TokenType::Super
    } else if lex.len() == 4 && lex[0] == ('t' as u8) && lex[1] == ('h' as u8) && lex[2] == ('i'
        as u8) && lex[3] == ('s' as u8) {
        TokenType::This
    } else if lex.len() == 4 && lex[0] == ('t' as u8) && lex[1] == ('r' as u8) && lex[2] == ('u'
        as u8) && lex[3] == ('e' as u8) {
        TokenType::True
    } else if lex.len() == 3 && lex[0] == ('v' as u8) && lex[1] == ('a' as u8) && lex[2] == ('r'
        as u8) {
        TokenType::Var
    } else if lex.len() == 5 && lex[0] == ('w' as u8) && lex[1] == ('h' as u8) && lex[2] == ('i'
        as u8) && lex[3] == ('l' as u8) && lex[4] == ('e' as u8) {
        TokenType::While
    } else {
        TokenType::Identifier
    }
}

/// What one scan step yields: the token's category, its span `start ..
/// end` in the source, the line its first byte sits on (which the token
/// carries), and the line count after the token.  The cursor moves to
/// `end`.
pub ghost struct ScanR {
    pub token_type: TokenType,
    pub start: int,
    pub end: int,
    pub token_line: int,
    pub line: int,
}

/// The lexeme a scanned token carries: the bytes of its source span, but
/// an error token carries its fixed diagnostic message instead (an
/// unterminated string literal starts with a quote; any other error span
/// is an unknown byte).
pub open spec fn lexeme_of(src: Seq<u8>, r: ScanR) -> Seq<u8> {
    if r.token_type == TokenType::Error {
        if 0 <= r.start < src.len() && src[r.start] == ('"' as u8) {
            unterminated_string_message()
        } else {
            unexpected_character_message()
        }
    } else {
        src.subrange(r.start, r.end)
    }
}

/// One token scanned from `src` at cursor `pos0` on line `line0`:
/// whitespace is skipped first; then the longest match wins, with one-byte
/// lookahead deciding the two-byte operators; identifiers are checked
/// against the keyword table; an unterminated string or an unknown byte
/// yields an error token; at the end of input an end-of-input token with
/// an empty lexeme is produced, idempotently.
pub open spec fn scan_spec(src: Seq<u8>, pos0: int, line0: int) -> ScanR {
    let (pos, line) = skip_ws(src, pos0, line0);
    if pos >= src.len() {
        ScanR { token_type: TokenType::Eof, start: pos, end: pos, token_line: line, line }
    } else {
        let b = src[pos];
        if b == ('(' as u8) {
            ScanR { token_type: TokenType::LeftParen, start: pos, end: pos + 1, token_line: line, line }
        } else if b == (')' as u8) {
            ScanR { token_type: TokenType::RightParen, start: pos, end: pos + 1, token_line: line, line }
        } else if b == ('{' as u8) {
            ScanR { token_type: TokenType::LeftBrace, start: pos, end: pos + 1, token_line: line, line }
        } else if b == ('}' as u8) {
            ScanR { token_type: TokenType::RightBrace, start: pos, end: pos + 1, token_line: line, line }
        } else if b == (';' as u8) {
            ScanR { token_type: TokenType::Semicolon, start: pos, end: pos + 1, token_line: line, line }
        } else if b == (',' as u8) {
            ScanR { token_type: TokenType::Comma, start: pos, end: pos + 1, token_line: line, line }
        } else if b == ('.' as u8) {
            ScanR { token_type: TokenType::Dot, start: pos, end: pos + 1, token_line: line, line }
        } else if b == ('-' as u8) {
            ScanR { token_type: TokenType::Minus, start: pos, end: pos + 1, token_line: line, line }
        } else if b == ('+' as u8) {
            ScanR { token_type: TokenType::Plus, start: pos, end: pos + 1, token_line: line, line }
        } else if b == ('/' as u8) {
            ScanR { token_type: TokenType::Slash, start: pos, end: pos + 1, token_line: line, line }
        } else if b == ('*' as u8) {
            ScanR { token_type: TokenType::Star, start: pos, end: pos + 1, token_line: line, line }
        } else if b == ('!' as u8) {
            if pos + 1 < src.len() && src[pos + 1] == ('=' as u8) {
                ScanR { token_type: TokenType::BangEqual, start: pos, end: pos + 2, token_line: line, line }
            } else {
                ScanR { token_type: TokenType::Bang, start: pos, end: pos + 1, token_line: line, line }
            }
        } else if b == ('=' as u8) {
            if pos + 1 < src.len() && src[pos + 1] == ('=' as u8) {
                ScanR { token_type: TokenType::EqualEqual, start: pos, end: pos + 2, token_line: line, line }
            } else {
                ScanR { token_type: TokenType::Equal, start: pos, end: pos + 1, token_line: line, line }
            }
        } else if b == ('<' as u8) {
            if pos + 1 < src.len() && src[pos + 1] == ('=' as u8) {
                ScanR { token_type: TokenType::LessEqual, start: pos, end: pos + 2, token_line: line, line }
            } else {
                ScanR { token_type: TokenType::Less, start: pos, end: pos + 1, token_line: line, line }
            }
        } else if b == ('>' as u8) {
            if pos + 1 < src.len() && src[pos + 1] == ('=' as u8) {
                ScanR { token_type: TokenType::GreaterEqual, start: pos, end: pos + 2, token_line: line, line }
            } else {
                ScanR { token_type: TokenType::Greater, start: pos, end: pos + 1, token_line: line, line }
            }
        } else if b == ('"' as u8) {
            let e = string_end(src, pos + 1);
            if e >= src.len() {
                ScanR {
                    token_type: TokenType::Error,
                    start: pos,
                    end: src.len() as int,
                    token_line: line,
                    line: line + nl_count(src, pos + 1, src.len() as int),
                }
            } else {
                ScanR {
                    token_type: TokenType::Str,
                    start: pos,
                    end: e + 1,
                    token_line: line,
                    line: line + nl_count(src, pos + 1, e),
                }
            }
        } else if is_digit(b) {
            ScanR { token_type: TokenType::Number, start: pos, end: number_end(src, pos), token_line: line, line }
        } else if is_alpha(b) {
            let e = ident_end(src, pos + 1);
            ScanR { token_type: keyword_type(src.subrange(pos, e)), start: pos, end: e, token_line: line, line }
        } else {
            ScanR { token_type: TokenType::Error, start: pos, end: pos + 1, token_line: line, line }
        }
    }
}

/// Decides [`is_digit`] on a byte.
pub fn byte_is_digit(b: u8) -> (r: bool)
    ensures
        r == is_digit(b),
{
    ('0' as u8) <= b && b <= ('9' as u8)
}

/// Decides [`is_alpha`] on a byte.
pub fn byte_is_alpha(b: u8) -> (r: bool)
    ensures
        r == is_alpha(b),
{
    (('a' as u8) <= b && b <= ('z' as u8)) || (('A' as u8) <= b && b <= ('Z' as u8))
}

/// Decides whether a byte may continue an identifier.
pub fn byte_is_ident(b: u8) -> (r: bool)
    ensures
        r == (is_alpha(b) || is_digit(b)),
{
    byte_is_alpha(b) || byte_is_digit(b)
}

/// The cursor-based lexer.  `current` is the cursor, `start` the first
/// byte of the token scanned last, `line` the current source line.
pub struct Scanner {
    pub source: Vec<u8>,
    pub start: usize,
    pub current: usize,
    pub line: usize,
}

impl Scanner {
    /// The scanner's invariant: the cursor stays inside the source, the
    /// line count starts at one and cannot exceed one plus the cursor.
    pub open spec fn wf(&self) -> bool {
        &&& self.start <= self.current <= self.source@.len()
        &&& self.source@.len() < usize::MAX
        &&& 1 <= self.line
        &&& self.line <= 1 + self.current
    }

    /// Creates a scanner over the given source bytes, at the beginning,
    /// on line one.
    pub fn from_bytes(source: Vec<u8>) -> (s: Scanner)
        requires
            source@.len() < usize::MAX,
        ensures
            s.wf(),
            s.source@ == source@,
            s.current == 0,
            s.line == 1,
    {
        Scanner { source, start: 0, current: 0, line: 1 }
    }

    /// Creates a scanner over the bytes of `source`, at the beginning,
    /// on line one.
    pub fn new(source: &str) -> (s: Scanner)
        requires
            source.spec_bytes().len() < usize::MAX,
        ensures
            s.wf(),
            s.source@ == source.spec_bytes(),
            s.current == 0,
            s.line == 1,
    {
        let bytes: &[u8] = source.as_bytes();
        let n: usize = bytes.len();
        let mut v: Vec<u8> = Vec::new();
        let mut i: usize = 0;
        while i < n
            invariant
                n == bytes@.len(),
                i <= n,
                v@ == bytes@.subrange(0, i as int),
            decreases n - i,
        {
            v.push(bytes[i]);
            proof {
                assert(v@ =~= bytes@.subrange(0, i + 1 as int));
            }
            i = i + 1;
        }
        proof {
            assert(v@ =~= bytes@);
        }
        Scanner { source: v, start: 0, current: 0, line: 1 }
    }

    /// Copies the byte range `a .. b` out of the source.
    fn lexeme_range(&self, a: usize, b: usize) -> (r: Vec<u8>)
        requires
            a <= b <= self.source@.len(),
        ensures
            r@ == self.source@.subrange(a as int, b as int),
    {
        let mut r: Vec<u8> = Vec::new();
        let mut i: usize = a;
        while i < b
            invariant
                a <= i <= b <= self.source@.len(),
                r@ == self.source@.subrange(a as int, i as int),
            decreases b - i,
        {
            r.push(self.source[i]);
            proof {
                assert(r@ =~= self.source@.subrange(a as int, i + 1 as int));
            }
            i = i + 1;
        }
        r
    }

    /// Skips whitespace, counting newlines, exactly as [`skip_ws`] says.
    fn skip_whitespace(&mut self)
        requires
            old(self).wf(),
        ensures
            final(self).wf(),
            final(self).source == old(self).source,
            final(self).start == old(self).start,
            (final(self).current as int, final(self).line as int) == skip_ws(
                old(self).source@,
                old(self).current as int,
                old(self).line as int,
            ),
            old(self).current <= final(self).current,
    {
        let n: usize = self.source.len();
        loop
            invariant
                self.wf(),
                n == self.source@.len(),
                self.source == old(self).source,
                self.start == old(self).start,
                old(self).current <= self.current,
                skip_ws(self.source@, old(self).current as int, old(self).line as int) == skip_ws(
                    self.source@,
                    self.current as int,
                    self.line as int,
                ),
            decreases n - self.current,
        {
            if self.current >= n {
                return ;
            }
            let b: u8 = self.source[self.current];
            if b == (' ' as u8) || b == ('\r' as u8) || b == ('\t' as u8) {
                self.current = self.current + 1;
            } else if b == ('\n' as u8) {
                self.current = self.current + 1;
                self.line = self.line + 1;
            } else {
                return ;
            }
        }
    }

    /// True when the byte at the cursor is `expected`; consumes it then.
    fn match_byte(&mut self, expected: u8) -> (r: bool)
        requires
            old(self).wf(),
        ensures
            final(self).wf(),
            final(self).source == old(self).source,
            final(self).start == old(self).start,
            final(self).line == old(self).line,
            r == (old(self).current < old(self).source@.len() && old(self).source@[old(
                self,
            ).current as int] == expected),
            r ==> final(self).current == old(self).current + 1,
            !r ==> final(self).current == old(self).current,
    {
        if self.current < self.source.len() && self.source[self.current] == expected {
            self.current = self.current + 1;
            true
        } else {
            false
        }
    }

    /// Builds a token of the given category whose lexeme is the source
    /// range `start .. current`.
    fn make_token(&self, token_type: TokenType) -> (t: Token)
        requires
            self.wf(),
        ensures
            t@.token_type == token_type,
            t@.lexeme == self.source@.subrange(self.start as int, self.current as int),
            t@.line == self.line,
    {
        Token {
            token_type,
            lexeme: self.lexeme_range(self.start, self.current),
            line: self.line,
        }
    }

    /// Scans the rest of a numeric literal whose first digit sits at
    /// `start` (cursor one past it): more digits, then optionally a
    /// decimal point followed by at least one digit.
    fn scan_number(&mut self) -> (t: Token)
        requires
            old(self).wf(),
            old(self).start < old(self).current,
            old(self).current == old(self).start + 1,
            is_digit(old(self).source@[old(self).start as int]),
        ensures
            final(self).wf(),
            final(self).source == old(self).source,
            final(self).start == old(self).start,
            final(self).line == old(self).line,
            final(self).current as int == number_end(old(self).source@, old(self).start as int),
            t@.token_type == TokenType::Number,
            t@.lexeme == old(self).source@.subrange(
                old(self).start as int,
                final(self).current as int,
            ),
            t@.line == final(self).line,
    {
        let n: usize = self.source.len();
        while self.current < n && byte_is_digit(self.source[self.current])
            invariant
                self.wf(),
                n == self.source@.len(),
                self.source == old(self).source,
                self.start == old(self).start,
                self.line == old(self).line,
                self.start < self.current,
                digits_end(self.source@, self.start as int) == digits_end(
                    self.source@,
                    self.current as int,
                ),
            decreases n - self.current,
        {
            self.current = self.current + 1;
        }
        let de: usize = self.current;
        proof {
            assert(de as int == digits_end(self.source@, self.start as int));
        }
        if de + 1 < n && self.source[de] == ('.' as u8) && byte_is_digit(self.source[de + 1]) {
            self.current = self.current + 2;
            while self.current < n && byte_is_digit(self.source[self.current])
                invariant
                    self.wf(),
                    n == self.source@.len(),
                    self.source == old(self).source,
                    self.start == old(self).start,
                    self.line == old(self).line,
                    self.start < self.current,
                    digits_end(self.source@, de + 2) == digits_end(
                        self.source@,
                        self.current as int,
                    ),
                    number_end(self.source@, self.start as int) == digits_end(self.source@, de + 2),
                decreases n - self.current,
            {
                self.current = self.current + 1;
            }
        }
        self.make_token(TokenType::Number)
    }

    /// Scans the rest of an identifier whose first byte sits at `start`
    /// (cursor one past it) and classifies it against the keyword table.
    fn scan_identifier(&mut self) -> (t: Token)
        requires
            old(self).wf(),
            old(self).current == old(self).start + 1,
            old(self).start < old(self).source@.len(),
        ensures
            final(self).wf(),
            final(self).source == old(self).source,
            final(self).start == old(self).start,
            final(self).line == old(self).line,
            final(self).current as int == ident_end(old(self).source@, old(self).current as int),
            t@.token_type == keyword_type(
                old(self).source@.subrange(old(self).start as int, final(self).current as int),
            ),
            t@.lexeme == old(self).source@.subrange(
                old(self).start as int,
                final(self).current as int,
            ),
            t@.line == final(self).line,
    {
        let n: usize = self.source.len();
        while self.current < n && byte_is_ident(self.source[self.current])
            invariant
                self.wf(),
                n == self.source@.len(),
                self.source == old(self).source,
                self.start == old(self).start,
                self.line == old(self).line,
                self.start < self.current,
                ident_end(self.source@, old(self).current as int) == ident_end(
                    self.source@,
                    self.current as int,
                ),
            decreases n - self.current,
        {
            self.current = self.current + 1;
        }
        let lexeme: Vec<u8> = self.lexeme_range(self.start, self.current);
        let token_type: TokenType = identifier_type(&lexeme);
        Token { token_type, lexeme, line: self.line }
    }

    /// Scans the rest of a string literal whose opening quote sits at
    /// `start` (cursor one past it); newlines inside the literal advance
    /// the scanner's line count, while the token carries the line of its
    /// opening quote; an unterminated literal yields an error token
    /// carrying the fixed unterminated-string message.
    fn scan_string(&mut self, token_line: usize) -> (t: Token)
        requires
            old(self).wf(),
            old(self).current == old(self).start + 1,
            old(self).start < old(self).source@.len(),
            token_line == old(self).line,
        ensures
            final(self).wf(),
            final(self).source == old(self).source,
            final(self).start == old(self).start,
            ({
                let e = string_end(old(self).source@, old(self).current as int);
                if e >= old(self).source@.len() {
                    &&& t@.token_type == TokenType::Error
                    &&& t@.lexeme == unterminated_string_message()
                    &&& final(self).current == old(self).source@.len()
                    &&& final(self).line as int == old(self).line + nl_count(
                        old(self).source@,
                        old(self).current as int,
                        old(self).source@.len() as int,
                    )
                } else {
                    &&& t@.token_type == TokenType::Str
                    &&& t@.lexeme == old(self).source@.subrange(
                        old(self).start as int,
                        e + 1,
                    )
                    &&& final(self).current == e + 1
                    &&& final(self).line as int == old(self).line + nl_count(
                        old(self).source@,
                        old(self).current as int,
                        e,
                    )
                }
            }),
            t@.line == token_line,
    {
        let n: usize = self.source.len();
        while self.current < n && self.source[self.current] != ('"' as u8)
            invariant
                self.wf(),
                n == self.source@.len(),
                self.source == old(self).source,
                self.start == old(self).start,
                old(self).current <= self.current,
                string_end(self.source@, old(self).current as int) == string_end(
                    self.source@,
                    self.current as int,
                ),
                self.line as int == old(self).line + nl_count(
                    self.source@,
                    old(self).current as int,
                    self.current as int,
                ),
            decreases n - self.current,
        {
            proof {
                lemma_nl_count_snoc(
                    self.source@,
                    old(self).current as int,
                    self.current as int,
                );
            }
            if self.source[self.current] == ('\n' as u8) {
                self.line = self.line + 1;
            }
            self.current = self.current + 1;
        }
        if self.current >= n {
            Token {
                token_type: TokenType::Error,
                lexeme: make_unterminated_string_message(),
                line: token_line,
            }
        } else {
            self.current = self.current + 1;
            Token {
                token_type: TokenType::Str,
                lexeme: self.lexeme_range(self.start, self.current),
                line: token_line,
            }
        }
    }

    /// Produces the next token, exactly as [`scan_spec`] says; at the end
    /// of input it keeps producing end-of-input tokens.
    pub fn scan_token(&mut self) -> (t: Token)
        requires
            old(self).wf(),
        ensures
            final(self).wf(),
            final(self).source == old(self).source,
            ({
                let r = scan_spec(
                    old(self).source@,
                    old(self).current as int,
                    old(self).line as int,
                );
                &&& t@.token_type == r.token_type
                &&& t@.lexeme == lexeme_of(old(self).source@, r)
                &&& t@.line as int == r.token_line
                &&& final(self).start as int == r.start
                &&& final(self).current as int == r.end
                &&& final(self).line as int == r.line
            }),
    {
        self.skip_whitespace();
        self.start = self.current;
        let n: usize = self.source.len();
        if self.current >= n {
            proof {
                assert(self.source@.subrange(self.current as int, self.current as int)
                    =~= Seq::<u8>::empty());
            }
            return Token { token_type: TokenType::Eof, lexeme: Vec::new(), line: self.line };
        }
        let b: u8 = self.source[self.current];
        self.current = self.current + 1;
        if b == ('(' as u8) {
            self.make_token(TokenType::LeftParen)
        } else if b == (')' as u8) {
            self.make_token(TokenType::RightParen)
        } else if b == ('{' as u8) {
            self.make_token(TokenType::LeftBrace)
        } else if b == ('}' as u8) {
            self.make_token(TokenType::RightBrace)
        } else if b == (';' as u8) {
            self.make_token(TokenType::Semicolon)
        } else if b == (',' as u8) {
            self.make_token(TokenType::Comma)
        } else if b == ('.' as u8) {
            self.make_token(TokenType::Dot)
        } else if b == ('-' as u8) {
            self.make_token(TokenType::Minus)
        } else if b == ('+' as u8) {
            self.make_token(TokenType::Plus)
        } else if b == ('/' as u8) {
            self.make_token(TokenType::Slash)
        } else if b == ('*' as u8) {
            self.make_token(TokenType::Star)
        } else if b == ('!' as u8) {
            if self.match_byte('=' as u8) {
                self.make_token(TokenType::BangEqual)
            } else {
                self.make_token(TokenType::Bang)
            }
        } else if b == ('=' as u8) {
            if self.match_byte('=' as u8) {
                self.make_token(TokenType::EqualEqual)
            } else {
                self.make_token(TokenType::Equal)
            }
        } else if b == ('<' as u8) {
            if self.match_byte('=' as u8) {
                self.make_token(TokenType::LessEqual)
            } else {
                self.make_token(TokenType::Less)
            }
        } else if b == ('>' as u8) {
            if self.match_byte('=' as u8) {
                self.make_token(TokenType::GreaterEqual)
            } else {
                self.make_token(TokenType::Greater)
            }
        } else if b == ('"' as u8) {
            let token_line: usize = self.line;
            self.scan_string(token_line)
        } else if ('0' as u8) <= b && b <= ('9' as u8) {
            self.scan_number()
        } else if (('a' as u8) <= b && b <= ('z' as u8)) || (('A' as u8) <= b && b <= ('Z' as u8)) {
            self.scan_identifier()
        } else {
            Token {
                token_type: TokenType::Error,
                lexeme: make_unexpected_character_message(),
                line: self.line,
            }
        }
    }
}

/// Classifies an identifier lexeme against the keyword table.
fn identifier_type(lex: &Vec<u8>) -> (t: TokenType)
    ensures
        t == keyword_type(lex@),
{
    let n: usize = lex.len();
    if n == 3 && lex[0] == ('a' as u8) && lex[1] == ('n' as u8) && lex[2] == ('d' as u8) {
        TokenType::And
    } else if n == 5 && lex[0] == ('c' as u8) && lex[1] == ('l' as u8) && lex[2] == ('a' as u8)
        && lex[3] == ('s' as u8) && lex[4] == ('s' as u8) {
        TokenType::Class
    } else if n == 4 && lex[0] == ('e' as u8) && lex[1] == ('l' as u8) && lex[2] == ('s' as u8)
        && lex[3] == ('e' as u8) {
        TokenType::Else
    } else if n == 5 && lex[0] == ('f' as u8) && lex[1] == ('a' as u8) && lex[2] == ('l' as u8)
        && lex[3] == ('s' as u8) && lex[4] == ('e' as u8) {
        TokenType::False
    } else if n == 3 && lex[0] == ('f' as u8) && lex[1] == ('o' as u8) && lex[2] == ('r' as u8) {
        TokenType::For
    } else if n == 3 && lex[0] == ('f' as u8) && lex[1] == ('u' as u8) && lex[2] == ('n' as u8) {
        TokenType::Fun
    } else if n == 2 && lex[0] == ('i' as u8) && lex[1] == ('f' as u8) {
        TokenType::If
    } else if n == 3 && lex[0] == ('n' as u8) && lex[1] == ('i' as u8) && lex[2] == ('l' as u8) {
        TokenType::Nil
    } else if n == 2 && lex[0] == ('o' as u8) && lex[1] == ('r' as u8) {
        TokenType::Or
    } else if n == 5 && lex[0] == ('p' as u8) && lex[1] == ('r' as u8) && lex[2] == ('i' as u8)
        && lex[3] == ('n' as u8) && lex[4] == ('t' as u8) {
        TokenType::Print
    } else if n == 6 && lex[0] == ('r' as u8) && lex[1] == ('e' as u8) && lex[2] == ('t' as u8)
        && lex[3] == ('u' as u8) && lex[4] == ('r' as u8) && lex[5] == ('n' as u8) {
        TokenType::Return
    } else if n == 5 && lex[0] == ('s' as u8) && lex[1] == ('u' as u8) && lex[2] == ('p' as u8)
        && lex[3] == ('e' as u8) && lex[4] == ('r' as u8) {
        TokenType::Super
    } else if n == 4 && lex[0] == ('t' as u8) && lex[1] == ('h' as u8) && lex[2] == ('i' as u8)
        && lex[3] == ('s' as u8) {
        TokenType::This
    } else if n == 4 && lex[0] == ('t' as u8) && lex[1] == ('r' as u8) && lex[2] == ('u' as u8)
        && lex[3] == ('e' as u8) {
        TokenType::True
    } else if n == 3 && lex[0] == ('v' as u8) && lex[1] == ('a' as u8) && lex[2] == ('r' as u8) {
        TokenType::Var
    } else if n == 5 && lex[0] == ('w' as u8) && lex[1] == ('h' as u8) && lex[2] == ('i' as u8)
        && lex[3] == ('l' as u8) && lex[4] == ('e' as u8) {
        TokenType::While
    } else {
        TokenType::Identifier
    }
}

/// Counting newlines over `a .. b + 1` adds the byte at `b` to the count
/// over `a .. b`.
pub proof fn lemma_nl_count_snoc(src: Seq<u8>, a: int, b: int)
    requires
        a <= b < src.len(),
    ensures
        nl_count(src, a, b + 1) == nl_count(src, a, b) + (if src[b] == ('\n' as u8) {
            1int
        } else {
            0int
        }),
    decreases b - a,
{
    if a < b {
        lemma_nl_count_snoc(src, a + 1, b);
    } else {
        assert(nl_count(src, a + 1, b + 1) == 0);
        assert(nl_count(src, a, b) == 0);
    }
}


pub proof fn lemma_nl_count_nonneg(src: Seq<u8>, a: int, b: int)
    ensures
        nl_count(src, a, b) >= 0,
    decreases b - a,
{
    if a < b {
        lemma_nl_count_nonneg(src, a + 1, b);
    }
}

pub proof fn lemma_skip_ws_props(src: Seq<u8>, pos: int, line: int)
    requires
        0 <= pos <= src.len(),
    ensures
        pos <= skip_ws(src, pos, line).0 <= src.len(),
        skip_ws(src, pos, line).1 >= line,
    decreases src.len() - pos,
{
    if pos < src.len() && (src[pos] == (' ' as u8) || src[pos] == ('\r' as u8) || src[pos] == (
    '\t' as u8)) {
        lemma_skip_ws_props(src, pos + 1, line);
    } else if pos < src.len() && src[pos] == ('\n' as u8) {
        lemma_skip_ws_props(src, pos + 1, line + 1);
    }
}

pub proof fn lemma_digits_end_props(src: Seq<u8>, pos: int)
    requires
        0 <= pos <= src.len(),
    ensures
        pos <= digits_end(src, pos) <= src.len(),
    decreases src.len() - pos,
{
    if pos < src.len() && is_digit(src[pos]) {
        lemma_digits_end_props(src, pos + 1);
    }
}

pub proof fn lemma_ident_end_props(src: Seq<u8>, pos: int)
    requires
        0 <= pos <= src.len(),
    ensures
        pos <= ident_end(src, pos) <= src.len(),
    decreases src.len() - pos,
{
    if pos < src.len() && (is_alpha(src[pos]) || is_digit(src[pos])) {
        lemma_ident_end_props(src, pos + 1);
    }
}

pub proof fn lemma_string_end_props(src: Seq<u8>, pos: int)
    requires
        0 <= pos <= src.len(),
    ensures
        pos <= string_end(src, pos) <= src.len(),
    decreases src.len() - pos,
{
    if pos < src.len() && src[pos] != ('"' as u8) {
        lemma_string_end_props(src, pos + 1);
    }
}

/// Scanning makes progress: the token's lexeme sits between the old
/// cursor and the end of the source; only the end-of-input token is
/// empty, and it only appears with the cursor at the end.
pub proof fn lemma_scan_props(src: Seq<u8>, pos0: int, line0: int)
    requires
        0 <= pos0 <= src.len(),
    ensures
        ({
            let r = scan_spec(src, pos0, line0);
            &&& pos0 <= r.start <= r.end <= src.len()
            &&& (r.token_type == TokenType::Eof ==> r.start == src.len() && r.end == src.len())
            &&& (r.token_type != TokenType::Eof ==> r.end > r.start)
            &&& r.line >= line0
        }),
{
    lemma_skip_ws_props(src, pos0, line0);
    let (pos, line) = skip_ws(src, pos0, line0);
    if pos < src.len() {
        let b = src[pos];
        if b == ('"' as u8) {
            lemma_string_end_props(src, pos + 1);
            let e = string_end(src, pos + 1);
            lemma_nl_count_nonneg(src, pos + 1, src.len() as int);
            lemma_nl_count_nonneg(src, pos + 1, e);
        } else if is_digit(b) {
            lemma_digits_end_props(src, pos);
            let de = digits_end(src, pos);
            assert(digits_end(src, pos) == digits_end(src, pos + 1));
            lemma_digits_end_props(src, pos + 1);
            if de + 1 < src.len() && src[de] == ('.' as u8) && is_digit(src[de + 1]) {
                lemma_digits_end_props(src, de + 2);
            }
        } else if is_alpha(b) {
            lemma_ident_end_props(src, pos + 1);
        }
    }
}

/// At the end of the input the lexer is idempotent: it yields the
/// end-of-input token with an empty lexeme, does not move, and keeps the
/// line count.
pub proof fn lemma_scan_idempotent_at_end(src: Seq<u8>, line: int)
    ensures
        scan_spec(src, src.len() as int, line).token_type == TokenType::Eof,
        scan_spec(src, src.len() as int, line).start == src.len(),
        scan_spec(src, src.len() as int, line).end == src.len(),
        scan_spec(src, src.len() as int, line).line == line,
{
}

} // verus!
