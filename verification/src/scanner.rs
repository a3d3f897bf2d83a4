//! Lexical scanning.
//!
//! A `Scanner` walks a byte string and produces one `Token` per call,
//! skipping whitespace, line comments and nested block comments. The
//! token stream ends with an `Eof` token; a byte outside the language
//! yields an `Error` token carrying a fixed diagnostic message.
use vstd::prelude::*;

verus! {

use crate::rat::is_digit_s;
use crate::rat::wf_number_bytes;
use crate::rat::find_byte_s;

/// The category of a token.
#[derive(Debug, PartialEq, Eq, Copy, Clone, Hash, Structural)]
pub enum TokenType {
    LeftParen,
    RightParen,
    Comma,
    Dot,
    Minus,
    Plus,
    Semicolon,
    Slash,
    Star,
    Power,
    Equal,
    Identifier,
    Number,
    Eof,
    Error,
}

/// One lexical token: its category, the exact source bytes (or a
/// diagnostic message for an `Error` token), and a source position.
#[derive(Debug, PartialEq)]
pub struct Token {
    pub kind: TokenType,
    pub lexeme: Vec<u8>,
    pub line: usize,
    pub column: usize,
}

/// Two tokens carry the same category, text and position.
pub open spec fn token_eq_s(a: Token, b: Token) -> bool {
    &&& a.kind == b.kind
    &&& a.lexeme@ == b.lexeme@
    &&& a.line == b.line
    &&& a.column == b.column
}

impl Clone for Token {
    /// A copy that carries the same category, text and position.
    fn clone(&self) -> (r: Self)
        ensures
            token_eq_s(r, *self),
    {
        let lexeme = bytes_range(&self.lexeme, 0, self.lexeme.len());
        proof {
            assert(self.lexeme@.subrange(0, self.lexeme@.len() as int) =~= self.lexeme@);
        }
        Token { kind: self.kind, lexeme, line: self.line, column: self.column }
    }
}

impl Token {
    /// A synthetic error token carrying the given text.
    pub fn synthetic(text: Vec<u8>) -> (t: Token)
        ensures
            t.kind == TokenType::Error,
            t.lexeme == text,
            t.line == 0,
            t.column == 0,
    {
        Token { kind: TokenType::Error, lexeme: text, line: 0, column: 0 }
    }
}

/// The byte is an ASCII letter or an underscore.
pub open spec fn is_alpha_s(c: u8) -> bool {
    (65 <= c && c <= 90) || (97 <= c && c <= 122) || c == 95
}

/// The byte may continue an identifier.
pub open spec fn is_alpha_numeric_s(c: u8) -> bool {
    is_alpha_s(c) || is_digit_s(c)
}

/// The first index at or after `i` whose byte is not a digit, or the
/// length when the digits run to the end.
pub open spec fn digits_end_s(src: Seq<u8>, i: int) -> int
    decreases src.len() - i,
{
    if i < 0 || i >= src.len() {
        src.len() as int
    } else if !is_digit_s(src[i]) {
        i
    } else {
        digits_end_s(src, i + 1)
    }
}

/// The first index at or after `i` whose byte cannot continue an
/// identifier, or the length.
pub open spec fn alnum_end_s(src: Seq<u8>, i: int) -> int
    decreases src.len() - i,
{
    if i < 0 || i >= src.len() {
        src.len() as int
    } else if !is_alpha_numeric_s(src[i]) {
        i
    } else {
        alnum_end_s(src, i + 1)
    }
}

/// The end of a numeric lexeme starting at `i`: a maximal digit run,
/// continued past a dot only when another digit follows it.
pub open spec fn num_end_s(src: Seq<u8>, i: int) -> int {
    let e1 = digits_end_s(src, i);
    if e1 < src.len() && src[e1] == 46 && e1 + 1 < src.len() && is_digit_s(src[e1 + 1]) {
        digits_end_s(src, e1 + 1)
    } else {
        e1
    }
}

/// The index just past a block comment entered at `i` with `depth`
/// open comments, counting nested openers and closers; the length when
/// the comment never closes.
pub open spec fn skip_block_s(src: Seq<u8>, i: int, depth: nat) -> int
    decreases src.len() - i,
{
    if depth == 0 {
        i
    } else if i < 0 || i >= src.len() {
        src.len() as int
    } else if i + 1 < src.len() && src[i] == 47 && src[i + 1] == 42 {
        skip_block_s(src, i + 2, depth + 1)
    } else if i + 1 < src.len() && src[i] == 42 && src[i + 1] == 47 {
        skip_block_s(src, i + 2, (depth - 1) as nat)
    } else {
        skip_block_s(src, i + 1, depth)
    }
}

/// A block comment scan never moves backwards and never leaves the
/// source.
pub proof fn lemma_skip_block_bounds(src: Seq<u8>, i: int, depth: nat)
    requires
        0 <= i <= src.len(),
    ensures
        i <= skip_block_s(src, i, depth) <= src.len(),
    decreases src.len() - i,
{
    if depth == 0 {
    } else if i >= src.len() {
    } else if i + 1 < src.len() && src[i] == 47 && src[i + 1] == 42 {
        lemma_skip_block_bounds(src, i + 2, depth + 1);
    } else if i + 1 < src.len() && src[i] == 42 && src[i + 1] == 47 {
        lemma_skip_block_bounds(src, i + 2, (depth - 1) as nat);
    } else {
        lemma_skip_block_bounds(src, i + 1, depth);
    }
}

/// A byte search never moves backwards and never leaves the source.
pub proof fn lemma_find_byte_bounds(src: Seq<u8>, b: u8, i: int)
    requires
        0 <= i <= src.len(),
    ensures
        i <= find_byte_s(src, b, i) <= src.len(),
    decreases src.len() - i,
{
    if i < src.len() && src[i] != b {
        lemma_find_byte_bounds(src, b, i + 1);
    }
}

/// The first index at or after `i` that holds neither whitespace nor
/// a comment: spaces, tabs, carriage returns and newlines are skipped,
/// a `//` comment runs to the next newline, and a `/*` comment runs,
/// with nesting, to its matching closer.
pub open spec fn skip_ws_s(src: Seq<u8>, i: int) -> int
    decreases src.len() - i
        via skip_ws_s_decreases
{
    if i < 0 || i >= src.len() {
        src.len() as int
    } else if src[i] == 32 || src[i] == 13 || src[i] == 9 || src[i] == 10 {
        skip_ws_s(src, i + 1)
    } else if src[i] == 47 && i + 1 < src.len() && src[i + 1] == 47 {
        skip_ws_s(src, find_byte_s(src, 10, i))
    } else if src[i] == 47 && i + 1 < src.len() && src[i + 1] == 42 {
        skip_ws_s(src, skip_block_s(src, i + 2, 1))
    } else {
        i
    }
}

#[via_fn]
proof fn skip_ws_s_decreases(src: Seq<u8>, i: int) {
    if 0 <= i && i < src.len() {
        if src[i] == 47 && i + 1 < src.len() && src[i + 1] == 47 {
            lemma_find_byte_bounds(src, 10, i);
            assert(find_byte_s(src, 10, i) == find_byte_s(src, 10, i + 1));
            assert(find_byte_s(src, 10, i + 1) == find_byte_s(src, 10, i + 2));
            lemma_find_byte_bounds(src, 10, i + 2);
        } else if src[i] == 47 && i + 1 < src.len() && src[i + 1] == 42 {
            lemma_skip_block_bounds(src, i + 2, 1);
        }
    }
}

/// The kind and end index of the token that starts at `i`, which must
/// already lie past whitespace and comments.
pub open spec fn next_token_s(src: Seq<u8>, i: int) -> (TokenType, int) {
    if i >= src.len() {
        (TokenType::Eof, i)
    } else {
        let c = src[i];
        if c == 40 {
            (TokenType::LeftParen, i + 1)
        } else if c == 41 {
            (TokenType::RightParen, i + 1)
        } else if c == 59 {
            (TokenType::Semicolon, i + 1)
        } else if c == 44 {
            (TokenType::Comma, i + 1)
        } else if c == 46 {
            (TokenType::Dot, i + 1)
        } else if c == 45 {
            (TokenType::Minus, i + 1)
        } else if c == 43 {
            (TokenType::Plus, i + 1)
        } else if c == 47 {
            (TokenType::Slash, i + 1)
        } else if c == 42 {
            (TokenType::Star, i + 1)
        } else if c == 61 {
            (TokenType::Equal, i + 1)
        } else if c == 94 {
            (TokenType::Power, i + 1)
        } else if is_digit_s(c) {
            (TokenType::Number, num_end_s(src, i))
        } else if is_alpha_s(c) {
            (TokenType::Identifier, alnum_end_s(src, i))
        } else {
            (TokenType::Error, i + 1)
        }
    }
}

/// The fixed diagnostic text carried by an `Error` token.
pub open spec fn unexpected_message_s() -> Seq<u8> {
    // "Unexpected character."
    seq![85u8, 110u8, 101u8, 120u8, 112u8, 101u8, 99u8, 116u8, 101u8, 100u8, 32u8, 99u8, 104u8,
        97u8, 114u8, 97u8, 99u8, 116u8, 101u8, 114u8, 46u8]
}

/// Builds the fixed diagnostic text of an `Error` token.
fn unexpected_message() -> (r: Vec<u8>)
    ensures
        r@ == unexpected_message_s(),
{
    let mut v: Vec<u8> = Vec::new();
    v.push(85);
    v.push(110);
    v.push(101);
    v.push(120);
    v.push(112);
    v.push(101);
    v.push(99);
    v.push(116);
    v.push(101);
    v.push(100);
    v.push(32);
    v.push(99);
    v.push(104);
    v.push(97);
    v.push(114);
    v.push(97);
    v.push(99);
    v.push(116);
    v.push(101);
    v.push(114);
    v.push(46);
    proof {
        assert(v@ =~= unexpected_message_s());
    }
    v
}

/// A cursor over the source bytes: the start of the token being
/// scanned, the current read position, and a line/column position kept
/// for diagnostics.
pub struct Scanner {
    pub source: Vec<u8>,
    pub start: usize,
    pub current: usize,
    pub line: usize,
    pub column: usize,
}

/// The bytes of `v` between `a` and `b`, as a fresh vector.
fn bytes_range(v: &Vec<u8>, a: usize, b: usize) -> (r: Vec<u8>)
    requires
        a <= b <= v@.len(),
    ensures
        r@ == v@.subrange(a as int, b as int),
{
    let mut out: Vec<u8> = Vec::new();
    let mut i: usize = a;
    while i < b
        invariant
            a <= i <= b <= v@.len(),
            out@ == v@.subrange(a as int, i as int),
        decreases b - i,
    {
        out.push(v[i]);
        proof {
            assert(v@.subrange(a as int, i as int + 1) =~= v@.subrange(a as int, i as int).push(
                v@[i as int],
            ));
        }
        i = i + 1;
    }
    out
}

impl Scanner {
    /// The cursor is inside the source and the bookkeeping counters
    /// cannot overflow.
    pub open spec fn inv(self) -> bool {
        &&& self.start <= self.current <= self.source@.len()
        &&& self.source@.len() < usize::MAX
        &&& self.column <= self.current + 1
        &&& self.line <= self.current + 1
    }

    /// A fresh scanner at the start of the source.
    pub fn new(source: Vec<u8>) -> (s: Scanner)
        requires
            source@.len() < usize::MAX,
        ensures
            s.source == source,
            s.start == 0,
            s.current == 0,
            s.line == 1,
            s.column == 1,
            s.inv(),
    {
        Scanner { source, start: 0, current: 0, line: 1, column: 1 }
    }

    /// The cursor has passed the last byte.
    fn is_at_end(&self) -> (r: bool)
        ensures
            r == (self.current >= self.source@.len()),
    {
        self.current >= self.source.len()
    }

    /// The source bytes of the token being scanned.
    fn lexeme(&self) -> (r: Vec<u8>)
        requires
            self.start <= self.current <= self.source@.len(),
        ensures
            r@ == self.source@.subrange(self.start as int, self.current as int),
    {
        bytes_range(&self.source, self.start, self.current)
    }

    /// A token of the given kind covering the bytes from `start` to
    /// `current`.
    fn make_token(&self, kind: TokenType) -> (t: Token)
        requires
            self.start <= self.current <= self.source@.len(),
        ensures
            t.kind == kind,
            t.lexeme@ == self.source@.subrange(self.start as int, self.current as int),
            t.line == self.line,
            t.column == self.column,
    {
        Token { kind, lexeme: self.lexeme(), line: self.line, column: self.column }
    }

    /// The byte under the cursor, or 0 at the end.
    fn peek(&self) -> (r: u8)
        requires
            self.current <= self.source@.len(),
        ensures
            r == (if self.current < self.source@.len() {
                self.source@[self.current as int]
            } else {
                0u8
            }),
    {
        if self.is_at_end() {
            0
        } else {
            self.source[self.current]
        }
    }

    /// The byte after the cursor, or 0 past the end.
    fn peek_next(&self) -> (r: u8)
        requires
            self.current <= self.source@.len(),
            self.source@.len() < usize::MAX,
        ensures
            r == (if self.current + 1 < self.source@.len() {
                self.source@[self.current as int + 1]
            } else {
                0u8
            }),
    {
        if self.current + 1 >= self.source.len() {
            0
        } else {
            self.source[self.current + 1]
        }
    }

    /// An error token carrying the given diagnostic text.
    fn error_token(&self, message: Vec<u8>) -> (t: Token)
        ensures
            t.kind == TokenType::Error,
            t.lexeme == message,
            t.line == self.line,
            t.column == self.column,
    {
        Token { kind: TokenType::Error, lexeme: message, line: self.line, column: self.column }
    }

    /// Consumes and returns the byte under the cursor.
    fn advance(&mut self) -> (c: u8)
        requires
            old(self).inv(),
            old(self).current < old(self).source@.len(),
        ensures
            c == old(self).source@[old(self).current as int],
            final(self).current == old(self).current + 1,
            final(self).source == old(self).source,
            final(self).start == old(self).start,
            final(self).line == old(self).line,
            final(self).inv(),
    {
        let c = self.source[self.current];
        self.current = self.current + 1;
        self.column = self.column + 1;
        c
    }

    /// Consumes the byte under the cursor exactly when it equals the
    /// expected one.
    fn matches(&mut self, expected: u8) -> (r: bool)
        requires
            old(self).inv(),
        ensures
            r == (old(self).current < old(self).source@.len() && old(self).source@[old(self).current as int] == expected),
            final(self).current as int == if r {
                old(self).current as int + 1
            } else {
                old(self).current as int
            },
            final(self).source == old(self).source,
            final(self).start == old(self).start,
            final(self).inv(),
    {
        if self.is_at_end() || self.peek() != expected {
            return false;
        }
        self.current = self.current + 1;
        self.column = self.column + 1;
        true
    }

    /// Moves the cursor past whitespace and comments, to the position
    /// `skip_ws_s` describes.
    fn skip_whitespace(&mut self)
        requires
            old(self).inv(),
        ensures
            final(self).current as int == skip_ws_s(old(self).source@, old(self).current as int),
            final(self).source == old(self).source,
            final(self).start == old(self).start,
            final(self).inv(),
    {
        let ghost src = self.source@;
        let ghost c0 = self.current as int;
        while !self.is_at_end()
            invariant
                self.inv(),
                self.source == old(self).source,
                self.start == old(self).start,
                src == self.source@,
                c0 == old(self).current as int,
                skip_ws_s(src, self.current as int) == skip_ws_s(src, c0),
            decreases src.len() - self.current,
        {
            let c = self.peek();
            if c == 32 || c == 13 || c == 9 {
                self.advance();
            } else if c == 10 {
                self.advance();
                self.line = self.line + 1;
                self.column = 0;
            } else if c == 47 && self.peek_next() == 47 {
                // a line comment runs to the next newline
                let ghost entry = self.current as int;
                proof {
                    assert(skip_ws_s(src, entry) == skip_ws_s(src, find_byte_s(src, 10, entry)));
                }
                while self.peek() != 10 && !self.is_at_end()
                    invariant
                        self.inv(),
                        self.source == old(self).source,
                        self.start == old(self).start,
                        src == self.source@,
                        entry <= self.current,
                        entry < src.len() && src[entry] == 47,
                        find_byte_s(src, 10, self.current as int) == find_byte_s(src, 10, entry),
                        skip_ws_s(src, find_byte_s(src, 10, entry)) == skip_ws_s(src, c0),
                    decreases src.len() - self.current,
                {
                    proof {
                        assert(find_byte_s(src, 10, self.current as int) == find_byte_s(
                            src,
                            10,
                            self.current as int + 1,
                        ));
                    }
                    self.advance();
                }
                proof {
                    assert(find_byte_s(src, 10, self.current as int) == self.current as int);
                    assert(self.current as int != entry);
                }
            } else if c == 47 && self.peek_next() == 42 {
                // a block comment, with nesting
                let ghost entry = self.current as int;
                proof {
                    assert(skip_ws_s(src, entry) == skip_ws_s(src, skip_block_s(src, entry + 2, 1)));
                }
                self.advance();
                self.advance();
                let mut depth: usize = 1;
                while depth > 0 && !self.is_at_end()
                    invariant
                        self.inv(),
                        self.source == old(self).source,
                        self.start == old(self).start,
                        src == self.source@,
                        entry + 2 <= self.current,
                        depth <= self.current,
                        skip_block_s(src, self.current as int, depth as nat) == skip_block_s(
                            src,
                            entry + 2,
                            1,
                        ),
                        skip_ws_s(src, skip_block_s(src, entry + 2, 1)) == skip_ws_s(src, c0),
                    decreases src.len() - self.current,
                {
                    if self.peek() == 47 && self.peek_next() == 42 {
                        depth = depth + 1;
                        self.advance();
                        self.advance();
                    } else if self.peek() == 42 && self.peek_next() == 47 {
                        depth = depth - 1;
                        self.advance();
                        self.advance();
                    } else if self.peek() == 10 {
                        self.advance();
                        self.line = self.line + 1;
                        self.column = 0;
                    } else {
                        self.advance();
                    }
                }
                proof {
                    if depth == 0 {
                        assert(skip_block_s(src, self.current as int, 0) == self.current as int);
                    } else {
                        assert(self.current as int == src.len());
                        assert(skip_block_s(src, self.current as int, depth as nat)
                            == self.current as int);
                    }
                }
            } else {
                proof {
                    let i = self.current as int;
                    assert(src[i] == c);
                    assert(!(src[i] == 32 || src[i] == 13 || src[i] == 9 || src[i] == 10));
                    assert(!(src[i] == 47 && i + 1 < src.len() && src[i + 1] == 47));
                    assert(!(src[i] == 47 && i + 1 < src.len() && src[i + 1] == 42));
                    assert(skip_ws_s(src, i) == i);
                }
                return ;
            }
        }
    }

    /// Scans the rest of a numeric lexeme; the first digit has been
    /// consumed.
    fn number(&mut self) -> (t: Token)
        requires
            old(self).inv(),
            old(self).start < old(self).current,
            old(self).current == old(self).start + 1,
            is_digit_s(old(self).source@[old(self).start as int]),
        ensures
            final(self).source == old(self).source,
            final(self).start == old(self).start,
            final(self).current as int == num_end_s(old(self).source@, old(self).start as int),
            final(self).inv(),
            t.kind == TokenType::Number,
            t.lexeme@ == old(self).source@.subrange(
                old(self).start as int,
                num_end_s(old(self).source@, old(self).start as int),
            ),
            wf_number_bytes(t.lexeme@),
    {
        let ghost src = self.source@;
        let ghost st = self.start as int;
        while is_digit(self.peek())
            invariant
                self.inv(),
                self.source == old(self).source,
                self.source@ == src,
                self.start as int == st,
                st < self.current,
                forall|j: int| st <= j < self.current ==> is_digit_s(#[trigger] src[j]),
                digits_end_s(src, st) == digits_end_s(src, self.current as int),
            decreases src.len() - self.current,
        {
            self.advance();
        }
        let ghost e1 = digits_end_s(src, st);
        proof {
            assert(e1 == self.current as int);
        }
        if self.peek() == 46 && is_digit(self.peek_next()) {
            self.advance();
            while is_digit(self.peek())
                invariant
                    self.inv(),
                    self.source == old(self).source,
                    self.source@ == src,
                    self.start as int == st,
                    e1 + 1 <= self.current,
                    e1 == digits_end_s(src, st),
                    e1 < src.len() && src[e1] == 46,
                    e1 + 1 < src.len() && is_digit_s(src[e1 + 1]),
                    forall|j: int| st <= j < e1 ==> is_digit_s(#[trigger] src[j]),
                    forall|j: int| e1 + 1 <= j < self.current ==> is_digit_s(#[trigger] src[j]),
                    digits_end_s(src, e1 + 1) == digits_end_s(src, self.current as int),
                decreases src.len() - self.current,
            {
                self.advance();
            }
            proof {
                assert(self.current as int == digits_end_s(src, e1 + 1));
                assert(num_end_s(src, st) == digits_end_s(src, e1 + 1));
            }
        }
        let t = self.make_token(TokenType::Number);
        proof {
            lemma_number_lexeme_wf(src, st, self.current as int, e1);
        }
        t
    }

    /// Scans the rest of an identifier; the first byte has been
    /// consumed.
    fn identifier(&mut self) -> (t: Token)
        requires
            old(self).inv(),
            old(self).start < old(self).current,
            old(self).current == old(self).start + 1,
        ensures
            final(self).source == old(self).source,
            final(self).start == old(self).start,
            final(self).current as int == alnum_end_s(old(self).source@, old(self).current as int),
            final(self).inv(),
            t.kind == TokenType::Identifier,
            t.lexeme@ == old(self).source@.subrange(
                old(self).start as int,
                alnum_end_s(old(self).source@, old(self).current as int),
            ),
    {
        let ghost src = self.source@;
        let ghost st = self.start as int;
        while is_alpha_numeric(self.peek())
            invariant
                self.inv(),
                self.source == old(self).source,
                self.source@ == src,
                self.start as int == st,
                st < self.current,
                alnum_end_s(src, st + 1) == alnum_end_s(src, self.current as int),
            decreases src.len() - self.current,
        {
            self.advance();
        }
        self.make_token(self.identifier_type())
    }

    /// The category of a scanned identifier; the language has no
    /// keywords.
    fn identifier_type(&self) -> (k: TokenType)
        ensures
            k == TokenType::Identifier,
    {
        TokenType::Identifier
    }

    /// Scans the next token, as `skip_ws_s` and `next_token_s`
    /// describe.
    pub fn scan_token(&mut self) -> (t: Token)
        requires
            old(self).inv(),
        ensures
            final(self).inv(),
            final(self).source == old(self).source,
            ({
                let src = old(self).source@;
                let ws = skip_ws_s(src, old(self).current as int);
                let kind = next_token_s(src, ws).0;
                let end = next_token_s(src, ws).1;
                &&& final(self).current as int == end
                &&& t.kind == kind
                &&& (kind != TokenType::Error ==> t.lexeme@ == src.subrange(ws, end))
                &&& (kind == TokenType::Error ==> t.lexeme@ == unexpected_message_s())
                &&& (kind == TokenType::Number ==> wf_number_bytes(t.lexeme@))
            }),
    {
        let ghost src = self.source@;
        self.skip_whitespace();
        self.start = self.current;
        if self.is_at_end() {
            return self.make_token(TokenType::Eof);
        }
        let c = self.advance();
        if c == 40 {
            self.make_token(TokenType::LeftParen)
        } else if c == 41 {
            self.make_token(TokenType::RightParen)
        } else if c == 59 {
            self.make_token(TokenType::Semicolon)
        } else if c == 44 {
            self.make_token(TokenType::Comma)
        } else if c == 46 {
            self.make_token(TokenType::Dot)
        } else if c == 45 {
            self.make_token(TokenType::Minus)
        } else if c == 43 {
            self.make_token(TokenType::Plus)
        } else if c == 47 {
            self.make_token(TokenType::Slash)
        } else if c == 42 {
            self.make_token(TokenType::Star)
        } else if c == 61 {
            self.make_token(TokenType::Equal)
        } else if c == 94 {
            self.make_token(TokenType::Power)
        } else if is_digit(c) {
            self.number()
        } else if is_alpha(c) {
            self.identifier()
        } else {
            self.error_token(unexpected_message())
        }
    }
}

/// A maximal digit run, optionally continued by a dot and another
/// digit run, is a well-formed numeric lexeme.
proof fn lemma_number_lexeme_wf(src: Seq<u8>, st: int, end: int, e1: int)
    requires
        0 <= st < end <= src.len(),
        e1 == digits_end_s(src, st),
        forall|j: int| st <= j < e1 ==> is_digit_s(#[trigger] src[j]),
        st < e1,
        end == num_end_s(src, st),
        e1 < end ==> (e1 < src.len() && src[e1] == 46 && forall|j: int|
            e1 + 1 <= j < end ==> is_digit_s(#[trigger] src[j])),
        e1 < end ==> e1 + 2 <= end,
    ensures
        wf_number_bytes(src.subrange(st, end)),
{
    let lex = src.subrange(st, end);
    let reld = e1 - st;
    lemma_find_first(lex, 46, if e1 < end {
        reld
    } else {
        lex.len() as int
    });
    if e1 < end {
        assert(find_byte_s(lex, 46, 0) == reld);
        assert(all_digits_range(lex, 0, reld));
        assert(lex.subrange(0, reld) =~= src.subrange(st, e1));
        assert(crate::rat::all_digits(lex.subrange(0, reld)));
        assert(lex.subrange(reld + 1, lex.len() as int) =~= src.subrange(e1 + 1, end));
        assert(crate::rat::all_digits(lex.subrange(reld + 1, lex.len() as int)));
    } else {
        assert(find_byte_s(lex, 46, 0) == lex.len());
        assert(lex.subrange(0, lex.len() as int) =~= lex);
        assert(crate::rat::all_digits(lex.subrange(0, lex.len() as int)));
    }
}

/// Every byte of `s` between `a` and `b` is a digit.
spec fn all_digits_range(s: Seq<u8>, a: int, b: int) -> bool {
    forall|j: int| a <= j < b ==> is_digit_s(#[trigger] s[j])
}

/// When the bytes before `k` differ from `b` and the byte at `k` (when
/// inside) equals `b`, the first occurrence is at `k` (or the length).
proof fn lemma_find_first(s: Seq<u8>, b: u8, k: int)
    requires
        0 <= k <= s.len(),
        forall|j: int| 0 <= j < k ==> #[trigger] s[j] != b,
        k < s.len() ==> s[k] == b,
    ensures
        find_byte_s(s, b, 0) == if k < s.len() {
            k
        } else {
            s.len() as int
        },
{
    lemma_find_first_from(s, b, 0, k);
}

/// Helper for `lemma_find_first`, generalized over the start index.
proof fn lemma_find_first_from(s: Seq<u8>, b: u8, i: int, k: int)
    requires
        0 <= i <= k <= s.len(),
        forall|j: int| i <= j < k ==> #[trigger] s[j] != b,
        k < s.len() ==> s[k] == b,
    ensures
        find_byte_s(s, b, i) == if k < s.len() {
            k
        } else {
            s.len() as int
        },
    decreases k - i,
{
    if i < k {
        lemma_find_first_from(s, b, i + 1, k);
    }
}

/// Two byte strings hold the same bytes.
pub fn bytes_eq(a: &[u8], b: &[u8]) -> (r: bool)
    ensures
        r == (a@ == b@),
{
    if a.len() != b.len() {
        proof {
            assert(a@ != b@);
        }
        return false;
    }
    let n = a.len();
    let mut i: usize = 0;
    while i < n
        invariant
            n == a@.len() == b@.len(),
            i <= n,
            forall|j: int| 0 <= j < i ==> a@[j] == b@[j],
        decreases n - i,
    {
        if a[i] != b[i] {
            proof {
                assert(a@ != b@);
            }
            return false;
        }
        i = i + 1;
    }
    proof {
        assert(a@ =~= b@);
    }
    true
}

/// The byte is an ASCII decimal digit.
pub fn is_digit(c: u8) -> (r: bool)
    ensures
        r == is_digit_s(c),
{
    48 <= c && c <= 57
}

/// The byte is an ASCII letter or an underscore.
pub fn is_alpha(c: u8) -> (r: bool)
    ensures
        r == is_alpha_s(c),
{
    (65 <= c && c <= 90) || (97 <= c && c <= 122) || c == 95
}

/// The byte may continue an identifier.
pub fn is_alpha_numeric(c: u8) -> (r: bool)
    ensures
        r == is_alpha_numeric_s(c),
{
    is_alpha(c) || is_digit(c)
}

} // verus!
