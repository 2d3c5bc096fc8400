use vstd::prelude::*;
use vstd::utf8::*;
use vstd::string::StringSliceAdditionalSpecFns;
use crate::span::Span;

verus! {

broadcast use vstd::string::group_string_axioms;

#[derive(Debug, Clone, Copy, PartialEq, Eq, Structural)]
pub enum TokenKind {
    LParen,
    RParen,
    Numeral,
    Decimal,
    Hexadecimal,
    Binary,
    StringLiteral,
    Symbol,
    QuotedSymbol,
    Keyword,
    Comment,
    Error,
}

#[derive(Debug, Clone, Copy, PartialEq, Eq, Structural)]
pub struct Token {
    pub kind: TokenKind,
    pub span: Span,
}

impl Token {
    fn new(kind: TokenKind, start: u32, end: u32) -> (res: Self)
        ensures
            res == mk_token(kind, start as int, end as int),
    {
        Self { kind, span: Span::new(start, end) }
    }
}

// ---------------------------------------------------------------------------
// The token grammar, as spec functions over the source bytes
// ---------------------------------------------------------------------------

pub open spec fn mk_token(kind: TokenKind, start: int, end: int) -> Token {
    Token { kind, span: Span { start: start as u32, end: end as u32 } }
}

pub open spec fn is_ws(b: u8) -> bool {
    b == 32 || b == 9 || b == 10 || b == 13
}

pub open spec fn is_digit(b: u8) -> bool {
    48 <= b <= 57
}

pub open spec fn is_hex_digit(b: u8) -> bool {
    is_digit(b) || (97 <= b <= 102) || (65 <= b <= 70)
}

pub open spec fn is_bin_digit(b: u8) -> bool {
    b == 48 || b == 49
}

pub open spec fn is_line_end(b: u8) -> bool {
    b == 10 || b == 13
}

/// Letters, digits, and `~ ! @ $ % ^ & * _ - + = < > . ? /`.
pub open spec fn is_symbol_byte(b: u8) -> bool {
    ||| is_digit(b)
    ||| (97 <= b <= 122)
    ||| (65 <= b <= 90)
    ||| b == 126 || b == 33 || b == 64 || b == 36 || b == 37 || b == 94
    ||| b == 38 || b == 42 || b == 95 || b == 45 || b == 43 || b == 61
    ||| b == 60 || b == 62 || b == 46 || b == 63 || b == 47
}

/// The first position at or after `p` that is not whitespace (or the end).
pub open spec fn skip_ws(s: Seq<u8>, p: int) -> int
    decreases s.len() - p,
{
    if 0 <= p < s.len() && is_ws(s[p]) {
        skip_ws(s, p + 1)
    } else {
        p
    }
}

/// The first position at or after `p` whose byte is not a symbol character.
pub open spec fn scan_symbol(s: Seq<u8>, p: int) -> int
    decreases s.len() - p,
{
    if 0 <= p < s.len() && is_symbol_byte(s[p]) {
        scan_symbol(s, p + 1)
    } else {
        p
    }
}

pub open spec fn scan_digits(s: Seq<u8>, p: int) -> int
    decreases s.len() - p,
{
    if 0 <= p < s.len() && is_digit(s[p]) {
        scan_digits(s, p + 1)
    } else {
        p
    }
}

pub open spec fn scan_hex(s: Seq<u8>, p: int) -> int
    decreases s.len() - p,
{
    if 0 <= p < s.len() && is_hex_digit(s[p]) {
        scan_hex(s, p + 1)
    } else {
        p
    }
}

pub open spec fn scan_bin(s: Seq<u8>, p: int) -> int
    decreases s.len() - p,
{
    if 0 <= p < s.len() && is_bin_digit(s[p]) {
        scan_bin(s, p + 1)
    } else {
        p
    }
}

/// The end of a comment: the first line break at or after `p`, or the end.
pub open spec fn scan_line(s: Seq<u8>, p: int) -> int
    decreases s.len() - p,
{
    if 0 <= p < s.len() && !is_line_end(s[p]) {
        scan_line(s, p + 1)
    } else {
        p
    }
}

/// The end of a string literal whose body starts at `p`: just past the closing
/// `"`, where `""` stands for an escaped quote; the end of input if unterminated.
pub open spec fn scan_string(s: Seq<u8>, p: int) -> int
    decreases s.len() - p,
{
    if p < 0 || p >= s.len() {
        s.len() as int
    } else if s[p] == 34 {
        if p + 1 < s.len() && s[p + 1] == 34 {
            scan_string(s, p + 2)
        } else {
            p + 1
        }
    } else {
        scan_string(s, p + 1)
    }
}

/// The end of a quoted symbol whose body starts at `p`: just past the closing
/// `|`, where a backslash takes the following byte with it; the end of input if
/// unterminated.
pub open spec fn scan_quoted(s: Seq<u8>, p: int) -> int
    decreases s.len() - p,
{
    if p < 0 || p >= s.len() {
        s.len() as int
    } else if s[p] == 124 {
        p + 1
    } else if s[p] == 92 {
        if p + 1 < s.len() {
            scan_quoted(s, p + 2)
        } else {
            s.len() as int
        }
    } else {
        scan_quoted(s, p + 1)
    }
}

/// The kind and end of the token that starts at `q` (a non-whitespace position).
pub open spec fn lex_at(s: Seq<u8>, q: int) -> (TokenKind, int) {
    let b = s[q];
    if b == 40 {
        (TokenKind::LParen, q + 1)
    } else if b == 41 {
        (TokenKind::RParen, q + 1)
    } else if b == 59 {
        (TokenKind::Comment, scan_line(s, q))
    } else if b == 34 {
        (TokenKind::StringLiteral, scan_string(s, q + 1))
    } else if b == 124 {
        (TokenKind::QuotedSymbol, scan_quoted(s, q + 1))
    } else if b == 58 {
        (TokenKind::Keyword, scan_symbol(s, q + 1))
    } else if b == 35 {
        if q + 1 < s.len() && (s[q + 1] == 120 || s[q + 1] == 88) {
            (TokenKind::Hexadecimal, scan_hex(s, q + 2))
        } else if q + 1 < s.len() && (s[q + 1] == 98 || s[q + 1] == 66) {
            (TokenKind::Binary, scan_bin(s, q + 2))
        } else {
            (TokenKind::Error, q + 1)
        }
    } else if is_digit(b) {
        let e = scan_digits(s, q);
        if e + 1 < s.len() && s[e] == 46 && is_digit(s[e + 1]) {
            (TokenKind::Decimal, scan_digits(s, e + 1))
        } else {
            (TokenKind::Numeral, e)
        }
    } else if is_symbol_byte(b) {
        (TokenKind::Symbol, scan_symbol(s, q))
    } else {
        (TokenKind::Error, q + 1)
    }
}

/// The token that starts at position `q`.
pub open spec fn token_at(s: Seq<u8>, q: int) -> Token {
    mk_token(lex_at(s, q).0, q, lex_at(s, q).1)
}

/// All tokens from position `p` on, in order; comments are kept only when
/// `keep_comments` holds.
pub open spec fn scan_tokens(s: Seq<u8>, p: int, keep_comments: bool) -> Seq<Token>
    decreases s.len() - p,
{
    let q = skip_ws(s, p);
    if p < 0 || q < p || q >= s.len() {
        Seq::empty()
    } else {
        let (k, e) = lex_at(s, q);
        if e <= q || e > s.len() {
            Seq::empty()
        } else if k == TokenKind::Comment && !keep_comments {
            scan_tokens(s, e, keep_comments)
        } else {
            seq![token_at(s, q)] + scan_tokens(s, e, keep_comments)
        }
    }
}

/// The tokens of a source text, comments left out.
pub open spec fn spec_tokenize(s: Seq<u8>) -> Seq<Token> {
    scan_tokens(s, 0, false)
}

/// The tokens of a source text, comments included.
pub open spec fn spec_tokenize_with_comments(s: Seq<u8>) -> Seq<Token> {
    scan_tokens(s, 0, true)
}

/// What a byte range of the source reads as: its characters when it is valid
/// UTF-8, else the text `<invalid utf8>`.
pub open spec fn text_of(b: Seq<u8>) -> Seq<char> {
    if valid_utf8(b) {
        decode_utf8(b)
    } else {
        "<invalid utf8>"@
    }
}

// ---------------------------------------------------------------------------
// Facts about the scanners
// ---------------------------------------------------------------------------

pub proof fn lemma_skip_ws(s: Seq<u8>, p: int)
    requires
        0 <= p <= s.len(),
    ensures
        p <= skip_ws(s, p) <= s.len(),
        skip_ws(s, p) < s.len() ==> !is_ws(s[skip_ws(s, p)]),
        forall|i: int| p <= i < skip_ws(s, p) ==> is_ws(#[trigger] s[i]),
    decreases s.len() - p,
{
    if p < s.len() && is_ws(s[p]) {
        lemma_skip_ws(s, p + 1);
    }
}

proof fn lemma_scan_symbol(s: Seq<u8>, p: int)
    requires
        0 <= p <= s.len(),
    ensures
        p <= scan_symbol(s, p) <= s.len(),
    decreases s.len() - p,
{
    if p < s.len() && is_symbol_byte(s[p]) {
        lemma_scan_symbol(s, p + 1);
    }
}

proof fn lemma_scan_digits(s: Seq<u8>, p: int)
    requires
        0 <= p <= s.len(),
    ensures
        p <= scan_digits(s, p) <= s.len(),
    decreases s.len() - p,
{
    if p < s.len() && is_digit(s[p]) {
        lemma_scan_digits(s, p + 1);
    }
}

proof fn lemma_scan_hex(s: Seq<u8>, p: int)
    requires
        0 <= p <= s.len(),
    ensures
        p <= scan_hex(s, p) <= s.len(),
    decreases s.len() - p,
{
    if p < s.len() && is_hex_digit(s[p]) {
        lemma_scan_hex(s, p + 1);
    }
}

proof fn lemma_scan_bin(s: Seq<u8>, p: int)
    requires
        0 <= p <= s.len(),
    ensures
        p <= scan_bin(s, p) <= s.len(),
    decreases s.len() - p,
{
    if p < s.len() && is_bin_digit(s[p]) {
        lemma_scan_bin(s, p + 1);
    }
}

proof fn lemma_scan_line(s: Seq<u8>, p: int)
    requires
        0 <= p <= s.len(),
    ensures
        p <= scan_line(s, p) <= s.len(),
    decreases s.len() - p,
{
    if p < s.len() && !is_line_end(s[p]) {
        lemma_scan_line(s, p + 1);
    }
}

proof fn lemma_scan_string(s: Seq<u8>, p: int)
    requires
        0 <= p <= s.len(),
    ensures
        p <= scan_string(s, p) <= s.len(),
    decreases s.len() - p,
{
    if p < s.len() {
        if s[p] == 34 {
            if p + 1 < s.len() && s[p + 1] == 34 {
                lemma_scan_string(s, p + 2);
            }
        } else {
            lemma_scan_string(s, p + 1);
        }
    }
}

proof fn lemma_scan_quoted(s: Seq<u8>, p: int)
    requires
        0 <= p <= s.len(),
    ensures
        p <= scan_quoted(s, p) <= s.len(),
    decreases s.len() - p,
{
    if p < s.len() {
        if s[p] == 124 {
        } else if s[p] == 92 {
            if p + 1 < s.len() {
                lemma_scan_quoted(s, p + 2);
            }
        } else {
            lemma_scan_quoted(s, p + 1);
        }
    }
}

/// A token is never empty and never runs past the end of the source.
pub proof fn lemma_lex_at(s: Seq<u8>, q: int)
    requires
        0 <= q < s.len(),
    ensures
        q < lex_at(s, q).1 <= s.len(),
{
    lemma_scan_symbol(s, q);
    lemma_scan_symbol(s, q + 1);
    lemma_scan_digits(s, q);
    lemma_scan_digits(s, q + 1);
    lemma_scan_line(s, q + 1);
    let e = scan_digits(s, q);
    if 0 <= e + 1 <= s.len() {
        lemma_scan_digits(s, e + 1);
    }
    lemma_scan_line(s, q);
    lemma_scan_string(s, q + 1);
    lemma_scan_quoted(s, q + 1);
    if q + 2 <= s.len() {
        lemma_scan_hex(s, q + 2);
        lemma_scan_bin(s, q + 2);
    }
}

// ---------------------------------------------------------------------------
// The lexer
// ---------------------------------------------------------------------------

/// A streaming lexer for SMT-LIB v2.6 (with Z3 extensions).
///
/// Operates on a byte slice and yields tokens one at a time.
pub struct Lexer<'a> {
    src: &'a [u8],
    pos: u32,
}

impl<'a> Lexer<'a> {
    #[verifier::type_invariant]
    spec fn inv(self) -> bool {
        &&& self.pos <= self.src@.len() <= u32::MAX
        &&& valid_utf8(self.src@)
    }

    /// The source bytes.
    pub closed spec fn bytes(self) -> Seq<u8> {
        self.src@
    }

    /// The position of the next unread byte.
    pub closed spec fn position(self) -> int {
        self.pos as int
    }

    pub fn new(src: &'a str) -> (res: Self)
        requires
            src.spec_bytes().len() <= u32::MAX,
        ensures
            res.bytes() == src.spec_bytes(),
            res.position() == 0,
    {
        proof { encode_utf8_valid_utf8(src@); }
        Self { src: src.as_bytes(), pos: 0 }
    }

    #[inline]
    fn peek(&self) -> (res: Option<u8>)
        ensures
            res == (if self.position() < self.bytes().len() {
                Some(self.bytes()[self.position()])
            } else {
                None::<u8>
            }),
    {
        proof { use_type_invariant(self); }
        if (self.pos as usize) < self.src.len() {
            Some(self.src[self.pos as usize])
        } else {
            None
        }
    }

    #[inline]
    fn advance(&mut self) -> (res: Option<u8>)
        ensures
            final(self).bytes() == old(self).bytes(),
            old(self).position() < old(self).bytes().len() ==> res == Some(
                old(self).bytes()[old(self).position()],
            ) && final(self).position() == old(self).position() + 1,
            old(self).position() >= old(self).bytes().len() ==> res is None
                && final(self).position() == old(self).position(),
    {
        proof { use_type_invariant(&*self); }
        if (self.pos as usize) < self.src.len() {
            let b = self.src[self.pos as usize];
            self.pos = self.pos + 1;
            Some(b)
        } else {
            None
        }
    }

    fn skip_whitespace(&mut self)
        ensures
            final(self).bytes() == old(self).bytes(),
            final(self).position() == skip_ws(old(self).bytes(), old(self).position()),
    {
        proof { use_type_invariant(&*self); }
        let ghost s = self.src@;
        let ghost p0 = self.pos as int;
        while (self.pos as usize) < self.src.len() && is_whitespace(self.src[self.pos as usize])
            invariant
                self.src@ == s,
                valid_utf8(s),
                self.pos <= s.len() <= u32::MAX,
                skip_ws(s, self.pos as int) == skip_ws(s, p0),
            decreases s.len() - self.pos,
        {
            self.pos = self.pos + 1;
        }
    }

    /// The next token, whitespace skipped; `None` at the end of the input.
    pub fn next_token(&mut self) -> (res: Option<Token>)
        ensures
            final(self).bytes() == old(self).bytes(),
            final(self).position() <= final(self).bytes().len(),
            ({
                let s = old(self).bytes();
                let q = skip_ws(s, old(self).position());
                if q >= s.len() {
                    res is None && final(self).position() == s.len()
                } else {
                    res == Some(token_at(s, q))
                        && final(self).position() == token_at(s, q).span.end
                }
            }),
    {
        proof { use_type_invariant(&*self); }
        self.skip_whitespace();
        proof {
            use_type_invariant(&*self);
            lemma_skip_ws(self.src@, old(self).pos as int);
        }
        let start = self.pos;
        let b = match self.peek() {
            Some(b) => b,
            None => return None,
        };
        proof { lemma_lex_at(self.src@, start as int); }
        if b == 40 {
            self.advance();
            Some(Token::new(TokenKind::LParen, start, self.pos))
        } else if b == 41 {
            self.advance();
            Some(Token::new(TokenKind::RParen, start, self.pos))
        } else if b == 59 {
            Some(self.lex_comment(start))
        } else if b == 34 {
            Some(self.lex_string(start))
        } else if b == 124 {
            Some(self.lex_quoted_symbol(start))
        } else if b == 58 {
            Some(self.lex_keyword(start))
        } else if b == 35 {
            Some(self.lex_hash_literal(start))
        } else if 48 <= b && b <= 57 {
            Some(self.lex_number(start))
        } else if is_symbol_char(b) {
            Some(self.lex_symbol(start))
        } else {
            self.advance();
            Some(Token::new(TokenKind::Error, start, self.pos))
        }
    }

    fn lex_comment(&mut self, start: u32) -> (res: Token)
        requires
            old(self).position() == start < old(self).bytes().len(),
            old(self).bytes()[start as int] == 59,
        ensures
            final(self).bytes() == old(self).bytes(),
            res == token_at(old(self).bytes(), start as int),
            final(self).position() == res.span.end,
    {
        proof { use_type_invariant(&*self); }
        let ghost s = self.src@;
        while (self.pos as usize) < self.src.len() && !is_line_break(self.src[self.pos as usize])
            invariant
                self.src@ == s,
                valid_utf8(s),
                start <= self.pos <= s.len() <= u32::MAX,
                scan_line(s, self.pos as int) == scan_line(s, start as int),
            decreases s.len() - self.pos,
        {
            self.pos = self.pos + 1;
        }
        Token::new(TokenKind::Comment, start, self.pos)
    }

    fn lex_string(&mut self, start: u32) -> (res: Token)
        requires
            old(self).position() == start < old(self).bytes().len(),
            old(self).bytes()[start as int] == 34,
        ensures
            final(self).bytes() == old(self).bytes(),
            res == token_at(old(self).bytes(), start as int),
            final(self).position() == res.span.end,
    {
        proof { use_type_invariant(&*self); }
        let ghost s = self.src@;
        self.pos = self.pos + 1;  // skip opening "
        loop
            invariant_except_break
                start < self.pos <= s.len() <= u32::MAX,
                scan_string(s, self.pos as int) == scan_string(s, start + 1),
            invariant
                self.src@ == s,
                valid_utf8(s),
            ensures
                self.src@ == s,
                valid_utf8(s),
                self.pos == scan_string(s, start + 1),
            decreases s.len() - self.pos,
        {
            if (self.pos as usize) >= self.src.len() {
                break;  // unterminated string
            }
            let b = self.src[self.pos as usize];
            self.pos = self.pos + 1;
            if b == 34 {
                // SMT-LIB v2.6: "" inside a string is an escaped quote
                if (self.pos as usize) < self.src.len() && self.src[self.pos as usize] == 34 {
                    self.pos = self.pos + 1;
                } else {
                    break;
                }
            }
        }
        Token::new(TokenKind::StringLiteral, start, self.pos)
    }

    fn lex_quoted_symbol(&mut self, start: u32) -> (res: Token)
        requires
            old(self).position() == start < old(self).bytes().len(),
            old(self).bytes()[start as int] == 124,
        ensures
            final(self).bytes() == old(self).bytes(),
            res == token_at(old(self).bytes(), start as int),
            final(self).position() == res.span.end,
    {
        proof { use_type_invariant(&*self); }
        let ghost s = self.src@;
        self.pos = self.pos + 1;  // skip opening |
        loop
            invariant_except_break
                start < self.pos <= s.len() <= u32::MAX,
                scan_quoted(s, self.pos as int) == scan_quoted(s, start + 1),
            invariant
                self.src@ == s,
                valid_utf8(s),
            ensures
                self.src@ == s,
                valid_utf8(s),
                self.pos == scan_quoted(s, start + 1),
            decreases s.len() - self.pos,
        {
            if (self.pos as usize) >= self.src.len() {
                break;  // unterminated
            }
            let b = self.src[self.pos as usize];
            self.pos = self.pos + 1;
            if b == 124 {
                break;
            } else if b == 92 {
                // Some implementations allow backslash escapes in quoted symbols
                if (self.pos as usize) < self.src.len() {
                    self.pos = self.pos + 1;
                } else {
                    break;
                }
            }
        }
        Token::new(TokenKind::QuotedSymbol, start, self.pos)
    }

    fn lex_keyword(&mut self, start: u32) -> (res: Token)
        requires
            old(self).position() == start < old(self).bytes().len(),
            old(self).bytes()[start as int] == 58,
        ensures
            final(self).bytes() == old(self).bytes(),
            res == token_at(old(self).bytes(), start as int),
            final(self).position() == res.span.end,
    {
        proof { use_type_invariant(&*self); }
        let ghost s = self.src@;
        self.pos = self.pos + 1;  // skip :
        while (self.pos as usize) < self.src.len() && is_symbol_char(self.src[self.pos as usize])
            invariant
                self.src@ == s,
                valid_utf8(s),
                start < self.pos <= s.len() <= u32::MAX,
                scan_symbol(s, self.pos as int) == scan_symbol(s, start + 1),
            decreases s.len() - self.pos,
        {
            self.pos = self.pos + 1;
        }
        Token::new(TokenKind::Keyword, start, self.pos)
    }

    fn lex_hash_literal(&mut self, start: u32) -> (res: Token)
        requires
            old(self).position() == start < old(self).bytes().len(),
            old(self).bytes()[start as int] == 35,
        ensures
            final(self).bytes() == old(self).bytes(),
            res == token_at(old(self).bytes(), start as int),
            final(self).position() == res.span.end,
    {
        proof { use_type_invariant(&*self); }
        let ghost s = self.src@;
        self.pos = self.pos + 1;  // skip #
        let next = self.peek();
        if next == Some(120u8) || next == Some(88u8) {
            self.pos = self.pos + 1;
            while (self.pos as usize) < self.src.len() && is_hex_byte(self.src[self.pos as usize])
                invariant
                    self.src@ == s,
                    valid_utf8(s),
                    start < self.pos <= s.len() <= u32::MAX,
                    scan_hex(s, self.pos as int) == scan_hex(s, start + 2),
                decreases s.len() - self.pos,
            {
                self.pos = self.pos + 1;
            }
            Token::new(TokenKind::Hexadecimal, start, self.pos)
        } else if next == Some(98u8) || next == Some(66u8) {
            self.pos = self.pos + 1;
            while (self.pos as usize) < self.src.len() && (self.src[self.pos as usize] == 48
                || self.src[self.pos as usize] == 49)
                invariant
                    self.src@ == s,
                    valid_utf8(s),
                    start < self.pos <= s.len() <= u32::MAX,
                    scan_bin(s, self.pos as int) == scan_bin(s, start + 2),
                decreases s.len() - self.pos,
            {
                self.pos = self.pos + 1;
            }
            Token::new(TokenKind::Binary, start, self.pos)
        } else {
            // Unknown # literal, treat as error
            Token::new(TokenKind::Error, start, self.pos)
        }
    }

    fn lex_number(&mut self, start: u32) -> (res: Token)
        requires
            old(self).position() == start < old(self).bytes().len(),
            is_digit(old(self).bytes()[start as int]),
        ensures
            final(self).bytes() == old(self).bytes(),
            res == token_at(old(self).bytes(), start as int),
            final(self).position() == res.span.end,
    {
        proof { use_type_invariant(&*self); }
        let ghost s = self.src@;
        while (self.pos as usize) < self.src.len() && is_ascii_digit(self.src[self.pos as usize])
            invariant
                self.src@ == s,
                valid_utf8(s),
                start <= self.pos <= s.len() <= u32::MAX,
                scan_digits(s, self.pos as int) == scan_digits(s, start as int),
            decreases s.len() - self.pos,
        {
            self.pos = self.pos + 1;
        }
        let len = self.src.len();
        // Check that a digit follows the dot (otherwise it's just a numeral)
        if (self.pos as usize) < len && self.src[self.pos as usize] == 46 && (self.pos as usize)
            + 1 < len && is_ascii_digit(self.src[self.pos as usize + 1]) {
            self.pos = self.pos + 1;  // skip .
            let ghost after_dot = self.pos as int;
            while (self.pos as usize) < self.src.len() && is_ascii_digit(
                self.src[self.pos as usize],
            )
                invariant
                    self.src@ == s,
                    valid_utf8(s),
                    start < self.pos <= s.len() <= u32::MAX,
                    scan_digits(s, self.pos as int) == scan_digits(s, after_dot),
                decreases s.len() - self.pos,
            {
                self.pos = self.pos + 1;
            }
            return Token::new(TokenKind::Decimal, start, self.pos);
        }
        Token::new(TokenKind::Numeral, start, self.pos)
    }

    fn lex_symbol(&mut self, start: u32) -> (res: Token)
        requires
            old(self).position() == start < old(self).bytes().len(),
            is_symbol_byte(old(self).bytes()[start as int]),
            !is_digit(old(self).bytes()[start as int]),
        ensures
            final(self).bytes() == old(self).bytes(),
            res == token_at(old(self).bytes(), start as int),
            final(self).position() == res.span.end,
    {
        proof { use_type_invariant(&*self); }
        let ghost s = self.src@;
        while (self.pos as usize) < self.src.len() && is_symbol_char(self.src[self.pos as usize])
            invariant
                self.src@ == s,
                valid_utf8(s),
                start <= self.pos <= s.len() <= u32::MAX,
                scan_symbol(s, self.pos as int) == scan_symbol(s, start as int),
            decreases s.len() - self.pos,
        {
            self.pos = self.pos + 1;
        }
        Token::new(TokenKind::Symbol, start, self.pos)
    }
}


/// One step of `scan_tokens`: the token at the next non-whitespace position, then
/// the rest.
proof fn lemma_scan_tokens_step(s: Seq<u8>, p: int, keep_comments: bool)
    requires
        0 <= p <= s.len(),
    ensures
        ({
            let q = skip_ws(s, p);
            &&& p <= q <= s.len()
            &&& q >= s.len() ==> scan_tokens(s, p, keep_comments) == Seq::<Token>::empty()
            &&& q < s.len() ==> {
                let t = token_at(s, q);
                &&& q < lex_at(s, q).1 <= s.len()
                &&& (t.kind == TokenKind::Comment && !keep_comments) ==> scan_tokens(
                    s,
                    p,
                    keep_comments,
                ) == scan_tokens(s, lex_at(s, q).1, keep_comments)
                &&& !(t.kind == TokenKind::Comment && !keep_comments) ==> scan_tokens(
                    s,
                    p,
                    keep_comments,
                ) == seq![t] + scan_tokens(s, lex_at(s, q).1, keep_comments)
            }
        }),
{
    lemma_skip_ws(s, p);
    let q = skip_ws(s, p);
    if q < s.len() {
        lemma_lex_at(s, q);
    }
}

/// Tokens scanned without comments hold no comment.
pub proof fn lemma_scan_no_comments(s: Seq<u8>, p: int)
    requires
        0 <= p <= s.len(),
    ensures
        forall|i: int|
            0 <= i < scan_tokens(s, p, false).len() ==> (#[trigger] scan_tokens(s, p, false)[i]).kind
                != TokenKind::Comment,
    decreases s.len() - p,
{
    lemma_scan_tokens_step(s, p, false);
    let q = skip_ws(s, p);
    if q < s.len() {
        let e = lex_at(s, q).1;
        lemma_scan_no_comments(s, e);
        let t = token_at(s, q);
        if t.kind != TokenKind::Comment {
            let rest = scan_tokens(s, e, false);
            assert forall|i: int| 0 <= i < scan_tokens(s, p, false).len() implies (
            #[trigger] scan_tokens(s, p, false)[i]).kind != TokenKind::Comment by {
                if i > 0 {
                    assert(scan_tokens(s, p, false)[i] == rest[i - 1]);
                }
            }
        }
    }
}

/// Every token of `scan_tokens` lies in the source after `p`, is non-empty, is
/// the token that the grammar gives at its own start, and ends before the next
/// one starts.
pub proof fn lemma_scan_tokens_wf(s: Seq<u8>, p: int, keep_comments: bool)
    requires
        0 <= p <= s.len() <= u32::MAX,
    ensures
        ({
            let ts = scan_tokens(s, p, keep_comments);
            &&& ts.len() <= s.len() - p
            &&& forall|i: int|
                0 <= i < ts.len() ==> p <= (#[trigger] ts[i]).span.start < ts[i].span.end <= s.len()
            &&& forall|i: int|
                0 <= i < ts.len() ==> #[trigger] ts[i] == token_at(s, ts[i].span.start as int)
            &&& forall|i: int, j: int|
                0 <= i < j < ts.len() ==> (#[trigger] ts[i]).span.end <= (#[trigger] ts[j]).span.start
        }),
    decreases s.len() - p,
{
    lemma_scan_tokens_step(s, p, keep_comments);
    let q = skip_ws(s, p);
    if q < s.len() {
        let e = lex_at(s, q).1;
        lemma_scan_tokens_wf(s, e, keep_comments);
        let rest = scan_tokens(s, e, keep_comments);
        let ts = scan_tokens(s, p, keep_comments);
        let t = token_at(s, q);
        if !(t.kind == TokenKind::Comment && !keep_comments) {
            assert forall|i: int| 0 <= i < ts.len() implies p <= (#[trigger] ts[i]).span.start
                < ts[i].span.end <= s.len() && ts[i] == token_at(s, ts[i].span.start as int) by {
                if i > 0 {
                    assert(ts[i] == rest[i - 1]);
                }
            }
            assert forall|i: int, j: int| 0 <= i < j < ts.len() implies (
            #[trigger] ts[i]).span.end <= (#[trigger] ts[j]).span.start by {
                assert(ts[j] == rest[j - 1]);
                if i > 0 {
                    assert(ts[i] == rest[i - 1]);
                }
            }
        }
    }
}

/// The tokens of `ts` that are not comments, in order.
pub open spec fn without_comments(ts: Seq<Token>) -> Seq<Token>
    decreases ts.len(),
{
    if ts.len() == 0 {
        Seq::empty()
    } else {
        (if ts[0].kind == TokenKind::Comment {
            Seq::empty()
        } else {
            seq![ts[0]]
        }) + without_comments(ts.subrange(1, ts.len() as int))
    }
}

/// Leaving out comments while scanning gives the scan with comments, its
/// comments then removed.
pub proof fn law_tokenize_drops_only_comments(s: Seq<u8>, p: int)
    requires
        0 <= p <= s.len(),
    ensures
        scan_tokens(s, p, false) == without_comments(scan_tokens(s, p, true)),
    decreases s.len() - p,
{
    lemma_scan_tokens_step(s, p, false);
    lemma_scan_tokens_step(s, p, true);
    let q = skip_ws(s, p);
    if q < s.len() {
        let e = lex_at(s, q).1;
        law_tokenize_drops_only_comments(s, e);
        let all = scan_tokens(s, p, true);
        assert(all.subrange(1, all.len() as int) =~= scan_tokens(s, e, true));
        let t = token_at(s, q);
        if t.kind == TokenKind::Comment {
            assert(Seq::<Token>::empty() + without_comments(scan_tokens(
                s,
                e,
                true,
            )) =~= without_comments(scan_tokens(s, e, true)));
        }
    } else {
        assert(without_comments(Seq::<Token>::empty()) =~= Seq::<Token>::empty());
    }
}

/// Every byte from `p` on that no token (comments included) covers is
/// whitespace.
pub proof fn law_tokens_cover_non_whitespace(s: Seq<u8>, p: int)
    requires
        0 <= p <= s.len() <= u32::MAX,
    ensures
        forall|i: int|
            p <= i < s.len() && !is_ws(#[trigger] s[i]) ==> exists|j: int|
                0 <= j < scan_tokens(s, p, true).len() && (#[trigger] scan_tokens(s, p, true)[j]).span.start
                    <= i < scan_tokens(s, p, true)[j].span.end,
    decreases s.len() - p,
{
    lemma_scan_tokens_step(s, p, true);
    lemma_skip_ws(s, p);
    let q = skip_ws(s, p);
    if q < s.len() {
        let e = lex_at(s, q).1;
        law_tokens_cover_non_whitespace(s, e);
        let ts = scan_tokens(s, p, true);
        let rest = scan_tokens(s, e, true);
        assert forall|i: int| p <= i < s.len() && !is_ws(#[trigger] s[i]) implies exists|j: int|
            0 <= j < ts.len() && (#[trigger] ts[j]).span.start <= i < ts[j].span.end by {
            if i < q {
                assert(is_ws(s[i]));
            } else if i < e {
                assert(ts[0] == token_at(s, q));
            } else {
                let j = choose|j: int| 0 <= j < rest.len() && (#[trigger] rest[j]).span.start <= i < rest[j].span.end;
                assert(ts[j + 1] == rest[j]);
            }
        }
    }
}

/// A run of hexadecimal digits (`0`-`9`, `a`-`f`, `A`-`F`) from `p` up to `e`
/// ends the scan of hexadecimal digits at `e` when the byte at `e`, if any, is
/// none of them.
proof fn lemma_hex_run(s: Seq<u8>, p: int, e: int)
    requires
        0 <= p <= e <= s.len(),
        forall|i: int|
            p <= i < e ==> (48 <= #[trigger] s[i] <= 57) || (97 <= s[i] <= 102) || (65 <= s[i] <= 70),
        e < s.len() ==> !((48 <= s[e] <= 57) || (97 <= s[e] <= 102) || (65 <= s[e] <= 70)),
    ensures
        scan_hex(s, p) == e,
    decreases e - p,
{
    if p < e {
        lemma_hex_run(s, p + 1, e);
    }
}

/// A `#x` or `#X` at a token start, followed by hexadecimal digits (`0`-`9`,
/// `a`-`f` and `A`-`F` alike), is one hexadecimal literal that runs up to the
/// first byte that is no such digit (or the end of the source).
pub proof fn law_hex_literal_token(s: Seq<u8>, q: int, e: int)
    requires
        0 <= q,
        q + 2 <= e <= s.len(),
        s[q] == 35,
        s[q + 1] == 120 || s[q + 1] == 88,
        forall|i: int|
            q + 2 <= i < e ==> (48 <= #[trigger] s[i] <= 57) || (97 <= s[i] <= 102) || (65 <= s[i] <= 70),
        e < s.len() ==> !((48 <= s[e] <= 57) || (97 <= s[e] <= 102) || (65 <= s[e] <= 70)),
    ensures
        token_at(s, q) == mk_token(TokenKind::Hexadecimal, q, e),
{
    lemma_hex_run(s, q + 2, e);
}

/// A source that starts with such a literal tokenizes to it first: `#xff`
/// and `#XfF0` are single hexadecimal tokens.
pub proof fn law_tokenize_hex_literal(s: Seq<u8>, e: int)
    requires
        2 <= e <= s.len(),
        s[0] == 35,
        s[1] == 120 || s[1] == 88,
        forall|i: int| 2 <= i < e ==> (48 <= #[trigger] s[i] <= 57) || (97 <= s[i] <= 102) || (65 <= s[i] <= 70),
        e < s.len() ==> !((48 <= s[e] <= 57) || (97 <= s[e] <= 102) || (65 <= s[e] <= 70)),
    ensures
        spec_tokenize(s).len() >= 1,
        spec_tokenize(s)[0] == mk_token(TokenKind::Hexadecimal, 0, e),
{
    lemma_hex_run(s, 2, e);
    assert(skip_ws(s, 0) == 0);
    assert(lex_at(s, 0) == (TokenKind::Hexadecimal, e));
    assert(scan_tokens(s, 0, false) == seq![token_at(s, 0)] + scan_tokens(s, e, false));
}

proof fn lemma_bin_run(s: Seq<u8>, p: int, e: int)
    requires
        0 <= p <= e <= s.len(),
        forall|i: int| p <= i < e ==> #[trigger] s[i] == 48 || s[i] == 49,
        e < s.len() ==> s[e] != 48 && s[e] != 49,
    ensures
        scan_bin(s, p) == e,
    decreases e - p,
{
    if p < e {
        lemma_bin_run(s, p + 1, e);
    }
}

/// A `#b` or `#B` at a token start, followed by binary digits, is one binary
/// literal that runs up to the first byte that is neither `0` nor `1` (or the
/// end of the source).
pub proof fn law_bin_literal_token(s: Seq<u8>, q: int, e: int)
    requires
        0 <= q,
        q + 2 <= e <= s.len(),
        s[q] == 35,
        s[q + 1] == 98 || s[q + 1] == 66,
        forall|i: int| q + 2 <= i < e ==> #[trigger] s[i] == 48 || s[i] == 49,
        e < s.len() ==> s[e] != 48 && s[e] != 49,
    ensures
        token_at(s, q) == mk_token(TokenKind::Binary, q, e),
{
    lemma_bin_run(s, q + 2, e);
}

impl<'a> Lexer<'a> {
    /// Get the text slice for a token: the bytes it covers when they lie in the
    /// source and form valid UTF-8; `<invalid utf8>` when they do not form valid
    /// UTF-8; the empty text when the span does not lie in the source.
    pub fn text(&self, token: &Token) -> (res: &'a str)
        ensures
            ({
                let s = self.bytes();
                let (a, b) = (token.span.start as int, token.span.end as int);
                if a <= b <= s.len() {
                    if valid_utf8(s.subrange(a, b)) {
                        res.spec_bytes() == s.subrange(a, b)
                    } else {
                        res@ == "<invalid utf8>"@
                    }
                } else {
                    res@ == ""@
                }
            }),
    {
        proof { use_type_invariant(self); }
        let start = token.span.start as usize;
        let end = token.span.end as usize;
        if start <= end && end <= self.src.len() {
            let b = vstd::slice::slice_subrange(self.src, start, end);
            match utf8_str(b) {
                Some(text) => text,
                None => "<invalid utf8>",
            }
        } else {
            ""
        }
    }

    /// Get the full source text.
    pub fn source(&self) -> (res: &'a str)
        ensures
            res.spec_bytes() == self.bytes(),
    {
        proof { use_type_invariant(self); }
        match utf8_str(self.src) {
            Some(text) => text,
            None => {
                proof { assert(false); }
                ""
            }
        }
    }
}

/// Convenience: collect all tokens (excluding comments) from source.
pub fn tokenize(src: &str) -> (res: Vec<Token>)
    requires
        src.spec_bytes().len() <= u32::MAX,
    ensures
        res@ == spec_tokenize(src.spec_bytes()),
{
    collect_tokens(src, false)
}

/// Convenience: collect all tokens including comments.
pub fn tokenize_with_comments(src: &str) -> (res: Vec<Token>)
    requires
        src.spec_bytes().len() <= u32::MAX,
    ensures
        res@ == spec_tokenize_with_comments(src.spec_bytes()),
{
    collect_tokens(src, true)
}

fn collect_tokens(src: &str, keep_comments: bool) -> (res: Vec<Token>)
    requires
        src.spec_bytes().len() <= u32::MAX,
    ensures
        res@ == scan_tokens(src.spec_bytes(), 0, keep_comments),
{
    let ghost s = src.spec_bytes();
    let mut lexer = Lexer::new(src);
    let mut tokens: Vec<Token> = Vec::new();
    loop
        invariant
            lexer.bytes() == s,
            0 <= lexer.position() <= s.len() <= u32::MAX,
            tokens@ + scan_tokens(s, lexer.position(), keep_comments) == scan_tokens(
                s,
                0,
                keep_comments,
            ),
        ensures
            tokens@ == scan_tokens(s, 0, keep_comments),
        decreases s.len() - lexer.position(),
    {
        let ghost p = lexer.position();
        proof { lemma_scan_tokens_step(s, p, keep_comments); }
        let ghost q = skip_ws(s, p);
        match lexer.next_token() {
            Some(tok) => {
                assert(q < s.len());
                assert(tok == token_at(s, q));
                assert(lexer.position() == lex_at(s, q).1);
                if keep_comments || tok.kind != TokenKind::Comment {
                    proof {
                        assert(tokens@.push(tok) + scan_tokens(s, lexer.position(), keep_comments)
                            == tokens@ + (seq![tok] + scan_tokens(
                            s,
                            lexer.position(),
                            keep_comments,
                        )));
                    }
                    tokens.push(tok);
                }
            },
            None => {
                proof {
                    assert(tokens@ + Seq::<Token>::empty() == tokens@);
                }
                break ;
            },
        }
    }
    tokens
}

/// Get the text slice for a span within source.
pub fn span_text<'a>(src: &'a str, span: &Span) -> (res: &'a str)
    requires
        span.start <= span.end <= src.spec_bytes().len(),
        is_char_boundary(src.spec_bytes(), span.start as int),
        is_char_boundary(src.spec_bytes(), span.end as int),
    ensures
        res.spec_bytes() == src.spec_bytes().subrange(span.start as int, span.end as int),
{
    proof { encode_utf8_valid_utf8(src@); }
    let (head, _) = src.split_at(span.end as usize);
    proof {
        lemma_char_boundary_prefix(src.spec_bytes(), span.start as int, span.end as int);
    }
    let (_, mid) = head.split_at(span.start as usize);
    proof {
        assert(src.spec_bytes().subrange(0, span.end as int).subrange(
            span.start as int,
            span.end as int,
        ) == src.spec_bytes().subrange(span.start as int, span.end as int));
    }
    mid
}

/// A character boundary of a valid UTF-8 text at or before `end` is also one of
/// the text's first `end` bytes.
proof fn lemma_char_boundary_prefix(bytes: Seq<u8>, i: int, end: int)
    requires
        valid_utf8(bytes),
        0 <= i <= end <= bytes.len(),
        is_char_boundary(bytes, i),
        is_char_boundary(bytes, end),
    ensures
        is_char_boundary(bytes.subrange(0, end), i),
{
    let p = bytes.subrange(0, end);
    valid_utf8_split(bytes, end);
    if i < end {
        is_char_boundary_iff_not_is_continuation_byte(bytes, i);
        is_char_boundary_iff_not_is_continuation_byte(p, i);
    } else {
        is_char_boundary_start_end_of_seq(p);
    }
}

/// `std::str::from_utf8`: succeeds exactly on valid UTF-8, and the `str` it
/// gives back is made of the same bytes.
#[verifier::external_body]
pub(crate) fn utf8_str<'a>(bytes: &'a [u8]) -> (res: Option<&'a str>)
    ensures
        res is Some <==> valid_utf8(bytes@),
        res matches Some(text) ==> text.spec_bytes() == bytes@,
{
    std::str::from_utf8(bytes).ok()
}

fn is_whitespace(b: u8) -> (r: bool)
    ensures
        r == is_ws(b),
{
    b == 32 || b == 9 || b == 10 || b == 13
}

fn is_line_break(b: u8) -> (r: bool)
    ensures
        r == is_line_end(b),
{
    b == 10 || b == 13
}

fn is_ascii_digit(b: u8) -> (r: bool)
    ensures
        r == is_digit(b),
{
    48 <= b && b <= 57
}

fn is_hex_byte(b: u8) -> (r: bool)
    ensures
        r == is_hex_digit(b),
{
    (48 <= b && b <= 57) || (97 <= b && b <= 102) || (65 <= b && b <= 70)
}

/// Returns true if `b` is a valid character in an unquoted SMT-LIB symbol.
/// Allowed: letters, digits, and ~ ! @ $ % ^ & * _ - + = < > . ? /
#[inline]
fn is_symbol_char(b: u8) -> (r: bool)
    ensures
        r == is_symbol_byte(b),
{
    (48 <= b && b <= 57) || (97 <= b && b <= 122) || (65 <= b && b <= 90) || b == 126 || b
        == 33 || b == 64 || b == 36 || b == 37 || b == 94 || b == 38 || b == 42 || b == 95 || b
        == 45 || b == 43 || b == 61 || b == 60 || b == 62 || b == 46 || b == 63 || b == 47
}

} // verus!
