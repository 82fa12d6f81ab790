//! Lexical analysis for K.
//!
//! The lexer is byte-oriented. K source is UTF-8 text, but its first syntax is
//! ASCII and a byte-oriented scanner keeps source positions deterministic.
//! Identifiers and numbers follow ASCII rules; any other byte outside string
//! and character literals is reported as an error.
//!
//! The meaning of the lexer is given by [`scan`]: the token (or error) that
//! starts at a cursor position, together with the position where scanning
//! stops. [`Lexer::next`] and [`tokenize`] are proved to follow it.

use vstd::prelude::*;
use vstd::string::StringSliceAdditionalSpecFns;

use crate::text::{
    ascii_chars, decimal, hex_byte, is_ascii_bytes, push_decimal, push_hex_byte, str_equal,
    string_from_ascii, text,
};

verus! {

/// A half-open byte range in the original source: `[start, end)`.
#[derive(Clone, Copy, Debug, PartialEq, Eq, Structural)]
pub struct Span {
    pub start: usize,
    pub end: usize,
}

impl Span {
    pub fn new(start: usize, end: usize) -> (r: Span)
        ensures
            r == (Span { start, end }),
    {
        Span { start, end }
    }

    /// The range written as `start..end`.
    pub fn to_string(&self) -> (r: String)
        ensures
            r@ == span_text(*self),
    {
        let mut out = String::new();
        push_decimal(&mut out, self.start as u64);
        out.append("..");
        push_decimal(&mut out, self.end as u64);
        out
    }
}

/// How a span is written in diagnostics.
pub open spec fn span_text(span: Span) -> Seq<char> {
    decimal(span.start as nat) + ".."@ + decimal(span.end as nat)
}

/// One token and the source range from which it came.
#[derive(Clone, Debug, PartialEq, Eq)]
pub struct SpannedToken {
    pub token: TokenKind,
    pub span: Span,
}

/// The tokens recognized by K's surface syntax.
#[derive(Clone, Debug, PartialEq, Eq)]
pub enum TokenKind {
    Identifier(String),
    Integer(String),
    Character(u8),
    StringLiteral(Vec<u8>),
    Int,
    Char,
    U8,
    U16,
    U32,
    U64,
    I32,
    I64,
    Bool,
    Struct,
    Extern,
    If,
    Else,
    While,
    Return,
    Let,
    True,
    False,
    Plus,
    Minus,
    Star,
    Slash,
    Equal,
    EqualEqual,
    NotEqual,
    Less,
    LessEqual,
    Greater,
    GreaterEqual,
    Ampersand,
    Pipe,
    Caret,
    Tilde,
    LessLess,
    GreaterGreater,
    Semicolon,
    Comma,
    LeftParen,
    RightParen,
    LeftBrace,
    RightBrace,
    LeftBracket,
    RightBracket,
    Dot,
    Eof,
}

/// The reserved word a spelling denotes, if any.
pub open spec fn keyword(word: Seq<char>) -> Option<TokenKind> {
    if word == "int"@ { Some(TokenKind::Int) }
    else if word == "char"@ { Some(TokenKind::Char) }
    else if word == "u8"@ { Some(TokenKind::U8) }
    else if word == "u16"@ { Some(TokenKind::U16) }
    else if word == "u32"@ { Some(TokenKind::U32) }
    else if word == "u64"@ { Some(TokenKind::U64) }
    else if word == "i32"@ { Some(TokenKind::I32) }
    else if word == "i64"@ { Some(TokenKind::I64) }
    else if word == "bool"@ { Some(TokenKind::Bool) }
    else if word == "struct"@ { Some(TokenKind::Struct) }
    else if word == "extern"@ { Some(TokenKind::Extern) }
    else if word == "if"@ { Some(TokenKind::If) }
    else if word == "else"@ { Some(TokenKind::Else) }
    else if word == "while"@ { Some(TokenKind::While) }
    else if word == "return"@ { Some(TokenKind::Return) }
    else if word == "let"@ { Some(TokenKind::Let) }
    else if word == "true"@ { Some(TokenKind::True) }
    else if word == "false"@ { Some(TokenKind::False) }
    else { None }
}

/// The token a word spells: its reserved word, or an identifier holding it.
pub open spec fn word_token(token: TokenKind, word: Seq<char>) -> bool {
    match keyword(word) {
        Some(k) => token == k,
        None => match token {
            TokenKind::Identifier(name) => name@ == word,
            _ => false,
        },
    }
}

impl TokenKind {
    /// Classifies a word as a reserved word or an identifier.
    pub fn from_identifier(text: String) -> (r: TokenKind)
        ensures
            word_token(r, text@),
    {
        let s = text.as_str();
        if str_equal(s, "int") { TokenKind::Int }
        else if str_equal(s, "char") { TokenKind::Char }
        else if str_equal(s, "u8") { TokenKind::U8 }
        else if str_equal(s, "u16") { TokenKind::U16 }
        else if str_equal(s, "u32") { TokenKind::U32 }
        else if str_equal(s, "u64") { TokenKind::U64 }
        else if str_equal(s, "i32") { TokenKind::I32 }
        else if str_equal(s, "i64") { TokenKind::I64 }
        else if str_equal(s, "bool") { TokenKind::Bool }
        else if str_equal(s, "struct") { TokenKind::Struct }
        else if str_equal(s, "extern") { TokenKind::Extern }
        else if str_equal(s, "if") { TokenKind::If }
        else if str_equal(s, "else") { TokenKind::Else }
        else if str_equal(s, "while") { TokenKind::While }
        else if str_equal(s, "return") { TokenKind::Return }
        else if str_equal(s, "let") { TokenKind::Let }
        else if str_equal(s, "true") { TokenKind::True }
        else if str_equal(s, "false") { TokenKind::False }
        else { TokenKind::Identifier(text) }
    }
}

/// A lexical error with a stable source location.
#[derive(Clone, Debug, PartialEq, Eq)]
pub struct LexError {
    pub span: Span,
    pub message: String,
}

impl LexError {
    /// The diagnostic text: `lex error at start..end: message`.
    pub fn to_string(&self) -> (r: String)
        ensures
            r@ == "lex error at "@ + span_text(self.span) + ": "@ + self.message@,
    {
        let mut out = text("lex error at ");
        let span = self.span.to_string();
        out.append(span.as_str());
        out.append(": ");
        out.append(self.message.as_str());
        out
    }
}

// ---------------------------------------------------------------------------
// The byte classes of the lexical grammar.

pub open spec fn is_space(b: u8) -> bool {
    b == 32 || b == 9 || b == 13 || b == 10
}

pub open spec fn is_word_start(b: u8) -> bool {
    (97 <= b <= 122) || (65 <= b <= 90) || b == 95
}

pub open spec fn is_digit(b: u8) -> bool {
    48 <= b <= 57
}

pub open spec fn is_word_byte(b: u8) -> bool {
    is_word_start(b) || is_digit(b)
}

pub open spec fn is_printable(b: u8) -> bool {
    0x20 <= b <= 0x7e
}

/// The first position at or after `p` that holds a newline or ends the source.
pub open spec fn line_end(src: Seq<u8>, p: int) -> int
    decreases src.len() - p,
{
    if p < 0 || p >= src.len() || src[p] == 10 {
        p
    } else {
        line_end(src, p + 1)
    }
}

/// The first position at or after `p` that does not continue a word.
pub open spec fn word_end(src: Seq<u8>, p: int) -> int
    decreases src.len() - p,
{
    if 0 <= p < src.len() && is_word_byte(src[p]) {
        word_end(src, p + 1)
    } else {
        p
    }
}

/// The first position at or after `p` that is not a decimal digit.
pub open spec fn digits_end(src: Seq<u8>, p: int) -> int
    decreases src.len() - p,
{
    if 0 <= p < src.len() && is_digit(src[p]) {
        digits_end(src, p + 1)
    } else {
        p
    }
}

pub proof fn lemma_line_end(src: Seq<u8>, p: int)
    ensures
        line_end(src, p) >= p,
        0 <= p <= src.len() ==> line_end(src, p) <= src.len(),
    decreases src.len() - p,
{
    if !(p < 0 || p >= src.len() || src[p] == 10) {
        lemma_line_end(src, p + 1);
    }
}

/// Where whitespace and `//` comments starting at `p` end.
pub open spec fn skip_trivia(src: Seq<u8>, p: int) -> int
    decreases src.len() - p,
{
    if 0 <= p < src.len() && is_space(src[p]) {
        skip_trivia(src, p + 1)
    } else if 0 <= p && p + 2 <= src.len() && src[p] == 47 && src[p + 1] == 47 {
        proof {
            lemma_line_end(src, p + 1);
        }
        skip_trivia(src, line_end(src, p + 1))
    } else {
        p
    }
}

/// What a lexeme is, before it becomes a token.
pub enum Lexeme {
    /// An identifier or reserved word with these bytes.
    Word(Seq<u8>),
    /// A decimal literal with these digits.
    Number(Seq<u8>),
    /// A string literal holding these (unescaped) bytes.
    Text(Seq<u8>),
    /// A token without text: punctuation, a character literal or the end.
    Fixed(TokenKind),
}

/// The outcome of scanning from a cursor: a lexeme with its span, or an error
/// with its span and message. In both cases the span's end is where the
/// cursor stops.
pub enum Scan {
    Token(Lexeme, int, int),
    Error(int, int, Seq<char>),
}

/// The value of a character-literal escape.
pub open spec fn char_escape(e: u8) -> Option<u8> {
    if e == 110 { Some(10u8) }
    else if e == 114 { Some(13u8) }
    else if e == 116 { Some(9u8) }
    else if e == 92 { Some(92u8) }
    else if e == 39 { Some(39u8) }
    else { None }
}

/// The value of a string-literal escape.
pub open spec fn string_escape(e: u8) -> Option<u8> {
    if e == 110 { Some(10u8) }
    else if e == 114 { Some(13u8) }
    else if e == 116 { Some(9u8) }
    else if e == 92 { Some(92u8) }
    else if e == 39 { Some(39u8) }
    else if e == 34 { Some(34u8) }
    else { None }
}

pub open spec fn unterminated_character() -> Seq<char> {
    "unterminated character literal"@
}

pub open spec fn unterminated_string() -> Seq<char> {
    "unterminated string literal"@
}

pub open spec fn one_character() -> Seq<char> {
    "character literal must contain one character"@
}

/// After a character literal's value, the closing quote at `q`.
pub open spec fn close_character(src: Seq<u8>, start: int, q: int, value: u8) -> Scan {
    if q < src.len() && src[q] == 39 {
        Scan::Token(Lexeme::Fixed(TokenKind::Character(value)), start, q + 1)
    } else if q < src.len() {
        Scan::Error(start, q + 1, one_character())
    } else {
        Scan::Error(start, q, one_character())
    }
}

/// A character literal whose opening quote is at `start`.
pub open spec fn scan_character(src: Seq<u8>, start: int) -> Scan {
    let p = start + 1;
    if p >= src.len() {
        Scan::Error(start, p, unterminated_character())
    } else {
        let c = src[p];
        if c == 92 {
            if p + 1 >= src.len() {
                Scan::Error(start, p + 1, unterminated_character())
            } else {
                let e = src[p + 1];
                match char_escape(e) {
                    Some(v) => close_character(src, start, p + 2, v),
                    None => Scan::Error(
                        start,
                        p + 2,
                        "unknown character escape `\\"@ + decimal(e as nat) + "`"@,
                    ),
                }
            }
        } else if is_printable(c) {
            close_character(src, start, p + 1, c)
        } else {
            Scan::Error(start, p + 1, "invalid character byte 0x"@ + hex_byte(c))
        }
    }
}

/// The rest of a string literal opened at `start`, continuing at `p` with the
/// bytes `acc` already read.
pub open spec fn scan_string(src: Seq<u8>, start: int, p: int, acc: Seq<u8>) -> Scan
    decreases src.len() - p,
{
    if p < 0 || p >= src.len() {
        Scan::Error(start, p, unterminated_string())
    } else {
        let b = src[p];
        if b == 34 {
            Scan::Token(Lexeme::Text(acc), start, p + 1)
        } else if b == 92 {
            if p + 1 >= src.len() {
                Scan::Error(start, p + 1, unterminated_string())
            } else {
                let e = src[p + 1];
                match string_escape(e) {
                    Some(v) => scan_string(src, start, p + 2, acc.push(v)),
                    None => Scan::Error(
                        start,
                        p + 2,
                        "unknown string escape `\\"@ + decimal(e as nat) + "`"@,
                    ),
                }
            }
        } else if is_printable(b) {
            scan_string(src, start, p + 1, acc.push(b))
        } else {
            Scan::Error(start, p + 1, "invalid string byte 0x"@ + hex_byte(b))
        }
    }
}

/// The punctuation token of one byte that never starts a longer token.
pub open spec fn single_punct(b: u8) -> Option<TokenKind> {
    if b == 43 { Some(TokenKind::Plus) }
    else if b == 45 { Some(TokenKind::Minus) }
    else if b == 42 { Some(TokenKind::Star) }
    else if b == 47 { Some(TokenKind::Slash) }
    else if b == 38 { Some(TokenKind::Ampersand) }
    else if b == 124 { Some(TokenKind::Pipe) }
    else if b == 94 { Some(TokenKind::Caret) }
    else if b == 126 { Some(TokenKind::Tilde) }
    else if b == 59 { Some(TokenKind::Semicolon) }
    else if b == 44 { Some(TokenKind::Comma) }
    else if b == 40 { Some(TokenKind::LeftParen) }
    else if b == 41 { Some(TokenKind::RightParen) }
    else if b == 123 { Some(TokenKind::LeftBrace) }
    else if b == 125 { Some(TokenKind::RightBrace) }
    else if b == 91 { Some(TokenKind::LeftBracket) }
    else if b == 93 { Some(TokenKind::RightBracket) }
    else if b == 46 { Some(TokenKind::Dot) }
    else { None }
}

/// Punctuation starting at `start` (which is not a letter, digit or quote).
pub open spec fn scan_punct(src: Seq<u8>, start: int) -> Scan {
    let b = src[start];
    let has_next = start + 1 < src.len();
    let next = src[start + 1];
    let one = |k: TokenKind| Scan::Token(Lexeme::Fixed(k), start, start + 1);
    let two = |k: TokenKind| Scan::Token(Lexeme::Fixed(k), start, start + 2);
    if b == 61 {
        if has_next && next == 61 { two(TokenKind::EqualEqual) } else { one(TokenKind::Equal) }
    } else if b == 33 && has_next && next == 61 {
        two(TokenKind::NotEqual)
    } else if b == 60 {
        if has_next && next == 61 {
            two(TokenKind::LessEqual)
        } else if has_next && next == 60 {
            two(TokenKind::LessLess)
        } else {
            one(TokenKind::Less)
        }
    } else if b == 62 {
        if has_next && next == 61 {
            two(TokenKind::GreaterEqual)
        } else if has_next && next == 62 {
            two(TokenKind::GreaterGreater)
        } else {
            one(TokenKind::Greater)
        }
    } else {
        match single_punct(b) {
            Some(k) => one(k),
            None => Scan::Error(start, start + 1, "unexpected byte 0x"@ + hex_byte(b)),
        }
    }
}

/// The token or error found by scanning `src` from `cursor`.
pub open spec fn scan(src: Seq<u8>, cursor: int) -> Scan {
    let start = skip_trivia(src, cursor);
    if start >= src.len() {
        Scan::Token(Lexeme::Fixed(TokenKind::Eof), start, start)
    } else {
        let b = src[start];
        if is_word_start(b) {
            let e = word_end(src, start + 1);
            Scan::Token(Lexeme::Word(src.subrange(start, e)), start, e)
        } else if is_digit(b) {
            let e = digits_end(src, start + 1);
            Scan::Token(Lexeme::Number(src.subrange(start, e)), start, e)
        } else if b == 39 {
            scan_character(src, start)
        } else if b == 34 {
            scan_string(src, start, start + 1, Seq::empty())
        } else {
            scan_punct(src, start)
        }
    }
}

/// The lexeme that marks the end of input.
pub open spec fn is_end_lexeme(lexeme: Lexeme) -> bool {
    match lexeme {
        Lexeme::Fixed(TokenKind::Eof) => true,
        _ => false,
    }
}

/// A token is the one a lexeme describes.
pub open spec fn denotes(token: TokenKind, lexeme: Lexeme) -> bool {
    match lexeme {
        Lexeme::Word(w) => word_token(token, ascii_chars(w)),
        Lexeme::Number(d) => match token {
            TokenKind::Integer(v) => v@ == ascii_chars(d),
            _ => false,
        },
        Lexeme::Text(bytes) => match token {
            TokenKind::StringLiteral(v) => v@ == bytes,
            _ => false,
        },
        Lexeme::Fixed(k) => token == k,
    }
}

pub open spec fn span_of(start: int, end: int) -> Span {
    Span { start: start as usize, end: end as usize }
}

/// A token with its span is what the lexeme and the range describe.
pub open spec fn token_is(tok: SpannedToken, lexeme: Lexeme, start: int, end: int) -> bool {
    denotes(tok.token, lexeme) && tok.span == span_of(start, end)
}

/// A lexer item is the outcome of a scan.
pub open spec fn item_is(item: Result<SpannedToken, LexError>, outcome: Scan) -> bool {
    match outcome {
        Scan::Token(lexeme, start, end) => match item {
            Ok(tok) => token_is(tok, lexeme, start, end),
            Err(_) => false,
        },
        Scan::Error(start, end, message) => match item {
            Ok(_) => false,
            Err(e) => e.span == span_of(start, end) && e.message@ == message,
        },
    }
}

/// Where the cursor stands after a scan.
pub open spec fn scan_end(outcome: Scan) -> int {
    match outcome {
        Scan::Token(_, _, end) => end,
        Scan::Error(_, end, _) => end,
    }
}

/// A scan reached the end of the source.
pub open spec fn scan_is_eof(outcome: Scan) -> bool {
    match outcome {
        Scan::Token(lexeme, _, _) => is_end_lexeme(lexeme),
        _ => false,
    }
}


// ---------------------------------------------------------------------------
// Facts about scanning.

proof fn lemma_word_end(src: Seq<u8>, p: int)
    requires
        0 <= p <= src.len(),
    ensures
        p <= word_end(src, p) <= src.len(),
        forall|k: int| p <= k < word_end(src, p) ==> is_word_byte(src[k]),
    decreases src.len() - p,
{
    if p < src.len() && is_word_byte(src[p]) {
        lemma_word_end(src, p + 1);
    }
}

proof fn lemma_digits_end(src: Seq<u8>, p: int)
    requires
        0 <= p <= src.len(),
    ensures
        p <= digits_end(src, p) <= src.len(),
        forall|k: int| p <= k < digits_end(src, p) ==> is_digit(src[k]),
    decreases src.len() - p,
{
    if p < src.len() && is_digit(src[p]) {
        lemma_digits_end(src, p + 1);
    }
}

proof fn lemma_skip_trivia(src: Seq<u8>, p: int)
    requires
        0 <= p <= src.len(),
    ensures
        p <= skip_trivia(src, p) <= src.len(),
    decreases src.len() - p,
{
    if 0 <= p < src.len() && is_space(src[p]) {
        lemma_skip_trivia(src, p + 1);
    } else if 0 <= p && p + 2 <= src.len() && src[p] == 47 && src[p + 1] == 47 {
        lemma_line_end(src, p + 1);
        lemma_skip_trivia(src, line_end(src, p + 1));
    }
}

proof fn lemma_scan_string(src: Seq<u8>, start: int, p: int, acc: Seq<u8>)
    requires
        0 <= start < p <= src.len(),
    ensures
        match scan_string(src, start, p, acc) {
            Scan::Token(lexeme, s, e) => !is_end_lexeme(lexeme) && s == start && p < e
                <= src.len(),
            Scan::Error(s, e, _) => s == start && p <= e <= src.len(),
        },
    decreases src.len() - p,
{
    if p < src.len() {
        let b = src[p];
        if b == 92 {
            if p + 1 < src.len() {
                if let Some(v) = string_escape(src[p + 1]) {
                    lemma_scan_string(src, start, p + 2, acc.push(v));
                }
            }
        } else if b != 34 && is_printable(b) {
            lemma_scan_string(src, start, p + 1, acc.push(b));
        }
    }
}

proof fn lemma_scan_punct(src: Seq<u8>, start: int)
    requires
        0 <= start < src.len(),
    ensures
        match scan_punct(src, start) {
            Scan::Token(lexeme, s, e) => !is_end_lexeme(lexeme) && s == start
                && start < e <= src.len(),
            Scan::Error(s, e, _) => s == start && e == start + 1,
        },
{
    let b = src[start];
    if b != 61 && b != 60 && b != 62 && !(b == 33 && start + 1 < src.len() && src[start + 1] == 61) {
        match single_punct(b) {
            Some(k) => {
                assert(k != TokenKind::Eof);
            },
            None => {},
        }
    }
}

proof fn lemma_scan_character(src: Seq<u8>, start: int)
    requires
        0 <= start < src.len(),
    ensures
        match scan_character(src, start) {
            Scan::Token(lexeme, s, e) => !is_end_lexeme(lexeme) && s == start
                && start < e <= src.len(),
            Scan::Error(s, e, _) => s == start && start < e <= src.len(),
        },
{
}

/// Every scan from a position inside the source stays inside the source and
/// moves forward: the end of input is an empty span at the source's length,
/// and every other token or error covers at least one byte at or after the
/// cursor. Consecutive lexer items therefore never overlap, and lexing always
/// reaches the end.
pub proof fn lemma_scan_bounds(src: Seq<u8>, cursor: int)
    requires
        0 <= cursor <= src.len(),
    ensures
        match scan(src, cursor) {
            Scan::Token(lexeme, s, e) => if is_end_lexeme(lexeme) {
                s == src.len() && e == src.len()
            } else {
                cursor <= s < e <= src.len()
            },
            Scan::Error(s, e, _) => cursor <= s < e <= src.len(),
        },
{
    lemma_skip_trivia(src, cursor);
    let start = skip_trivia(src, cursor);
    if start >= src.len() {
        assert(start == src.len());
        assert(scan(src, cursor) == Scan::Token(Lexeme::Fixed(TokenKind::Eof), start, start));
    } else {
        let b = src[start];
        if is_word_start(b) {
            lemma_word_end(src, start + 1);
            let e = word_end(src, start + 1);
            assert(scan(src, cursor) == Scan::Token(Lexeme::Word(src.subrange(start, e)), start, e));
        } else if is_digit(b) {
            lemma_digits_end(src, start + 1);
            let e = digits_end(src, start + 1);
            assert(scan(src, cursor) == Scan::Token(Lexeme::Number(src.subrange(start, e)), start, e));
        } else if b == 39 {
            lemma_scan_character(src, start);
        } else if b == 34 {
            lemma_scan_string(src, start, start + 1, Seq::empty());
        } else {
            lemma_scan_punct(src, start);
        }
    }
}

// ---------------------------------------------------------------------------
// The whole stream.

/// The range of source bytes a scan covers.
pub open spec fn scan_span(outcome: Scan) -> (int, int) {
    match outcome {
        Scan::Token(_, s, e) => (s, e),
        Scan::Error(s, e, _) => (s, e),
    }
}

/// The outcomes of scanning `src` from `cursor` until the end of input, each
/// scan starting where the previous one stopped. By the contract of
/// [`Lexer::next`], which yields the outcome of one scan and moves to its
/// end, these are the items a lexer standing at `cursor` yields, in order.
pub open spec fn scans(src: Seq<u8>, cursor: int) -> Seq<Scan>
    decreases src.len() - cursor,
{
    let outcome = scan(src, cursor);
    if scan_is_eof(outcome) || !(cursor < scan_end(outcome) <= src.len()) {
        seq![outcome]
    } else {
        seq![outcome] + scans(src, scan_end(outcome))
    }
}

/// The stream of a source ends with the end-of-input token, spanning the
/// empty range at the end of the source, and with no end-of-input token
/// before it; every item covers a range of the source, the ranges follow
/// each other in order without overlapping, and there are at most one more
/// items than bytes.
pub proof fn lemma_stream_shape(src: Seq<u8>, cursor: int)
    requires
        0 <= cursor <= src.len(),
    ensures
        1 <= scans(src, cursor).len() <= src.len() - cursor + 1,
        scan_is_eof(scans(src, cursor).last()),
        scan_span(scans(src, cursor).last()) == (src.len() as int, src.len() as int),
        forall|k: int| 0 <= k < scans(src, cursor).len() - 1 ==> !scan_is_eof(#[trigger] scans(src, cursor)[k]),
        forall|k: int|
            0 <= k < scans(src, cursor).len() ==> cursor <= (#[trigger] scan_span(scans(src, cursor)[k])).0
                <= scan_span(scans(src, cursor)[k]).1 <= src.len(),
        forall|i: int, j: int|
            0 <= i < j < scans(src, cursor).len() ==> (#[trigger] scan_span(scans(src, cursor)[i])).1
                <= (#[trigger] scan_span(scans(src, cursor)[j])).0,
    decreases src.len() - cursor,
{
    lemma_scan_bounds(src, cursor);
    let outcome = scan(src, cursor);
    let ss = scans(src, cursor);
    if scan_is_eof(outcome) {
        assert(ss =~= seq![outcome]);
    } else {
        let e = scan_end(outcome);
        assert(cursor < e <= src.len());
        let rest = scans(src, e);
        lemma_stream_shape(src, e);
        assert(ss =~= seq![outcome] + rest);
        assert forall|k: int| 0 <= k < ss.len() - 1 implies !scan_is_eof(#[trigger] ss[k]) by {
            if k > 0 {
                assert(ss[k] == rest[k - 1]);
            }
        }
        assert forall|k: int| 0 <= k < ss.len() implies cursor <= (#[trigger] scan_span(ss[k])).0
            <= scan_span(ss[k]).1 <= src.len() by {
            if k > 0 {
                assert(ss[k] == rest[k - 1]);
            }
        }
        assert forall|i: int, j: int| 0 <= i < j < ss.len() implies (#[trigger] scan_span(ss[i])).1
            <= (#[trigger] scan_span(ss[j])).0 by {
            assert(ss[j] == rest[j - 1]);
            if i > 0 {
                assert(ss[i] == rest[i - 1]);
            } else {
                assert(e <= scan_span(rest[j - 1]).0);
            }
        }
    }
}

// ---------------------------------------------------------------------------
// Scanning code.

fn error_at(start: usize, end: usize, message: String) -> (r: LexError)
    ensures
        r.span == (Span { start, end }),
        r.message == message,
{
    LexError { span: Span { start, end }, message }
}

fn skip_trivia_at(src: &[u8], p: usize) -> (r: usize)
    requires
        p <= src@.len(),
    ensures
        r == skip_trivia(src@, p as int),
{
    let len = src.len();
    let mut cursor = p;
    let ghost target = skip_trivia(src@, p as int);
    loop
        invariant
            len == src@.len(),
            cursor <= len,
            skip_trivia(src@, cursor as int) == target,
            target == skip_trivia(src@, p as int),
        decreases len - cursor,
    {
        let ghost round = cursor;
        while cursor < len && (src[cursor] == 32 || src[cursor] == 9 || src[cursor] == 13
            || src[cursor] == 10)
            invariant
                len == src@.len(),
                round <= cursor <= len,
                skip_trivia(src@, cursor as int) == target,
            decreases len - cursor,
        {
            cursor = cursor + 1;
        }
        if cursor < len && len - cursor >= 2 && src[cursor] == 47 && src[cursor + 1] == 47 {
            let ghost comment = cursor as int;
            assert(skip_trivia(src@, comment) == skip_trivia(src@, line_end(src@, comment + 1)));
            cursor = cursor + 1;
            while cursor < len && src[cursor] != 10
                invariant
                    len == src@.len(),
                    comment < cursor <= len,
                    line_end(src@, cursor as int) == line_end(src@, comment + 1),
                decreases len - cursor,
            {
                cursor = cursor + 1;
            }
        } else {
            assert(skip_trivia(src@, cursor as int) == cursor as int);
            return cursor;
        }
    }
}

/// Copies `src[start..end]`.
fn copy_range(src: &[u8], start: usize, end: usize) -> (r: Vec<u8>)
    requires
        start <= end <= src@.len(),
    ensures
        r@ == src@.subrange(start as int, end as int),
{
    let mut out: Vec<u8> = Vec::new();
    let mut i = start;
    while i < end
        invariant
            start <= i <= end <= src@.len(),
            out@ == src@.subrange(start as int, i as int),
        decreases end - i,
    {
        out.push(src[i]);
        i = i + 1;
        assert(out@ =~= src@.subrange(start as int, i as int));
    }
    out
}

/// The closing quote of a character literal whose value has been read.
fn close_character_at(src: &[u8], start: usize, q: usize, value: u8) -> (r: (
    Result<SpannedToken, LexError>,
    usize,
))
    requires
        start < q <= src@.len(),
    ensures
        item_is(r.0, close_character(src@, start as int, q as int, value)),
        r.1 == scan_end(close_character(src@, start as int, q as int, value)),
{
    if q < src.len() && src[q] == 39 {
        (Ok(SpannedToken { token: TokenKind::Character(value), span: Span { start, end: q + 1 } }), q + 1)
    } else if q < src.len() {
        (Err(error_at(start, q + 1, text("character literal must contain one character"))), q + 1)
    } else {
        (Err(error_at(start, q, text("character literal must contain one character"))), q)
    }
}

fn scan_character_at(src: &[u8], start: usize) -> (r: (Result<SpannedToken, LexError>, usize))
    requires
        start < src@.len(),
    ensures
        item_is(r.0, scan_character(src@, start as int)),
        r.1 == scan_end(scan_character(src@, start as int)),
{
    let len = src.len();
    let p = start + 1;
    if p >= len {
        return (Err(error_at(start, p, text("unterminated character literal"))), p);
    }
    let c = src[p];
    if c == 92 {
        if p + 1 >= len {
            return (Err(error_at(start, p + 1, text("unterminated character literal"))), p + 1);
        }
        let e = src[p + 1];
        let value: u8 = if e == 110 {
            10
        } else if e == 114 {
            13
        } else if e == 116 {
            9
        } else if e == 92 {
            92
        } else if e == 39 {
            39
        } else {
            let mut message = text("unknown character escape `\\");
            push_decimal(&mut message, e as u64);
            message.append("`");
            return (Err(error_at(start, p + 2, message)), p + 2);
        };
        close_character_at(src, start, p + 2, value)
    } else if 0x20 <= c && c <= 0x7e {
        close_character_at(src, start, p + 1, c)
    } else {
        let mut message = text("invalid character byte 0x");
        push_hex_byte(&mut message, c);
        (Err(error_at(start, p + 1, message)), p + 1)
    }
}

fn scan_string_at(src: &[u8], start: usize) -> (r: (Result<SpannedToken, LexError>, usize))
    requires
        start < src@.len(),
    ensures
        item_is(r.0, scan_string(src@, start as int, start + 1, Seq::empty())),
        r.1 == scan_end(scan_string(src@, start as int, start + 1, Seq::empty())),
{
    let len = src.len();
    let mut value: Vec<u8> = Vec::new();
    let mut p = start + 1;
    let ghost target = scan_string(src@, start as int, start + 1, Seq::empty());
    loop
        invariant
            len == src@.len(),
            start < p <= len,
            scan_string(src@, start as int, p as int, value@) == target,
            target == scan_string(src@, start as int, start + 1, Seq::<u8>::empty()),
        decreases len - p,
    {
        if p >= len {
            assert(scan_string(src@, start as int, p as int, value@) == Scan::Error(
                start as int,
                p as int,
                unterminated_string(),
            ));
            return (Err(error_at(start, p, text("unterminated string literal"))), p);
        }
        let b = src[p];
        if b == 34 {
            assert(scan_string(src@, start as int, p as int, value@) == Scan::Token(
                Lexeme::Text(value@),
                start as int,
                p + 1,
            ));
            return (Ok(SpannedToken { token: TokenKind::StringLiteral(value), span: Span { start, end: p + 1 } }), p + 1);
        } else if b == 92 {
            if p + 1 >= len {
                return (Err(error_at(start, p + 1, text("unterminated string literal"))), p + 1);
            }
            let e = src[p + 1];
            let v: u8 = if e == 110 {
                10
            } else if e == 114 {
                13
            } else if e == 116 {
                9
            } else if e == 92 {
                92
            } else if e == 39 {
                39
            } else if e == 34 {
                34
            } else {
                let mut message = text("unknown string escape `\\");
                push_decimal(&mut message, e as u64);
                message.append("`");
                return (Err(error_at(start, p + 2, message)), p + 2);
            };
            value.push(v);
            p = p + 2;
        } else if 0x20 <= b && b <= 0x7e {
            value.push(b);
            p = p + 1;
        } else {
            let mut message = text("invalid string byte 0x");
            push_hex_byte(&mut message, b);
            return (Err(error_at(start, p + 1, message)), p + 1);
        }
    }
}

fn fixed_token(token: TokenKind, start: usize, end: usize) -> (r: (Result<SpannedToken, LexError>, usize))
    ensures
        r.0 == Ok::<SpannedToken, LexError>(SpannedToken { token, span: Span { start, end } }),
        r.1 == end,
{
    (Ok(SpannedToken { token, span: Span { start, end } }), end)
}

fn scan_punct_at(src: &[u8], start: usize) -> (r: (Result<SpannedToken, LexError>, usize))
    requires
        start < src@.len(),
    ensures
        item_is(r.0, scan_punct(src@, start as int)),
        r.1 == scan_end(scan_punct(src@, start as int)),
{
    let len = src.len();
    let b = src[start];
    let has_next = start + 1 < len;
    let next: u8 = if has_next { src[start + 1] } else { 0 };
    if b == 61 {
        if has_next && next == 61 {
            fixed_token(TokenKind::EqualEqual, start, start + 2)
        } else {
            fixed_token(TokenKind::Equal, start, start + 1)
        }
    } else if b == 33 && has_next && next == 61 {
        fixed_token(TokenKind::NotEqual, start, start + 2)
    } else if b == 60 {
        if has_next && next == 61 {
            fixed_token(TokenKind::LessEqual, start, start + 2)
        } else if has_next && next == 60 {
            fixed_token(TokenKind::LessLess, start, start + 2)
        } else {
            fixed_token(TokenKind::Less, start, start + 1)
        }
    } else if b == 62 {
        if has_next && next == 61 {
            fixed_token(TokenKind::GreaterEqual, start, start + 2)
        } else if has_next && next == 62 {
            fixed_token(TokenKind::GreaterGreater, start, start + 2)
        } else {
            fixed_token(TokenKind::Greater, start, start + 1)
        }
    } else if b == 43 {
        fixed_token(TokenKind::Plus, start, start + 1)
    } else if b == 45 {
        fixed_token(TokenKind::Minus, start, start + 1)
    } else if b == 42 {
        fixed_token(TokenKind::Star, start, start + 1)
    } else if b == 47 {
        fixed_token(TokenKind::Slash, start, start + 1)
    } else if b == 38 {
        fixed_token(TokenKind::Ampersand, start, start + 1)
    } else if b == 124 {
        fixed_token(TokenKind::Pipe, start, start + 1)
    } else if b == 94 {
        fixed_token(TokenKind::Caret, start, start + 1)
    } else if b == 126 {
        fixed_token(TokenKind::Tilde, start, start + 1)
    } else if b == 59 {
        fixed_token(TokenKind::Semicolon, start, start + 1)
    } else if b == 44 {
        fixed_token(TokenKind::Comma, start, start + 1)
    } else if b == 40 {
        fixed_token(TokenKind::LeftParen, start, start + 1)
    } else if b == 41 {
        fixed_token(TokenKind::RightParen, start, start + 1)
    } else if b == 123 {
        fixed_token(TokenKind::LeftBrace, start, start + 1)
    } else if b == 125 {
        fixed_token(TokenKind::RightBrace, start, start + 1)
    } else if b == 91 {
        fixed_token(TokenKind::LeftBracket, start, start + 1)
    } else if b == 93 {
        fixed_token(TokenKind::RightBracket, start, start + 1)
    } else if b == 46 {
        fixed_token(TokenKind::Dot, start, start + 1)
    } else {
        let mut message = text("unexpected byte 0x");
        push_hex_byte(&mut message, b);
        (Err(error_at(start, start + 1, message)), start + 1)
    }
}

/// Scans the token (or error) at `cursor`, returning it with the position
/// where scanning stopped.
fn scan_at(src: &[u8], cursor: usize) -> (r: (Result<SpannedToken, LexError>, usize))
    requires
        cursor <= src@.len(),
    ensures
        item_is(r.0, scan(src@, cursor as int)),
        r.1 == scan_end(scan(src@, cursor as int)),
{
    let len = src.len();
    let start = skip_trivia_at(src, cursor);
    proof {
        lemma_skip_trivia(src@, cursor as int);
    }
    if start >= len {
        return fixed_token(TokenKind::Eof, start, start);
    }
    let b = src[start];
    if (97 <= b && b <= 122) || (65 <= b && b <= 90) || b == 95 {
        let mut end = start + 1;
        while end < len && ((97 <= src[end] && src[end] <= 122) || (65 <= src[end] && src[end] <= 90)
            || src[end] == 95 || (48 <= src[end] && src[end] <= 57))
            invariant
                len == src@.len(),
                start < end <= len,
                word_end(src@, end as int) == word_end(src@, start + 1),
                forall|k: int| start <= k < end ==> is_word_byte(#[trigger] src@[k]),
            decreases len - end,
        {
            end = end + 1;
        }
        let bytes = copy_range(src, start, end);
        assert(is_ascii_bytes(bytes@));
        let word = string_from_ascii(bytes);
        let token = TokenKind::from_identifier(word);
        fixed_token(token, start, end)
    } else if 48 <= b && b <= 57 {
        let mut end = start + 1;
        while end < len && 48 <= src[end] && src[end] <= 57
            invariant
                len == src@.len(),
                start < end <= len,
                digits_end(src@, end as int) == digits_end(src@, start + 1),
                forall|k: int| start <= k < end ==> is_digit(#[trigger] src@[k]),
            decreases len - end,
        {
            end = end + 1;
        }
        let bytes = copy_range(src, start, end);
        assert(is_ascii_bytes(bytes@));
        let digits = string_from_ascii(bytes);
        fixed_token(TokenKind::Integer(digits), start, end)
    } else if b == 39 {
        scan_character_at(src, start)
    } else if b == 34 {
        scan_string_at(src, start)
    } else {
        scan_punct_at(src, start)
    }
}

/// A single-pass scanner over K source text.
pub struct Lexer<'source> {
    source: &'source [u8],
    cursor: usize,
    done: bool,
}

impl<'source> Lexer<'source> {
    #[verifier::type_invariant]
    spec fn cursor_in_source(&self) -> bool {
        self.cursor <= self.source@.len()
    }

    /// The bytes being scanned.
    pub closed spec fn source_bytes(&self) -> Seq<u8> {
        self.source@
    }

    /// Where the next scan starts.
    pub closed spec fn position(&self) -> int {
        self.cursor as int
    }

    /// The end of input has been reported.
    pub closed spec fn finished(&self) -> bool {
        self.done
    }

    pub fn new(source: &'source str) -> (r: Self)
        ensures
            r.source_bytes() == source.spec_bytes(),
            r.position() == 0,
            !r.finished(),
    {
        Lexer { source: source.as_bytes(), cursor: 0, done: false }
    }

    /// The next token or error; after the end-of-input token it yields nothing.
    pub fn next(&mut self) -> (item: Option<Result<SpannedToken, LexError>>)
        ensures
            final(self).source_bytes() == old(self).source_bytes(),
            old(self).finished() ==> item is None && final(self).finished(),
            !old(self).finished() ==> {
                let outcome = scan(old(self).source_bytes(), old(self).position());
                &&& item matches Some(it) && item_is(it, outcome)
                &&& final(self).position() == scan_end(outcome)
                &&& final(self).finished() == scan_is_eof(outcome)
            },
    {
        proof {
            use_type_invariant(&*self);
        }
        if self.done {
            return None;
        }
        let (item, end) = scan_at(self.source, self.cursor);
        proof {
            lemma_scan_bounds(self.source@, self.cursor as int);
        }
        let eof = match &item {
            Ok(tok) => match tok.token {
                TokenKind::Eof => true,
                _ => false,
            },
            Err(_) => false,
        };
        proof {
            let outcome = scan(self.source@, self.cursor as int);
            if eof {
                assert(scan_is_eof(outcome));
            } else {
                assert(!scan_is_eof(outcome));
            }
        }
        self.cursor = end;
        self.done = eof;
        Some(item)
    }

    /// Every item the lexer has left, in order: what calling [`Lexer::next`]
    /// until it yields nothing gives. From a new lexer these are the whole
    /// stream of the source, shaped as [`items_shaped`] says.
    pub fn items(&mut self) -> (r: Vec<Result<SpannedToken, LexError>>)
        ensures
            final(self).source_bytes() == old(self).source_bytes(),
            final(self).finished(),
            old(self).finished() ==> r@.len() == 0,
            !old(self).finished() ==> items_scanned(old(self).source_bytes(), old(self).position(), r@),
            !old(self).finished() && old(self).position() == 0 ==> items_shaped(old(self).source_bytes(), r@),
    {
        proof {
            use_type_invariant(&*self);
        }
        let length = self.source.len();
        let ghost src = self.source@;
        let ghost start = self.cursor as int;
        let ghost was_finished = self.done;
        let mut r: Vec<Result<SpannedToken, LexError>> = Vec::new();
        proof {
            if !was_finished {
                assert(scans(src, start).take(0) + scans(src, start) =~= scans(src, start));
            }
        }
        loop
            invariant_except_break
                0 <= self.position() <= src.len(),
                !was_finished ==> if self.finished() {
                    r@.len() == scans(src, start).len()
                } else {
                    scans(src, start) == scans(src, start).take(r@.len() as int) + scans(src, self.position())
                },
            invariant
                self.source_bytes() == src,
                src.len() == length,
                was_finished ==> r@.len() == 0 && self.finished(),
                !was_finished ==> {
                    &&& 0 <= start <= src.len()
                    &&& r@.len() <= scans(src, start).len()
                    &&& forall|k: int| 0 <= k < r@.len() ==> item_is(#[trigger] r@[k], scans(src, start)[k])
                },
            ensures
                self.source_bytes() == src,
                self.finished(),
                was_finished ==> r@.len() == 0,
                !was_finished ==> r@.len() == scans(src, start).len(),
            decreases src.len() - self.position() + if self.finished() { 0int } else { 1int },
        {
            let ghost before = self.position();
            let ghost before_finished = self.finished();
            proof {
                if !before_finished {
                    lemma_scan_bounds(src, before);
                }
            }
            match self.next() {
                Some(item) => {
                    proof {
                        let outcome = scan(src, before);
                        let rest = scans(src, before);
                        if scan_is_eof(outcome) || !(before < scan_end(outcome) <= src.len()) {
                            assert(rest =~= seq![outcome]);
                        } else {
                            assert(rest =~= seq![outcome] + scans(src, scan_end(outcome)));
                        }
                        let n = r@.len() as int;
                        assert(scans(src, start)[n] == rest[0]);
                        if !scan_is_eof(outcome) {
                            assert(scans(src, start).take(n + 1) + scans(src, scan_end(outcome)) =~= scans(src, start));
                        } else {
                            assert(scans(src, start).len() == n + 1);
                        }
                    }
                    r.push(item);
                    proof {
                        use_type_invariant(&*self);
                    }
                },
                None => {
                    assert(before_finished);
                    break;
                },
            }
        }
        proof {
            if !was_finished && start == 0 {
                lemma_items_shaped(src, r@);
            }
        }
        r
    }
}


/// The range of source bytes an item covers.
pub open spec fn item_span(item: Result<SpannedToken, LexError>) -> Span {
    match item {
        Ok(token) => token.span,
        Err(error) => error.span,
    }
}

/// The item is the end-of-input token.
pub open spec fn is_end_item(item: Result<SpannedToken, LexError>) -> bool {
    item matches Ok(token) && token.token == TokenKind::Eof
}

/// The items are the outcomes of scanning `src` from `cursor` to the end,
/// one for each scan, in order.
pub open spec fn items_scanned(src: Seq<u8>, cursor: int, items: Seq<Result<SpannedToken, LexError>>) -> bool {
    &&& items.len() == scans(src, cursor).len()
    &&& forall|k: int| 0 <= k < items.len() ==> item_is(#[trigger] items[k], scans(src, cursor)[k])
}

/// The shape of a source's whole stream of items: at least one and at most
/// one more than the bytes; the last, and only the last, is the end-of-input
/// token, spanning the empty range at the end of the source; every item
/// covers a range of the source, and the ranges follow each other in order
/// without overlapping.
pub open spec fn items_shaped(src: Seq<u8>, items: Seq<Result<SpannedToken, LexError>>) -> bool {
    &&& 1 <= items.len() <= src.len() + 1
    &&& is_end_item(items.last())
    &&& item_span(items.last()).start == src.len() && item_span(items.last()).end == src.len()
    &&& forall|k: int| 0 <= k < items.len() - 1 ==> !is_end_item(#[trigger] items[k])
    &&& forall|k: int|
        0 <= k < items.len() ==> (#[trigger] item_span(items[k])).start <= item_span(items[k]).end <= src.len()
    &&& forall|i: int, j: int|
        0 <= i < j < items.len() ==> (#[trigger] item_span(items[i])).end <= (#[trigger] item_span(items[j])).start
}

proof fn lemma_item_of_scan(item: Result<SpannedToken, LexError>, outcome: Scan)
    requires
        item_is(item, outcome),
    ensures
        item_span(item) == span_of(scan_span(outcome).0, scan_span(outcome).1),
        is_end_item(item) == scan_is_eof(outcome),
{
    match outcome {
        Scan::Token(lexeme, _, _) => {
            if let Ok(token) = item {
                match lexeme {
                    Lexeme::Word(w) => {
                        if keyword(ascii_chars(w)) is Some {
                            assert(keyword(ascii_chars(w))->0 != TokenKind::Eof);
                        }
                    },
                    _ => {},
                }
            }
        },
        _ => {},
    }
}

/// The items of a source's whole stream, scanned from its start, are shaped
/// as [`items_shaped`] says.
pub proof fn lemma_items_shaped(src: Seq<u8>, items: Seq<Result<SpannedToken, LexError>>)
    requires
        src.len() <= usize::MAX,
        items_scanned(src, 0, items),
    ensures
        items_shaped(src, items),
{
    lemma_stream_shape(src, 0);
    let ss = scans(src, 0);
    assert forall|k: int| 0 <= k < items.len() implies item_span(#[trigger] items[k]) == span_of(
        scan_span(ss[k]).0,
        scan_span(ss[k]).1,
    ) && is_end_item(items[k]) == scan_is_eof(ss[k]) by {
        lemma_item_of_scan(items[k], ss[k]);
    }
    let n = items.len() - 1;
    assert(items.last() == items[n] && ss.last() == ss[n]);
    assert forall|k: int| 0 <= k < items.len() implies (#[trigger] item_span(items[k])).start <= item_span(
        items[k],
    ).end <= src.len() by {
        assert(0 <= scan_span(ss[k]).0 <= scan_span(ss[k]).1 <= src.len());
    }
    assert forall|i: int, j: int| 0 <= i < j < items.len() implies (#[trigger] item_span(items[i])).end
        <= (#[trigger] item_span(items[j])).start by {
        assert(scan_span(ss[i]).1 <= scan_span(ss[j]).0);
        assert(0 <= scan_span(ss[j]).0 <= scan_span(ss[j]).1 <= src.len());
        assert(0 <= scan_span(ss[i]).0 <= scan_span(ss[i]).1 <= src.len());
    }
    assert forall|k: int| 0 <= k < items.len() - 1 implies !is_end_item(#[trigger] items[k]) by {
        assert(!scan_is_eof(ss[k]));
    }
}

/// `tokens` is exactly what the lexer yields from `cursor` on when it reaches
/// the end without an error: consecutive scans, the last being the end of input.
pub open spec fn token_stream(src: Seq<u8>, cursor: int, tokens: Seq<SpannedToken>) -> bool
    decreases tokens.len(),
{
    tokens.len() > 0 && match scan(src, cursor) {
        Scan::Token(lexeme, s, e) => token_is(tokens[0], lexeme, s, e) && if is_end_lexeme(
            lexeme,
        ) {
            tokens.len() == 1
        } else {
            token_stream(src, e, tokens.drop_first())
        },
        Scan::Error(_, _, _) => false,
    }
}

/// Lexing from `cursor` on meets an error before the end, and `error` is it.
pub open spec fn stream_error(src: Seq<u8>, cursor: int, error: LexError) -> bool
    decreases src.len() - cursor,
{
    match scan(src, cursor) {
        Scan::Error(s, e, message) => error.span == span_of(s, e) && error.message@ == message,
        Scan::Token(lexeme, _, e) => !is_end_lexeme(lexeme) && cursor < e <= src.len()
            && stream_error(src, e, error),
    }
}

/// A source that lexes to a token stream has no lexical error.
pub proof fn lemma_stream_exclusive(src: Seq<u8>, cursor: int, tokens: Seq<SpannedToken>, error: LexError)
    requires
        token_stream(src, cursor, tokens),
    ensures
        !stream_error(src, cursor, error),
    decreases tokens.len(),
{
    match scan(src, cursor) {
        Scan::Token(lexeme, s, e) => {
            if !is_end_lexeme(lexeme) {
                lemma_stream_exclusive(src, e, tokens.drop_first(), error);
            }
        },
        Scan::Error(_, _, _) => {},
    }
}

/// The lexical error of a source is determined by the source.
pub proof fn lemma_stream_error_unique(src: Seq<u8>, cursor: int, a: LexError, b: LexError)
    requires
        stream_error(src, cursor, a),
        stream_error(src, cursor, b),
    ensures
        a.span == b.span,
        a.message@ == b.message@,
    decreases src.len() - cursor,
{
    match scan(src, cursor) {
        Scan::Token(lexeme, s, e) => {
            lemma_stream_error_unique(src, e, a, b);
        },
        Scan::Error(_, _, _) => {},
    }
}

/// A complete token stream is not empty and its last token is the end of input.
pub proof fn lemma_token_stream_ends(src: Seq<u8>, cursor: int, tokens: Seq<SpannedToken>)
    requires
        token_stream(src, cursor, tokens),
    ensures
        tokens.len() > 0,
        tokens.last().token == TokenKind::Eof,
    decreases tokens.len(),
{
    match scan(src, cursor) {
        Scan::Token(lexeme, s, e) => {
            if is_end_lexeme(lexeme) {
                assert(tokens.last() == tokens[0]);
            } else {
                lemma_token_stream_ends(src, e, tokens.drop_first());
                assert(tokens.last() == tokens.drop_first().last());
            }
        },
        Scan::Error(_, _, _) => {},
    }
}

/// Lexes a complete source, stopping at the first error.
pub fn tokenize(source: &str) -> (r: Result<Vec<SpannedToken>, LexError>)
    ensures
        match r {
            Ok(tokens) => token_stream(source.spec_bytes(), 0, tokens@),
            Err(error) => stream_error(source.spec_bytes(), 0, error),
        },
{
    let mut lexer = Lexer::new(source);
    let ghost src = lexer.source_bytes();
    let mut tokens: Vec<SpannedToken> = Vec::new();
    assert forall|rest: Seq<SpannedToken>| token_stream(src, 0, rest) implies #[trigger] token_stream(
        src,
        0,
        tokens@ + rest,
    ) by {
        assert(tokens@ + rest =~= rest);
    }
    loop
        invariant
            lexer.source_bytes() == src,
            src == source.spec_bytes(),
            !lexer.finished(),
            0 <= lexer.position() <= src.len(),
            forall|rest: Seq<SpannedToken>|
                token_stream(src, lexer.position(), rest) ==> #[trigger] token_stream(
                    src,
                    0,
                    tokens@ + rest,
                ),
            forall|error: LexError|
                stream_error(src, lexer.position(), error) ==> #[trigger] stream_error(
                    src,
                    0,
                    error,
                ),
        decreases src.len() - lexer.position(),
    {
        let ghost pos = lexer.position();
        proof {
            lemma_scan_bounds(src, pos);
        }
        let item = lexer.next();
        match item {
            Some(Ok(tok)) => {
                let ghost outcome = scan(src, pos);
                let is_end = match tok.token {
                    TokenKind::Eof => true,
                    _ => false,
                };
                if is_end {
                    proof {
                        assert(token_stream(src, pos, seq![tok]));
                        assert(token_stream(src, 0, tokens@ + seq![tok]));
                        assert(tokens@ + seq![tok] =~= tokens@.push(tok));
                    }
                    tokens.push(tok);
                    return Ok(tokens);
                }
                let ghost before = tokens@;
                tokens.push(tok);
                proof {
                    let e = lexer.position();
                    assert forall|rest: Seq<SpannedToken>|
                        token_stream(src, e, rest) implies #[trigger] token_stream(
                        src,
                        0,
                        tokens@ + rest,
                    ) by {
                        let longer = seq![tok] + rest;
                        assert(longer.drop_first() =~= rest);
                        assert(token_stream(src, pos, longer));
                        assert(before + longer =~= tokens@ + rest);
                    }
                    assert forall|error: LexError|
                        stream_error(src, e, error) implies #[trigger] stream_error(
                        src,
                        0,
                        error,
                    ) by {
                        assert(stream_error(src, pos, error));
                    }
                }
            },
            Some(Err(error)) => {
                proof {
                    assert(stream_error(src, pos, error));
                    assert(stream_error(src, 0, error));
                }
                return Err(error);
            },
            None => {
                assert(false);
                return Err(error_at(0, 0, String::new()));
            },
        }
    }
}

/// How a list of byte values is written for debugging: `[1, 2, 3]`.
pub open spec fn byte_list(bytes: Seq<u8>) -> Seq<char> {
    "["@ + byte_items(bytes) + "]"@
}

/// The comma-separated decimal values of a list of bytes.
pub open spec fn byte_items(bytes: Seq<u8>) -> Seq<char>
    decreases bytes.len(),
{
    if bytes.len() == 0 {
        Seq::empty()
    } else if bytes.len() == 1 {
        decimal(bytes[0] as nat)
    } else {
        byte_items(bytes.drop_last()) + ", "@ + decimal(bytes.last() as nat)
    }
}

/// How a token is written in diagnostics and token dumps.
pub open spec fn token_text(token: TokenKind) -> Seq<char> {
    match token {
        TokenKind::Identifier(v) => "identifier("@ + v@ + ")"@,
        TokenKind::Integer(v) => "integer("@ + v@ + ")"@,
        TokenKind::Character(v) => "character("@ + decimal(v as nat) + ")"@,
        TokenKind::StringLiteral(v) => "string("@ + byte_list(v@) + ")"@,
        TokenKind::Int => "int"@,
        TokenKind::Char => "char"@,
        TokenKind::U8 => "u8"@,
        TokenKind::U16 => "u16"@,
        TokenKind::U32 => "u32"@,
        TokenKind::U64 => "u64"@,
        TokenKind::I32 => "i32"@,
        TokenKind::I64 => "i64"@,
        TokenKind::Bool => "bool"@,
        TokenKind::Struct => "struct"@,
        TokenKind::Extern => "extern"@,
        TokenKind::If => "if"@,
        TokenKind::Else => "else"@,
        TokenKind::While => "while"@,
        TokenKind::Return => "return"@,
        TokenKind::Let => "let"@,
        TokenKind::True => "true"@,
        TokenKind::False => "false"@,
        TokenKind::Plus => "+"@,
        TokenKind::Minus => "-"@,
        TokenKind::Star => "*"@,
        TokenKind::Slash => "/"@,
        TokenKind::Equal => "="@,
        TokenKind::EqualEqual => "=="@,
        TokenKind::NotEqual => "!="@,
        TokenKind::Less => "<"@,
        TokenKind::LessEqual => "<="@,
        TokenKind::Greater => ">"@,
        TokenKind::GreaterEqual => ">="@,
        TokenKind::Ampersand => "&"@,
        TokenKind::Pipe => "|"@,
        TokenKind::Caret => "^"@,
        TokenKind::Tilde => "~"@,
        TokenKind::LessLess => "<<"@,
        TokenKind::GreaterGreater => ">>"@,
        TokenKind::Semicolon => ";"@,
        TokenKind::Comma => ","@,
        TokenKind::LeftParen => "("@,
        TokenKind::RightParen => ")"@,
        TokenKind::LeftBrace => "{"@,
        TokenKind::RightBrace => "}"@,
        TokenKind::LeftBracket => "["@,
        TokenKind::RightBracket => "]"@,
        TokenKind::Dot => "."@,
        TokenKind::Eof => "eof"@,
    }
}

/// Appends the debug rendering of a byte list.
fn push_byte_list(out: &mut String, bytes: &Vec<u8>)
    ensures
        final(out)@ == old(out)@ + byte_list(bytes@),
{
    let ghost before = out@;
    out.append("[");
    let mut i: usize = 0;
    while i < bytes.len()
        invariant
            0 <= i <= bytes@.len(),
            out@ == before + "["@ + byte_items(bytes@.take(i as int)),
        decreases bytes@.len() - i,
    {
        let ghost prefix = out@;
        if i > 0 {
            out.append(", ");
        }
        push_decimal(out, bytes[i] as u64);
        proof {
            let next = bytes@.take(i + 1);
            assert(next.drop_last() =~= bytes@.take(i as int));
            if i == 0 {
                assert(byte_items(bytes@.take(0)) =~= Seq::<char>::empty());
            }
        }
        i = i + 1;
        assert(out@ =~= before + "["@ + byte_items(bytes@.take(i as int)));
    }
    assert(bytes@.take(bytes@.len() as int) =~= bytes@);
    out.append("]");
    assert(out@ =~= before + byte_list(bytes@));
}

impl TokenKind {
    /// The token as written in diagnostics and token dumps.
    pub fn to_string(&self) -> (r: String)
        ensures
            r@ == token_text(*self),
    {
        match self {
            TokenKind::Identifier(v) => {
                let mut out = text("identifier(");
                out.append(v.as_str());
                out.append(")");
                out
            },
            TokenKind::Integer(v) => {
                let mut out = text("integer(");
                out.append(v.as_str());
                out.append(")");
                out
            },
            TokenKind::Character(v) => {
                let mut out = text("character(");
                push_decimal(&mut out, *v as u64);
                out.append(")");
                out
            },
            TokenKind::StringLiteral(v) => {
                let mut out = text("string(");
                push_byte_list(&mut out, v);
                out.append(")");
                out
            },
            TokenKind::Int => text("int"),
            TokenKind::Char => text("char"),
            TokenKind::U8 => text("u8"),
            TokenKind::U16 => text("u16"),
            TokenKind::U32 => text("u32"),
            TokenKind::U64 => text("u64"),
            TokenKind::I32 => text("i32"),
            TokenKind::I64 => text("i64"),
            TokenKind::Bool => text("bool"),
            TokenKind::Struct => text("struct"),
            TokenKind::Extern => text("extern"),
            TokenKind::If => text("if"),
            TokenKind::Else => text("else"),
            TokenKind::While => text("while"),
            TokenKind::Return => text("return"),
            TokenKind::Let => text("let"),
            TokenKind::True => text("true"),
            TokenKind::False => text("false"),
            TokenKind::Plus => text("+"),
            TokenKind::Minus => text("-"),
            TokenKind::Star => text("*"),
            TokenKind::Slash => text("/"),
            TokenKind::Equal => text("="),
            TokenKind::EqualEqual => text("=="),
            TokenKind::NotEqual => text("!="),
            TokenKind::Less => text("<"),
            TokenKind::LessEqual => text("<="),
            TokenKind::Greater => text(">"),
            TokenKind::GreaterEqual => text(">="),
            TokenKind::Ampersand => text("&"),
            TokenKind::Pipe => text("|"),
            TokenKind::Caret => text("^"),
            TokenKind::Tilde => text("~"),
            TokenKind::LessLess => text("<<"),
            TokenKind::GreaterGreater => text(">>"),
            TokenKind::Semicolon => text(";"),
            TokenKind::Comma => text(","),
            TokenKind::LeftParen => text("("),
            TokenKind::RightParen => text(")"),
            TokenKind::LeftBrace => text("{"),
            TokenKind::RightBrace => text("}"),
            TokenKind::LeftBracket => text("["),
            TokenKind::RightBracket => text("]"),
            TokenKind::Dot => text("."),
            TokenKind::Eof => text("eof"),
        }
    }
}

} // verus!
