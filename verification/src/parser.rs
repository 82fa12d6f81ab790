//! Recursive-descent parser for K.
//!
//! The parser accepts the grammar documented in the language notes: struct
//! definitions, `extern` declarations and function definitions at the top
//! level; blocks, declarations, `let`, assignments, `return`, `if`/`else`,
//! `while` and expression statements; and expressions with C-like
//! precedence, prefix operators, casts, calls, indexing and field selection.

use vstd::prelude::*;
use vstd::string::StringSliceAdditionalSpecFns;

use crate::ast::{
    BinaryOperator, Block, Expression, ExternFunction, Function, Parameter, Program, Statement,
    StructDefinition, StructField, Type, UnaryOperator, copy_bytes, copy_string,
};
use crate::lexer::{
    LexError, Span, SpannedToken, TokenKind, span_text, stream_error, token_stream, token_text, tokenize,
    lemma_stream_error_unique, lemma_stream_exclusive, lemma_token_stream_ends,
};
use crate::grammar::{
    after_parameter, extern_end, fields_end, function_end, items_end, lemma_program_end,
    parameter_list_end, parameters_end, struct_end,
    block_end, statement_end, statements_end,
    arguments_end, binary_end, expression_end, operand_end, operators_end, postfix_end, prefix_end,
    extern_from, field_from, fields_from, function_from, items_from, parameter_from,
    parameter_list_from, parameters_from, program_from, struct_from,
    block_from, statement_from, statements_from, statement_follows, starts_declaration, tokens_span,
    arguments_from, base_type_at, binary_from, binary_operator_of, chain_from, expression_from,
    identifier_at, keyword_type, operand_from, pointer_suffix, postfix_chain_from, prefix_from,
    starts_type, tok_is, type_at, unary_operator_of, word_at,
};
use crate::reading::{lemma_program_unique, same_program};
use crate::syntax_error::{
    after_parameter_stop, after_take, arguments_stop, binary_stop, fields_stop, operators_stop,
    parameter_list_stop, statements_stop, block_stop, expect_stop, expression_stop, extern_stop, function_stop,
    identifier_stop, items_stop, parameters_stop, postfix_stop, prefix_stop, statement_stop, stop,
    struct_stop, type_stop,
};
use crate::text::{str_equal, text};

verus! {

/// A syntax error with the source position where parsing stopped.
#[derive(Clone, Debug, PartialEq, Eq)]
pub struct ParseError {
    pub span: Span,
    pub message: String,
}

impl ParseError {
    /// The diagnostic text: `parse error at start..end: message`.
    pub fn to_string(&self) -> (r: String)
        ensures
            r@ == "parse error at "@ + span_text(self.span) + ": "@ + self.message@,
    {
        let mut out = text("parse error at ");
        let span = self.span.to_string();
        out.append(span.as_str());
        out.append(": ");
        out.append(self.message.as_str());
        out
    }

    /// A lexical error reported as a syntax error at the same place.
    pub fn from_lex(error: LexError) -> (r: ParseError)
        ensures
            r.span == error.span,
            r.message == error.message,
    {
        ParseError { span: error.span, message: error.message }
    }
}

/// The variant of a token, ignoring any text it carries.
pub open spec fn token_tag(k: TokenKind) -> nat {
    match k {
        TokenKind::Identifier(_) => 0,
        TokenKind::Integer(_) => 1,
        TokenKind::Character(_) => 2,
        TokenKind::StringLiteral(_) => 3,
        TokenKind::Int => 4,
        TokenKind::Char => 5,
        TokenKind::U8 => 6,
        TokenKind::U16 => 7,
        TokenKind::U32 => 8,
        TokenKind::U64 => 9,
        TokenKind::I32 => 10,
        TokenKind::I64 => 11,
        TokenKind::Bool => 12,
        TokenKind::Struct => 13,
        TokenKind::Extern => 14,
        TokenKind::If => 15,
        TokenKind::Else => 16,
        TokenKind::While => 17,
        TokenKind::Return => 18,
        TokenKind::Let => 19,
        TokenKind::True => 20,
        TokenKind::False => 21,
        TokenKind::Plus => 22,
        TokenKind::Minus => 23,
        TokenKind::Star => 24,
        TokenKind::Slash => 25,
        TokenKind::Equal => 26,
        TokenKind::EqualEqual => 27,
        TokenKind::NotEqual => 28,
        TokenKind::Less => 29,
        TokenKind::LessEqual => 30,
        TokenKind::Greater => 31,
        TokenKind::GreaterEqual => 32,
        TokenKind::Ampersand => 33,
        TokenKind::Pipe => 34,
        TokenKind::Caret => 35,
        TokenKind::Tilde => 36,
        TokenKind::LessLess => 37,
        TokenKind::GreaterGreater => 38,
        TokenKind::Semicolon => 39,
        TokenKind::Comma => 40,
        TokenKind::LeftParen => 41,
        TokenKind::RightParen => 42,
        TokenKind::LeftBrace => 43,
        TokenKind::RightBrace => 44,
        TokenKind::LeftBracket => 45,
        TokenKind::RightBracket => 46,
        TokenKind::Dot => 47,
        TokenKind::Eof => 48,
    }
}

fn tag_of(k: &TokenKind) -> (r: u8)
    ensures
        r == token_tag(*k),
{
    match k {
        TokenKind::Identifier(_) => 0,
        TokenKind::Integer(_) => 1,
        TokenKind::Character(_) => 2,
        TokenKind::StringLiteral(_) => 3,
        TokenKind::Int => 4,
        TokenKind::Char => 5,
        TokenKind::U8 => 6,
        TokenKind::U16 => 7,
        TokenKind::U32 => 8,
        TokenKind::U64 => 9,
        TokenKind::I32 => 10,
        TokenKind::I64 => 11,
        TokenKind::Bool => 12,
        TokenKind::Struct => 13,
        TokenKind::Extern => 14,
        TokenKind::If => 15,
        TokenKind::Else => 16,
        TokenKind::While => 17,
        TokenKind::Return => 18,
        TokenKind::Let => 19,
        TokenKind::True => 20,
        TokenKind::False => 21,
        TokenKind::Plus => 22,
        TokenKind::Minus => 23,
        TokenKind::Star => 24,
        TokenKind::Slash => 25,
        TokenKind::Equal => 26,
        TokenKind::EqualEqual => 27,
        TokenKind::NotEqual => 28,
        TokenKind::Less => 29,
        TokenKind::LessEqual => 30,
        TokenKind::Greater => 31,
        TokenKind::GreaterEqual => 32,
        TokenKind::Ampersand => 33,
        TokenKind::Pipe => 34,
        TokenKind::Caret => 35,
        TokenKind::Tilde => 36,
        TokenKind::LessLess => 37,
        TokenKind::GreaterGreater => 38,
        TokenKind::Semicolon => 39,
        TokenKind::Comma => 40,
        TokenKind::LeftParen => 41,
        TokenKind::RightParen => 42,
        TokenKind::LeftBrace => 43,
        TokenKind::RightBrace => 44,
        TokenKind::LeftBracket => 45,
        TokenKind::RightBracket => 46,
        TokenKind::Dot => 47,
        TokenKind::Eof => 48,
    }
}

/// The same token: same variant and same text.
pub open spec fn same_token(a: TokenKind, b: TokenKind) -> bool {
    match (a, b) {
        (TokenKind::StringLiteral(x), TokenKind::StringLiteral(y)) => x@ == y@,
        (TokenKind::StringLiteral(_), _) => false,
        _ => a == b,
    }
}

fn copy_token(k: &TokenKind) -> (r: TokenKind)
    ensures
        same_token(r, *k),
{
    match k {
        TokenKind::Identifier(v) => TokenKind::Identifier(copy_string(v)),
        TokenKind::Integer(v) => TokenKind::Integer(copy_string(v)),
        TokenKind::Character(v) => TokenKind::Character(*v),
        TokenKind::StringLiteral(v) => TokenKind::StringLiteral(copy_bytes(v)),
        TokenKind::Int => TokenKind::Int,
        TokenKind::Char => TokenKind::Char,
        TokenKind::U8 => TokenKind::U8,
        TokenKind::U16 => TokenKind::U16,
        TokenKind::U32 => TokenKind::U32,
        TokenKind::U64 => TokenKind::U64,
        TokenKind::I32 => TokenKind::I32,
        TokenKind::I64 => TokenKind::I64,
        TokenKind::Bool => TokenKind::Bool,
        TokenKind::Struct => TokenKind::Struct,
        TokenKind::Extern => TokenKind::Extern,
        TokenKind::If => TokenKind::If,
        TokenKind::Else => TokenKind::Else,
        TokenKind::While => TokenKind::While,
        TokenKind::Return => TokenKind::Return,
        TokenKind::Let => TokenKind::Let,
        TokenKind::True => TokenKind::True,
        TokenKind::False => TokenKind::False,
        TokenKind::Plus => TokenKind::Plus,
        TokenKind::Minus => TokenKind::Minus,
        TokenKind::Star => TokenKind::Star,
        TokenKind::Slash => TokenKind::Slash,
        TokenKind::Equal => TokenKind::Equal,
        TokenKind::EqualEqual => TokenKind::EqualEqual,
        TokenKind::NotEqual => TokenKind::NotEqual,
        TokenKind::Less => TokenKind::Less,
        TokenKind::LessEqual => TokenKind::LessEqual,
        TokenKind::Greater => TokenKind::Greater,
        TokenKind::GreaterEqual => TokenKind::GreaterEqual,
        TokenKind::Ampersand => TokenKind::Ampersand,
        TokenKind::Pipe => TokenKind::Pipe,
        TokenKind::Caret => TokenKind::Caret,
        TokenKind::Tilde => TokenKind::Tilde,
        TokenKind::LessLess => TokenKind::LessLess,
        TokenKind::GreaterGreater => TokenKind::GreaterGreater,
        TokenKind::Semicolon => TokenKind::Semicolon,
        TokenKind::Comma => TokenKind::Comma,
        TokenKind::LeftParen => TokenKind::LeftParen,
        TokenKind::RightParen => TokenKind::RightParen,
        TokenKind::LeftBrace => TokenKind::LeftBrace,
        TokenKind::RightBrace => TokenKind::RightBrace,
        TokenKind::LeftBracket => TokenKind::LeftBracket,
        TokenKind::RightBracket => TokenKind::RightBracket,
        TokenKind::Dot => TokenKind::Dot,
        TokenKind::Eof => TokenKind::Eof,
    }
}

/// A syntax error is the one described: its span and its message.
pub open spec fn reports(e: ParseError, error: (Span, Seq<char>)) -> bool {
    e.span == error.0 && e.message@ == error.1
}

/// A syntax error points at one of the tokens.
pub open spec fn error_at(tokens: Seq<SpannedToken>, e: ParseError) -> bool {
    exists|i: int| 0 <= i < tokens.len() && e.span == #[trigger] tokens[i].span
}

/// A token sequence the parser can walk: it is not empty and ends with the
/// end-of-input token.
pub open spec fn tokens_well_formed(tokens: Seq<SpannedToken>) -> bool {
    tokens.len() > 0 && tokens.last().token == TokenKind::Eof
}

/// Parse one complete K source file.
pub fn parse(source: &str) -> (r: Result<Program, ParseError>)
    ensures
        r matches Ok(p) ==> exists|tokens: Seq<SpannedToken>|
            #[trigger] token_stream(source.spec_bytes(), 0, tokens) && program_from(tokens, p) && forall|q: Program|
                program_from(tokens, q) ==> same_program(q, p),
        forall|e: LexError|
            #[trigger] stream_error(source.spec_bytes(), 0, e) ==> (r matches Err(found) && found.span == e.span
                && found.message@ == e.message@),
        r matches Err(found) ==> (exists|e: LexError| #[trigger] stream_error(source.spec_bytes(), 0, e))
            || exists|tokens: Seq<SpannedToken>|
            #[trigger] token_stream(source.spec_bytes(), 0, tokens) && reports(found, items_stop(tokens, 0))
                && error_at(tokens, found) && forall|p: Program| !program_from(tokens, p),
{
    let tokens = match tokenize(source) {
        Ok(tokens) => tokens,
        Err(error) => {
            let found = ParseError::from_lex(error);
            proof {
                assert(stream_error(source.spec_bytes(), 0, error));
                assert forall|e: LexError| #[trigger] stream_error(source.spec_bytes(), 0, e) implies found.span
                    == e.span && found.message@ == e.message@ by {
                    lemma_stream_error_unique(source.spec_bytes(), 0, error, e);
                }
            }
            return Err(found);
        },
    };
    proof {
        assert forall|e: LexError| !#[trigger] stream_error(source.spec_bytes(), 0, e) by {
            lemma_stream_exclusive(source.spec_bytes(), 0, tokens@, e);
        }
    }
    proof {
        lemma_token_stream_ends(source.spec_bytes(), 0, tokens@);
    }
    let ghost stream = tokens@;
    let mut parser = Parser { tokens, cursor: 0 };
    assert(parser.valid());
    let r = parser.parse_program();
    proof {
        if r is Ok {
            assert forall|q: Program| program_from(stream, q) implies same_program(q, r->Ok_0) by {
                lemma_program_unique(stream, q, r->Ok_0);
            }
            assert(token_stream(source.spec_bytes(), 0, stream) && program_from(stream, r->Ok_0));
        } else {
            assert forall|p: Program| !program_from(stream, p) by {
                if program_from(stream, p) {
                    lemma_program_end(stream, p);
                }
            }
            assert(token_stream(source.spec_bytes(), 0, stream) && error_at(stream, r->Err_0)
                && reports(r->Err_0, items_stop(stream, 0)));
        }
    }
    r
}

/// A token that is a whole operand by itself: a literal or a name.
pub open spec fn primary_token(k: TokenKind) -> bool {
    match k {
        TokenKind::Integer(_) | TokenKind::Character(_) | TokenKind::StringLiteral(_) | TokenKind::True
        | TokenKind::False | TokenKind::Identifier(_) => true,
        _ => false,
    }
}

/// For a token without text, having its variant is being it.
proof fn lemma_plain_tag(t: TokenKind, kind: TokenKind)
    requires
        token_tag(kind) >= 4,
    ensures
        token_tag(t) == token_tag(kind) <==> t == kind,
{
}

/// Call arguments read from the tokens stay read when more are added.
proof fn lemma_arguments_extend(
    tokens: Seq<SpannedToken>,
    pos: int,
    a: Seq<Expression>,
    b: Seq<Expression>,
    count: int,
    end: int,
)
    requires
        arguments_from(tokens, pos, a, count, end),
        0 <= count <= a.len(),
        count <= b.len(),
        forall|i: int| 0 <= i < count ==> a[i] == b[i],
    ensures
        arguments_from(tokens, pos, b, count, end),
    decreases count,
{
    if count > 1 {
        let m = choose|m: int|
            pos <= m < tokens.len() && arguments_from(tokens, pos, a, count - 1, m) && tok_is(tokens, m, TokenKind::Comma)
                && expression_from(tokens, m + 1, a[count - 1], end);
        lemma_arguments_extend(tokens, pos, a, b, count - 1, m);
        assert(b[count - 1] == a[count - 1]);
        assert(arguments_from(tokens, pos, b, count - 1, m) && tok_is(tokens, m, TokenKind::Comma));
    } else if count == 1 {
        assert(b[0] == a[0]);
    }
}

/// Statements read from the tokens stay read when more are added.
proof fn lemma_statements_extend(
    tokens: Seq<SpannedToken>,
    pos: int,
    a: Seq<Statement>,
    b: Seq<Statement>,
    count: int,
    end: int,
)
    requires
        statements_from(tokens, pos, a, count, end),
        0 <= count <= a.len(),
        count <= b.len(),
        forall|i: int| 0 <= i < count ==> a[i] == b[i],
    ensures
        statements_from(tokens, pos, b, count, end),
    decreases count,
{
    if count > 0 {
        let m = choose|m: int|
            statements_from(tokens, pos, a, count - 1, m) && statement_follows(tokens, m) && statement_from(
                tokens,
                m,
                a[count - 1],
                end,
            );
        lemma_statements_extend(tokens, pos, a, b, count - 1, m);
        assert(b[count - 1] == a[count - 1]);
        assert(statement_follows(tokens, m));
    }
}

/// Struct fields read from the tokens stay read when more are added.
proof fn lemma_fields_extend(
    tokens: Seq<SpannedToken>,
    pos: int,
    a: Seq<StructField>,
    b: Seq<StructField>,
    count: int,
    end: int,
)
    requires
        fields_from(tokens, pos, a, count, end),
        0 <= count <= a.len(),
        count <= b.len(),
        forall|i: int| 0 <= i < count ==> a[i] == b[i],
    ensures
        fields_from(tokens, pos, b, count, end),
    decreases count,
{
    if count > 0 {
        let m = choose|m: int|
            fields_from(tokens, pos, a, count - 1, m) && statement_follows(tokens, m) && field_from(
                tokens,
                m,
                a[count - 1],
                end,
            );
        lemma_fields_extend(tokens, pos, a, b, count - 1, m);
        assert(b[count - 1] == a[count - 1]);
        assert(statement_follows(tokens, m));
    }
}

/// Parameters read from the tokens stay read when more are added.
proof fn lemma_parameters_extend(
    tokens: Seq<SpannedToken>,
    pos: int,
    a: Seq<Parameter>,
    b: Seq<Parameter>,
    count: int,
    end: int,
)
    requires
        parameter_list_from(tokens, pos, a, count, end),
        0 <= count <= a.len(),
        count <= b.len(),
        forall|i: int| 0 <= i < count ==> a[i] == b[i],
    ensures
        parameter_list_from(tokens, pos, b, count, end),
    decreases count,
{
    if count > 1 {
        let m = choose|m: int|
            parameter_list_from(tokens, pos, a, count - 1, m) && tok_is(tokens, m, TokenKind::Comma)
                && parameter_from(tokens, m + 1, a[count - 1], end);
        lemma_parameters_extend(tokens, pos, a, b, count - 1, m);
        assert(b[count - 1] == a[count - 1]);
        assert(tok_is(tokens, m, TokenKind::Comma));
    } else if count == 1 {
        assert(b[0] == a[0]);
    }
}

/// Items read from the tokens stay read when more are added to any of the
/// three lists.
proof fn lemma_items_extend(
    tokens: Seq<SpannedToken>,
    pos: int,
    structs: Seq<StructDefinition>,
    externs: Seq<ExternFunction>,
    functions: Seq<Function>,
    structs2: Seq<StructDefinition>,
    externs2: Seq<ExternFunction>,
    functions2: Seq<Function>,
    s: int,
    x: int,
    f: int,
    end: int,
)
    requires
        items_from(tokens, pos, structs, externs, functions, s, x, f, end),
        s <= structs2.len(),
        x <= externs2.len(),
        f <= functions2.len(),
        forall|i: int| 0 <= i < s ==> structs[i] == structs2[i],
        forall|i: int| 0 <= i < x ==> externs[i] == externs2[i],
        forall|i: int| 0 <= i < f ==> functions[i] == functions2[i],
    ensures
        items_from(tokens, pos, structs2, externs2, functions2, s, x, f, end),
    decreases s + x + f,
{
    if s + x + f > 0 {
        let m = choose|m: int|
            0 <= m < tokens.len() && tokens[m].token != TokenKind::Eof && if tokens[m].token == TokenKind::Struct {
                s > 0 && items_from(tokens, pos, structs, externs, functions, s - 1, x, f, m) && struct_from(
                    tokens,
                    m,
                    structs[s - 1],
                    end,
                )
            } else if tokens[m].token == TokenKind::Extern {
                x > 0 && items_from(tokens, pos, structs, externs, functions, s, x - 1, f, m) && extern_from(
                    tokens,
                    m,
                    externs[x - 1],
                    end,
                )
            } else {
                f > 0 && items_from(tokens, pos, structs, externs, functions, s, x, f - 1, m) && function_from(
                    tokens,
                    m,
                    functions[f - 1],
                    end,
                )
            };
        if tokens[m].token == TokenKind::Struct {
            lemma_items_extend(tokens, pos, structs, externs, functions, structs2, externs2, functions2, s - 1, x, f, m);
            assert(structs2[s - 1] == structs[s - 1]);
        } else if tokens[m].token == TokenKind::Extern {
            lemma_items_extend(tokens, pos, structs, externs, functions, structs2, externs2, functions2, s, x - 1, f, m);
            assert(externs2[x - 1] == externs[x - 1]);
        } else {
            lemma_items_extend(tokens, pos, structs, externs, functions, structs2, externs2, functions2, s, x, f - 1, m);
            assert(functions2[f - 1] == functions[f - 1]);
        }
        assert(tokens[m] == tokens[m]);
    }
}

/// The tokens that start a declaration are those whose variant number lies
/// between those of `int` and `struct`.
proof fn lemma_declaration_tag(t: TokenKind)
    ensures
        (4 <= token_tag(t) <= 13) == starts_declaration(t),
{
}

struct Parser {
    tokens: Vec<SpannedToken>,
    cursor: usize,
}

impl Parser {
    spec fn valid(&self) -> bool {
        &&& tokens_well_formed(self.tokens@)
        &&& self.cursor < self.tokens@.len()
    }

    spec fn pos(&self) -> int {
        self.cursor as int
    }

    spec fn toks(&self) -> Seq<SpannedToken> {
        self.tokens@
    }

    fn peek(&self) -> (r: &SpannedToken)
        requires
            self.valid(),
        ensures
            r == self.tokens@[self.cursor as int],
    {
        &self.tokens[self.cursor]
    }

    fn current_span(&self) -> (r: Span)
        requires
            self.valid(),
        ensures
            r == self.tokens@[self.cursor as int].span,
    {
        self.peek().span
    }

    fn take(&mut self) -> (r: SpannedToken)
        requires
            old(self).valid(),
        ensures
            final(self).valid(),
            final(self).tokens@ == old(self).tokens@,
            same_token(r.token, old(self).tokens@[old(self).cursor as int].token),
            r.span == old(self).tokens@[old(self).cursor as int].span,
            final(self).cursor == if r.token == TokenKind::Eof {
                old(self).cursor as int
            } else {
                old(self).cursor + 1
            },
    {
        let token = SpannedToken {
            token: copy_token(&self.tokens[self.cursor].token),
            span: self.tokens[self.cursor].span,
        };
        let is_end = match token.token {
            TokenKind::Eof => true,
            _ => false,
        };
        let len = self.tokens.len();
        if !is_end {
            assert(self.tokens@[self.cursor as int].token != TokenKind::Eof);
            assert(self.cursor != self.tokens@.len() - 1);
            self.cursor = self.cursor + 1;
        }
        token
    }

    fn at(&self, expected: &TokenKind) -> (r: bool)
        requires
            self.valid(),
        ensures
            r == (token_tag(self.tokens@[self.cursor as int].token) == token_tag(*expected)),
    {
        tag_of(&self.peek().token) == tag_of(expected)
    }

    fn consume(&mut self, expected: TokenKind) -> (r: bool)
        requires
            old(self).valid(),
        ensures
            final(self).valid(),
            final(self).tokens@ == old(self).tokens@,
            r == (token_tag(old(self).tokens@[old(self).cursor as int].token) == token_tag(expected)),
            final(self).cursor >= old(self).cursor,
            r && expected != TokenKind::Eof ==> final(self).cursor == old(self).cursor + 1,
            !r ==> final(self).cursor == old(self).cursor,
    {
        if self.at(&expected) {
            self.take();
            true
        } else {
            false
        }
    }

    fn expect(&mut self, expected: TokenKind) -> (r: Result<Span, ParseError>)
        requires
            old(self).valid(),
        ensures
            final(self).valid(),
            final(self).tokens@ == old(self).tokens@,
            final(self).cursor >= old(self).cursor,
            r is Ok && expected != TokenKind::Eof ==> final(self).cursor == old(self).cursor + 1,
            r matches Ok(span) ==> span == old(self).tokens@[old(self).cursor as int].span,
            r is Ok <==> token_tag(old(self).tokens@[old(self).cursor as int].token) == token_tag(expected),
            r matches Err(e) ==> error_at(old(self).tokens@, e),
            r matches Err(e) ==> reports(e, expect_stop(old(self).tokens@, old(self).cursor as int, expected)),
    {
        if self.at(&expected) {
            Ok(self.take().span)
        } else {
            let found = copy_token(&self.peek().token);
            let name = expected.to_string();
            Err(self.error_expected(name.as_str(), found))
        }
    }

    fn expect_identifier(&mut self, context: &str) -> (r: Result<(String, Span), ParseError>)
        requires
            old(self).valid(),
        ensures
            final(self).valid(),
            final(self).tokens@ == old(self).tokens@,
            final(self).cursor >= old(self).cursor,
            r is Ok ==> final(self).cursor == old(self).cursor + 1,
            r matches Ok((name, span)) ==> identifier_at(old(self).tokens@, old(self).cursor as int, name) && span
                == old(self).tokens@[old(self).cursor as int].span,
            r is Ok <==> old(self).tokens@[old(self).cursor as int].token is Identifier,
            r matches Err(e) ==> error_at(old(self).tokens@, e),
            r matches Err(e) ==> reports(e, identifier_stop(old(self).tokens@, old(self).cursor as int, context@)),
    {
        let token = self.take();
        match token.token {
            TokenKind::Identifier(value) => Ok((value, token.span)),
            other => Err(self.error_expected(context, other)),
        }
    }

    fn error_expected(&self, expected: &str, found: TokenKind) -> (r: ParseError)
        requires
            self.valid(),
        ensures
            r.span == self.tokens@[self.cursor as int].span,
            r.message@ == "expected "@ + expected@ + ", found "@ + token_text(found),
    {
        let mut message = text("expected ");
        message.append(expected);
        message.append(", found ");
        let found_text = found.to_string();
        message.append(found_text.as_str());
        ParseError { span: self.current_span(), message }
    }

    /// Whether the token at `index` (if any) can start a type.
    fn starts_type_at(&self, index: usize) -> (r: bool)
        ensures
            r == starts_type(self.tokens@, index as int),
    {
        if index >= self.tokens.len() {
            return false;
        }
        match &self.tokens[index].token {
            TokenKind::Int | TokenKind::Char | TokenKind::U8 | TokenKind::U16 | TokenKind::U32
            | TokenKind::U64 | TokenKind::I32 | TokenKind::I64 | TokenKind::Bool
            | TokenKind::Struct => true,
            TokenKind::Identifier(name) => str_equal(name.as_str(), "void") || str_equal(
                name.as_str(),
                "volatile",
            ),
            _ => false,
        }
    }

    fn parse_program(&mut self) -> (r: Result<Program, ParseError>)
        requires
            old(self).valid(),
            old(self).cursor == 0,
        ensures
            final(self).valid(),
            final(self).tokens@ == old(self).tokens@,
            r matches Ok(p) ==> program_from(old(self).tokens@, p),
            items_end(old(self).tokens@, 0) == if r is Ok {
                Some(final(self).cursor as int)
            } else {
                None::<int>
            },
            r matches Err(e) ==> error_at(old(self).tokens@, e),
            r matches Err(e) ==> reports(e, items_stop(old(self).tokens@, 0)),
    {
        let ghost toks = self.tokens@;
        let start = self.current_span().start;
        let mut structs: Vec<StructDefinition> = Vec::new();
        let mut extern_functions: Vec<ExternFunction> = Vec::new();
        let mut functions: Vec<Function> = Vec::new();
        loop
            invariant
                self.valid(),
                self.tokens@ == old(self).tokens@,
                toks == old(self).tokens@,
                start == toks[0].span.start,
                items_from(
                    toks,
                    0,
                    structs@,
                    extern_functions@,
                    functions@,
                    structs@.len() as int,
                    extern_functions@.len() as int,
                    functions@.len() as int,
                    self.cursor as int,
                ),
                items_end(toks, 0) == items_end(toks, self.cursor as int),
                items_stop(toks, 0) == items_stop(toks, self.cursor as int),
            ensures
                self.valid(),
                self.tokens@ == old(self).tokens@,
                items_end(toks, 0) == items_end(toks, self.cursor as int),
                items_from(
                    toks,
                    0,
                    structs@,
                    extern_functions@,
                    functions@,
                    structs@.len() as int,
                    extern_functions@.len() as int,
                    functions@.len() as int,
                    self.cursor as int,
                ),
                tok_is(toks, self.cursor as int, TokenKind::Eof),
            decreases self.tokens@.len() - self.cursor,
        {
            let ghost m = self.cursor as int;
            let ghost (s0, x0, f0) = (structs@, extern_functions@, functions@);
            proof {
                lemma_plain_tag(toks[m].token, TokenKind::Eof);
                lemma_plain_tag(toks[m].token, TokenKind::Struct);
                lemma_plain_tag(toks[m].token, TokenKind::Extern);
            }
            if self.at(&TokenKind::Eof) {
                break;
            }
            if self.at(&TokenKind::Struct) {
                structs.push(self.parse_struct()?);
            } else if self.at(&TokenKind::Extern) {
                extern_functions.push(self.parse_extern()?);
            } else {
                functions.push(self.parse_function()?);
            }
            proof {
                lemma_items_extend(
                    toks,
                    0,
                    s0,
                    x0,
                    f0,
                    structs@,
                    extern_functions@,
                    functions@,
                    s0.len() as int,
                    x0.len() as int,
                    f0.len() as int,
                    m,
                );
                assert(toks[m] == toks[m]);
            }
        }
        let ghost close = self.cursor as int;
        let end = self.current_span().end;
        assert(tok_is(toks, close, TokenKind::Eof));
        Ok(Program { structs, extern_functions, functions, span: Span { start, end } })
    }

    fn parse_struct(&mut self) -> (r: Result<StructDefinition, ParseError>)
        requires
            old(self).valid(),
        ensures
            final(self).valid(),
            final(self).tokens@ == old(self).tokens@,
            final(self).cursor >= old(self).cursor,
            r is Ok ==> final(self).cursor > old(self).cursor,
            r matches Ok(d) ==> struct_from(old(self).tokens@, old(self).cursor as int, d, final(self).cursor as int),
            struct_end(old(self).tokens@, old(self).cursor as int) == if r is Ok {
                Some(final(self).cursor as int)
            } else {
                None::<int>
            },
            r matches Err(e) ==> error_at(old(self).tokens@, e),
            r matches Err(e) ==> reports(e, struct_stop(old(self).tokens@, old(self).cursor as int)),
    {
        let ghost toks = self.tokens@;
        let ghost pos = self.cursor as int;
        proof {
            lemma_plain_tag(toks[pos].token, TokenKind::Struct);
        }
        let start = self.expect(TokenKind::Struct)?.start;
        let (name, _) = self.expect_identifier("struct name")?;
        proof {
            lemma_plain_tag(toks[pos + 2].token, TokenKind::LeftBrace);
        }
        self.expect(TokenKind::LeftBrace)?;
        let mut fields: Vec<StructField> = Vec::new();
        loop
            invariant
                self.valid(),
                self.tokens@ == old(self).tokens@,
                toks == old(self).tokens@,
                pos == old(self).cursor,
                self.cursor > old(self).cursor,
                self.cursor >= pos + 3,
                fields_from(toks, pos + 3, fields@, fields@.len() as int, self.cursor as int),
                struct_end(toks, pos) == fields_end(toks, self.cursor as int),
                struct_stop(toks, pos) == fields_stop(toks, self.cursor as int),
            ensures
                self.valid(),
                self.tokens@ == old(self).tokens@,
                self.cursor > old(self).cursor,
                fields_from(toks, pos + 3, fields@, fields@.len() as int, self.cursor as int),
                struct_end(toks, pos) == fields_end(toks, self.cursor as int),
                struct_stop(toks, pos) == fields_stop(toks, self.cursor as int),
                tok_is(toks, self.cursor as int, TokenKind::RightBrace) || tok_is(toks, self.cursor as int, TokenKind::Eof),
            decreases self.tokens@.len() - self.cursor,
        {
            let ghost here = self.cursor as int;
            proof {
                lemma_plain_tag(toks[here].token, TokenKind::RightBrace);
                lemma_plain_tag(toks[here].token, TokenKind::Eof);
            }
            if self.at(&TokenKind::RightBrace) || self.at(&TokenKind::Eof) {
                break;
            }
            let ghost previous = fields@;
            let field_start = self.current_span().start;
            let ty = self.parse_type()?;
            let (field_name, field_span) = self.expect_identifier("field name")?;
            let ghost semi = self.cursor as int;
            proof {
                lemma_plain_tag(toks[semi].token, TokenKind::Semicolon);
            }
            self.expect(TokenKind::Semicolon)?;
            let field = StructField {
                name: field_name,
                ty,
                span: Span { start: field_start, end: field_span.end },
            };
            assert(field_from(toks, here, field, self.cursor as int));
            fields.push(field);
            proof {
                lemma_fields_extend(toks, pos + 3, previous, fields@, previous.len() as int, here);
                assert(fields@[previous.len() as int] == field);
                assert(statement_follows(toks, here));
            }
        }
        let ghost close = self.cursor as int;
        proof {
            lemma_plain_tag(toks[close].token, TokenKind::RightBrace);
        }
        let end = self.expect(TokenKind::RightBrace)?.end;
        assert(tok_is(toks, close, TokenKind::RightBrace));
        Ok(StructDefinition { name, fields, span: Span { start, end } })
    }

    /// `( type name, ... )`
    fn parse_parameters(&mut self) -> (r: Result<Vec<Parameter>, ParseError>)
        requires
            old(self).valid(),
        ensures
            final(self).valid(),
            final(self).tokens@ == old(self).tokens@,
            final(self).cursor >= old(self).cursor,
            r is Ok ==> final(self).cursor > old(self).cursor,
            r matches Ok(ps) ==> parameters_from(old(self).tokens@, old(self).cursor as int, ps@, final(self).cursor as int),
            parameters_end(old(self).tokens@, old(self).cursor as int) == if r is Ok {
                Some(final(self).cursor as int)
            } else {
                None::<int>
            },
            r matches Err(e) ==> error_at(old(self).tokens@, e),
            r matches Err(e) ==> reports(e, parameters_stop(old(self).tokens@, old(self).cursor as int)),
    {
        let ghost toks = self.tokens@;
        let ghost pos = self.cursor as int;
        proof {
            lemma_plain_tag(toks[pos].token, TokenKind::LeftParen);
        }
        self.expect(TokenKind::LeftParen)?;
        let ghost round = self.cursor as int;
        proof {
            lemma_plain_tag(toks[round].token, TokenKind::RightParen);
        }
        let mut parameters: Vec<Parameter> = Vec::new();
        if !self.at(&TokenKind::RightParen) {
            loop
                invariant_except_break
                    parameters_end(toks, pos) == parameter_list_end(toks, self.cursor as int),
                    parameters_stop(toks, pos) == parameter_list_stop(toks, self.cursor as int),
                    parameters@.len() == 0 ==> self.cursor == round,
                    parameters@.len() > 0 ==> self.cursor > round && tok_is(toks, self.cursor - 1, TokenKind::Comma)
                        && parameter_list_from(toks, round, parameters@, parameters@.len() as int, self.cursor - 1),
                invariant
                    self.valid(),
                    self.tokens@ == old(self).tokens@,
                    toks == old(self).tokens@,
                    pos == old(self).cursor,
                    round == pos + 1,
                    self.cursor > old(self).cursor,
                    self.cursor >= round,
                ensures
                    self.valid(),
                    self.tokens@ == old(self).tokens@,
                    self.cursor > old(self).cursor,
                    parameters@.len() > 0,
                    parameter_list_from(toks, round, parameters@, parameters@.len() as int, self.cursor as int),
                    parameters_end(toks, pos) == after_parameter(toks, self.cursor as int),
                    parameters_stop(toks, pos) == after_parameter_stop(toks, self.cursor as int),
                    !tok_is(toks, self.cursor as int, TokenKind::Comma),
                decreases self.tokens@.len() - self.cursor,
            {
                let ghost here = self.cursor as int;
                let ghost previous = parameters@;
                let parameter_start = self.current_span().start;
                let ty = self.parse_type()?;
                let (name, name_span) = self.expect_identifier("parameter name")?;
                let parameter = Parameter {
                    ty,
                    name,
                    span: Span { start: parameter_start, end: name_span.end },
                };
                assert(parameter_from(toks, here, parameter, self.cursor as int));
                parameters.push(parameter);
                proof {
                    if previous.len() > 0 {
                        lemma_parameters_extend(toks, round, previous, parameters@, previous.len() as int, here - 1);
                    }
                    assert(parameters@[previous.len() as int] == parameter);
                }
                let ghost after = self.cursor as int;
                proof {
                    lemma_plain_tag(toks[after].token, TokenKind::Comma);
                }
                if !self.consume(TokenKind::Comma) {
                    break;
                }
            }
        }
        let ghost close = self.cursor as int;
        proof {
            lemma_plain_tag(toks[close].token, TokenKind::RightParen);
        }
        self.expect(TokenKind::RightParen)?;
        assert(tok_is(toks, close, TokenKind::RightParen));
        Ok(parameters)
    }

    fn parse_extern(&mut self) -> (r: Result<ExternFunction, ParseError>)
        requires
            old(self).valid(),
        ensures
            final(self).valid(),
            final(self).tokens@ == old(self).tokens@,
            final(self).cursor >= old(self).cursor,
            r is Ok ==> final(self).cursor > old(self).cursor,
            r matches Ok(x) ==> extern_from(old(self).tokens@, old(self).cursor as int, x, final(self).cursor as int),
            extern_end(old(self).tokens@, old(self).cursor as int) == if r is Ok {
                Some(final(self).cursor as int)
            } else {
                None::<int>
            },
            r matches Err(e) ==> error_at(old(self).tokens@, e),
            r matches Err(e) ==> reports(e, extern_stop(old(self).tokens@, old(self).cursor as int)),
    {
        let ghost toks = self.tokens@;
        let ghost pos = self.cursor as int;
        proof {
            lemma_plain_tag(toks[pos].token, TokenKind::Extern);
        }
        let start = self.expect(TokenKind::Extern)?.start;
        let return_type = self.parse_type()?;
        let (name, _) = self.expect_identifier("function name")?;
        let parameters = self.parse_parameters()?;
        let ghost c = self.cursor as int;
        proof {
            lemma_plain_tag(toks[c].token, TokenKind::Semicolon);
        }
        let end = self.expect(TokenKind::Semicolon)?.end;
        assert(tok_is(toks, c, TokenKind::Semicolon));
        Ok(ExternFunction { return_type, name, parameters, span: Span { start, end } })
    }

    fn parse_function(&mut self) -> (r: Result<Function, ParseError>)
        requires
            old(self).valid(),
        ensures
            final(self).valid(),
            final(self).tokens@ == old(self).tokens@,
            final(self).cursor >= old(self).cursor,
            r is Ok ==> final(self).cursor > old(self).cursor,
            r matches Ok(f) ==> function_from(old(self).tokens@, old(self).cursor as int, f, final(self).cursor as int),
            function_end(old(self).tokens@, old(self).cursor as int) == if r is Ok {
                Some(final(self).cursor as int)
            } else {
                None::<int>
            },
            r matches Err(e) ==> error_at(old(self).tokens@, e),
            r matches Err(e) ==> reports(e, function_stop(old(self).tokens@, old(self).cursor as int)),
    {
        let ghost toks = self.tokens@;
        let ghost pos = self.cursor as int;
        let start = self.current_span().start;
        let return_type = self.parse_type()?;
        let ghost m = self.cursor as int;
        let (name, _) = self.expect_identifier("function name")?;
        let parameters = self.parse_parameters()?;
        let ghost c = self.cursor as int;
        let body = self.parse_block()?;
        let end = body.span.end;
        let f = Function { return_type, name, parameters, span: Span { start, end }, body };
        assert(type_at(toks, pos) == Some((f.return_type, m)));
        assert(identifier_at(toks, m, f.name));
        assert(parameters_from(toks, m + 1, f.parameters@, c));
        assert(block_from(toks, c, f.body, self.cursor as int));
        Ok(f)
    }

    fn parse_type(&mut self) -> (r: Result<Type, ParseError>)
        requires
            old(self).valid(),
        ensures
            final(self).valid(),
            final(self).tokens@ == old(self).tokens@,
            final(self).cursor >= old(self).cursor,
            r is Ok ==> final(self).cursor > old(self).cursor,
            r matches Ok(t) ==> type_at(old(self).tokens@, old(self).cursor as int) == Some((t, final(self).cursor as int)),
            r is Err ==> type_at(old(self).tokens@, old(self).cursor as int) is None,
            r matches Err(e) ==> error_at(old(self).tokens@, e),
            r matches Err(e) ==> reports(e, type_stop(old(self).tokens@, old(self).cursor as int)),
    {
        let ghost toks = self.tokens@;
        let ghost start = self.cursor as int;
        let volatile = match &self.peek().token {
            TokenKind::Identifier(name) => str_equal(name.as_str(), "volatile"),
            _ => false,
        };
        assert(volatile == word_at(toks, start, "volatile"@));
        if volatile {
            self.take();
        }
        let ghost base_start = self.cursor as int;
        assert(base_start == if volatile { start + 1 } else { start });
        let token = self.take();
        let base = match token.token {
            TokenKind::Identifier(name) => {
                if str_equal(name.as_str(), "void") {
                    Type::Void
                } else {
                    return Err(self.error_expected("type", TokenKind::Identifier(name)));
                }
            },
            TokenKind::Struct => {
                let (name, _) = self.expect_identifier("struct name")?;
                Type::Struct(name)
            },
            TokenKind::Int => Type::Int,
            TokenKind::Char => Type::Char,
            TokenKind::U8 => Type::U8,
            TokenKind::U16 => Type::U16,
            TokenKind::U32 => Type::U32,
            TokenKind::U64 => Type::U64,
            TokenKind::I32 => Type::I32,
            TokenKind::I64 => Type::I64,
            TokenKind::Bool => Type::Bool,
            other => return Err(self.error_expected("type", other)),
        };
        assert(base_type_at(toks, base_start) == Some((base, self.cursor as int)));
        let mut ty = base;
        if volatile {
            let ghost star = self.cursor as int;
            match self.expect(TokenKind::Star) {
                Ok(_) => {},
                Err(e) => {
                    proof {
                        lemma_plain_tag(toks[star].token, TokenKind::Star);
                    }
                    return Err(e);
                },
            }
            proof {
                lemma_plain_tag(toks[star].token, TokenKind::Star);
            }
            ty = Type::Pointer(Box::new(ty), true);
        }
        let ghost goal = type_at(toks, start);
        assert(goal == Some(pointer_suffix(toks, ty, self.cursor as int)));
        while self.consume(TokenKind::Star)
            invariant
                self.valid(),
                self.tokens@ == old(self).tokens@,
                toks == old(self).tokens@,
                self.cursor > old(self).cursor,
                goal == Some(pointer_suffix(toks, ty, self.cursor as int)),
            decreases self.tokens@.len() - self.cursor,
        {
            proof {
                lemma_plain_tag(toks[self.cursor - 1].token, TokenKind::Star);
            }
            ty = Type::Pointer(Box::new(ty), false);
        }
        proof {
            lemma_plain_tag(toks[self.cursor as int].token, TokenKind::Star);
        }
        Ok(ty)
    }

    fn parse_block(&mut self) -> (r: Result<Block, ParseError>)
        requires
            old(self).valid(),
        ensures
            final(self).valid(),
            final(self).tokens@ == old(self).tokens@,
            final(self).cursor >= old(self).cursor,
            r is Ok ==> final(self).cursor > old(self).cursor,
            r matches Ok(b) ==> block_from(old(self).tokens@, old(self).cursor as int, b, final(self).cursor as int),
            r matches Err(e) ==> error_at(old(self).tokens@, e),
            block_end(old(self).tokens@, old(self).cursor as int) == if r is Ok {
                Some(final(self).cursor as int)
            } else {
                None::<int>
            },
            r matches Err(e) ==> reports(e, block_stop(old(self).tokens@, old(self).cursor as int)),
        decreases old(self).tokens@.len() - old(self).cursor, 0nat,
    {
        let ghost toks = self.tokens@;
        let ghost pos = self.cursor as int;
        proof {
            lemma_plain_tag(toks[pos].token, TokenKind::LeftBrace);
        }
        let start = self.expect(TokenKind::LeftBrace)?.start;
        let mut statements: Vec<Statement> = Vec::new();
        loop
            invariant
                self.valid(),
                self.tokens@ == old(self).tokens@,
                toks == old(self).tokens@,
                pos == old(self).cursor,
                self.cursor > old(self).cursor,
                tok_is(toks, pos, TokenKind::LeftBrace),
                statements_from(toks, pos + 1, statements@, statements@.len() as int, self.cursor as int),
                block_end(toks, pos) == statements_end(toks, self.cursor as int),
                block_stop(toks, pos) == statements_stop(toks, self.cursor as int),
            ensures
                self.valid(),
                self.tokens@ == old(self).tokens@,
                self.cursor > old(self).cursor,
                statements_from(toks, pos + 1, statements@, statements@.len() as int, self.cursor as int),
                block_end(toks, pos) == statements_end(toks, self.cursor as int),
                block_stop(toks, pos) == statements_stop(toks, self.cursor as int),
                tok_is(toks, self.cursor as int, TokenKind::RightBrace) || tok_is(toks, self.cursor as int, TokenKind::Eof),
            decreases self.tokens@.len() - self.cursor,
        {
            let ghost here = self.cursor as int;
            proof {
                lemma_plain_tag(toks[here].token, TokenKind::RightBrace);
                lemma_plain_tag(toks[here].token, TokenKind::Eof);
            }
            if self.at(&TokenKind::RightBrace) || self.at(&TokenKind::Eof) {
                break;
            }
            let ghost previous = statements@;
            let statement = self.parse_statement()?;
            statements.push(statement);
            proof {
                lemma_statements_extend(toks, pos + 1, previous, statements@, previous.len() as int, here);
                assert(statements@[previous.len() as int] == statement);
                assert(statement_follows(toks, here));
            }
        }
        let ghost close = self.cursor as int;
        proof {
            lemma_plain_tag(toks[close].token, TokenKind::RightBrace);
        }
        let end = self.expect(TokenKind::RightBrace)?.end;
        assert(tok_is(toks, close, TokenKind::RightBrace));
        Ok(Block { statements, span: Span { start, end } })
    }

    fn parse_statement(&mut self) -> (r: Result<Statement, ParseError>)
        requires
            old(self).valid(),
        ensures
            final(self).valid(),
            final(self).tokens@ == old(self).tokens@,
            final(self).cursor >= old(self).cursor,
            r is Ok ==> final(self).cursor > old(self).cursor,
            r matches Ok(s) ==> statement_from(old(self).tokens@, old(self).cursor as int, s, final(self).cursor as int),
            r matches Err(e) ==> error_at(old(self).tokens@, e),
            statement_end(old(self).tokens@, old(self).cursor as int) == if r is Ok {
                Some(final(self).cursor as int)
            } else {
                None::<int>
            },
            r matches Err(e) ==> reports(e, statement_stop(old(self).tokens@, old(self).cursor as int)),
        decreases old(self).tokens@.len() - old(self).cursor, 1nat,
    {
        let ghost toks = self.tokens@;
        let ghost pos = self.cursor as int;
        let tag = tag_of(&self.peek().token);
        proof {
            lemma_declaration_tag(toks[pos].token);
        }
        if tag == 19 {
            // let name = value;
            proof {
                lemma_plain_tag(toks[pos].token, TokenKind::Let);
                lemma_plain_tag(toks[pos + 2].token, TokenKind::Equal);
            }
            let start = self.take().span.start;
            let (name, _) = self.expect_identifier("variable name")?;
            self.expect(TokenKind::Equal)?;
            let value = self.parse_expression()?;
            let ghost m = self.cursor as int;
            proof {
                lemma_plain_tag(toks[m].token, TokenKind::Semicolon);
            }
            let end = self.expect(TokenKind::Semicolon)?.end;
            assert(tok_is(toks, m, TokenKind::Semicolon));
            Ok(Statement::Let { name, value, span: Span { start, end } })
        } else if tag == 18 {
            // return [value];
            proof {
                lemma_plain_tag(toks[pos].token, TokenKind::Return);
                lemma_plain_tag(toks[pos + 1].token, TokenKind::Semicolon);
            }
            let start = self.take().span.start;
            let value = if self.at(&TokenKind::Semicolon) {
                None
            } else {
                Some(self.parse_expression()?)
            };
            let ghost m = self.cursor as int;
            proof {
                lemma_plain_tag(toks[m].token, TokenKind::Semicolon);
            }
            let end = self.expect(TokenKind::Semicolon)?.end;
            assert(tok_is(toks, m, TokenKind::Semicolon));
            Ok(Statement::Return { value, span: Span { start, end } })
        } else if tag == 15 {
            proof {
                lemma_plain_tag(toks[pos].token, TokenKind::If);
            }
            self.parse_if()
        } else if tag == 17 {
            proof {
                lemma_plain_tag(toks[pos].token, TokenKind::While);
            }
            self.parse_while()
        } else if tag == 43 {
            proof {
                lemma_plain_tag(toks[pos].token, TokenKind::LeftBrace);
            }
            let block = self.parse_block()?;
            Ok(Statement::Block(block))
        } else if 4 <= tag && tag <= 13 {
            // type name;
            let start = self.current_span().start;
            let ty = self.parse_type()?;
            let (name, _) = self.expect_identifier("variable name")?;
            let ghost m = self.cursor as int;
            proof {
                lemma_plain_tag(toks[m].token, TokenKind::Semicolon);
            }
            let end = self.expect(TokenKind::Semicolon)?.end;
            Ok(Statement::Declare { ty, name, span: Span { start, end } })
        } else {
            let expression = self.parse_expression()?;
            let ghost m = self.cursor as int;
            proof {
                lemma_plain_tag(toks[m].token, TokenKind::Equal);
                lemma_plain_tag(toks[m].token, TokenKind::Semicolon);
            }
            if self.consume(TokenKind::Equal) {
                let start = expression.span().start;
                let value = self.parse_expression()?;
                let ghost c = self.cursor as int;
                proof {
                    lemma_plain_tag(toks[c].token, TokenKind::Semicolon);
                }
                let end = self.expect(TokenKind::Semicolon)?.end;
                assert(tok_is(toks, m, TokenKind::Equal) && tok_is(toks, c, TokenKind::Semicolon));
                return Ok(Statement::Assign { target: expression, value, span: Span { start, end } });
            }
            let end = self.expect(TokenKind::Semicolon)?.end;
            let start = expression.span().start;
            assert(tok_is(toks, m, TokenKind::Semicolon));
            Ok(Statement::Expression { expression, span: Span { start, end } })
        }
    }

    fn parse_if(&mut self) -> (r: Result<Statement, ParseError>)
        requires
            old(self).valid(),
            old(self).tokens@[old(self).cursor as int].token == TokenKind::If,
        ensures
            final(self).valid(),
            final(self).tokens@ == old(self).tokens@,
            final(self).cursor >= old(self).cursor,
            r is Ok ==> final(self).cursor > old(self).cursor,
            r matches Ok(s) ==> statement_from(old(self).tokens@, old(self).cursor as int, s, final(self).cursor as int),
            r matches Err(e) ==> error_at(old(self).tokens@, e),
            statement_end(old(self).tokens@, old(self).cursor as int) == if r is Ok {
                Some(final(self).cursor as int)
            } else {
                None::<int>
            },
            r matches Err(e) ==> reports(e, statement_stop(old(self).tokens@, old(self).cursor as int)),
        decreases old(self).tokens@.len() - old(self).cursor, 0nat,
    {
        let ghost toks = self.tokens@;
        let ghost pos = self.cursor as int;
        proof {
            lemma_plain_tag(toks[pos].token, TokenKind::If);
            lemma_plain_tag(toks[pos + 1].token, TokenKind::LeftParen);
        }
        let start = self.expect(TokenKind::If)?.start;
        self.expect(TokenKind::LeftParen)?;
        let condition = self.parse_expression()?;
        let ghost m = self.cursor as int;
        proof {
            lemma_plain_tag(toks[m].token, TokenKind::RightParen);
        }
        self.expect(TokenKind::RightParen)?;
        let then_branch = self.parse_block()?;
        let ghost b = self.cursor as int;
        proof {
            lemma_plain_tag(toks[b].token, TokenKind::Else);
        }
        let else_branch = if self.consume(TokenKind::Else) {
            Some(self.parse_block()?)
        } else {
            None
        };
        let end = match &else_branch {
            Some(block) => block.span.end,
            None => then_branch.span.end,
        };
        let ghost fin = self.cursor as int;
        assert(tok_is(toks, pos + 1, TokenKind::LeftParen));
        assert(expression_from(toks, pos + 2, condition, m));
        assert(tok_is(toks, m, TokenKind::RightParen));
        assert(block_from(toks, m + 1, then_branch, b));
        assert(tok_is(toks, b, TokenKind::Else) ==> (else_branch matches Some(other) && block_from(toks, b + 1, other, fin)));
        assert(!tok_is(toks, b, TokenKind::Else) ==> else_branch is None && fin == b);
        Ok(Statement::If { condition, then_branch, else_branch, span: Span { start, end } })
    }

    fn parse_while(&mut self) -> (r: Result<Statement, ParseError>)
        requires
            old(self).valid(),
            old(self).tokens@[old(self).cursor as int].token == TokenKind::While,
        ensures
            final(self).valid(),
            final(self).tokens@ == old(self).tokens@,
            final(self).cursor >= old(self).cursor,
            r is Ok ==> final(self).cursor > old(self).cursor,
            r matches Ok(s) ==> statement_from(old(self).tokens@, old(self).cursor as int, s, final(self).cursor as int),
            r matches Err(e) ==> error_at(old(self).tokens@, e),
            statement_end(old(self).tokens@, old(self).cursor as int) == if r is Ok {
                Some(final(self).cursor as int)
            } else {
                None::<int>
            },
            r matches Err(e) ==> reports(e, statement_stop(old(self).tokens@, old(self).cursor as int)),
        decreases old(self).tokens@.len() - old(self).cursor, 0nat,
    {
        let ghost toks = self.tokens@;
        let ghost pos = self.cursor as int;
        proof {
            lemma_plain_tag(toks[pos].token, TokenKind::While);
            lemma_plain_tag(toks[pos + 1].token, TokenKind::LeftParen);
        }
        let start = self.expect(TokenKind::While)?.start;
        self.expect(TokenKind::LeftParen)?;
        let condition = self.parse_expression()?;
        let ghost m = self.cursor as int;
        proof {
            lemma_plain_tag(toks[m].token, TokenKind::RightParen);
        }
        self.expect(TokenKind::RightParen)?;
        let body = self.parse_block()?;
        let end = body.span.end;
        assert(tok_is(toks, m, TokenKind::RightParen));
        Ok(Statement::While { condition, span: Span { start, end }, body })
    }

    fn parse_expression(&mut self) -> (r: Result<Expression, ParseError>)
        requires
            old(self).valid(),
        ensures
            final(self).valid(),
            final(self).tokens@ == old(self).tokens@,
            final(self).cursor >= old(self).cursor,
            r is Ok ==> final(self).cursor > old(self).cursor,
            r matches Ok(e) ==> expression_from(old(self).tokens@, old(self).cursor as int, e, final(self).cursor as int),
            r matches Err(e) ==> error_at(old(self).tokens@, e),
            expression_end(old(self).tokens@, old(self).cursor as int) == if r is Ok {
                Some(final(self).cursor as int)
            } else {
                None::<int>
            },
            r matches Err(e) ==> reports(e, expression_stop(old(self).tokens@, old(self).cursor as int)),
        decreases old(self).tokens@.len() - old(self).cursor, 4nat,
    {
        self.parse_binary_expression(0)
    }

    fn parse_binary_expression(&mut self, minimum_precedence: u8) -> (r: Result<Expression, ParseError>)
        requires
            old(self).valid(),
        ensures
            final(self).valid(),
            final(self).tokens@ == old(self).tokens@,
            final(self).cursor >= old(self).cursor,
            r is Ok ==> final(self).cursor > old(self).cursor,
            r matches Ok(e) ==> binary_from(
                old(self).tokens@,
                old(self).cursor as int,
                e,
                final(self).cursor as int,
                minimum_precedence as int,
            ),
            r matches Err(e) ==> error_at(old(self).tokens@, e),
            binary_end(old(self).tokens@, old(self).cursor as int, minimum_precedence as int) == if r is Ok {
                Some(final(self).cursor as int)
            } else {
                None::<int>
            },
            r matches Err(e) ==> reports(e, binary_stop(old(self).tokens@, old(self).cursor as int, minimum_precedence as int)),
        decreases old(self).tokens@.len() - old(self).cursor, 3nat,
    {
        let ghost toks = self.tokens@;
        let ghost start = self.cursor as int;
        let mut left = self.parse_prefix_expression()?;
        loop
            invariant
                self.valid(),
                self.tokens@ == old(self).tokens@,
                toks == old(self).tokens@,
                start == old(self).cursor,
                self.cursor > old(self).cursor,
                chain_from(toks, start, left, self.cursor as int, minimum_precedence as int),
                binary_end(toks, start, minimum_precedence as int) == operators_end(
                    toks,
                    self.cursor as int,
                    minimum_precedence as int,
                ),
                binary_stop(toks, start, minimum_precedence as int) == operators_stop(
                    toks,
                    self.cursor as int,
                    minimum_precedence as int,
                ),
            ensures
                self.valid(),
                self.tokens@ == old(self).tokens@,
                self.cursor > old(self).cursor,
                chain_from(toks, start, left, self.cursor as int, minimum_precedence as int),
                !crate::grammar::operator_binds(toks, self.cursor as int, minimum_precedence as int),
                binary_end(toks, start, minimum_precedence as int) == Some(self.cursor as int),
            decreases self.tokens@.len() - self.cursor,
        {
            let (operator, precedence) = match self.binary_operator() {
                Some(found) => found,
                None => break,
            };
            if precedence < minimum_precedence {
                break;
            }
            let ghost m = self.cursor as int;
            let ghost before = left;
            self.take();
            let right = self.parse_binary_expression(precedence + 1)?;
            let ghost after = right;
            assert(binary_operator_of(toks[m].token) == Some((operator, precedence)));
            assert(binary_from(toks, m + 1, after, self.cursor as int, precedence + 1));
            let span = Span { start: left.span().start, end: right.span().end };
            left = Expression::Binary {
                left: Box::new(left),
                operator,
                right: Box::new(right),
                span,
            };
            assert(chain_from(toks, start, before, m, minimum_precedence as int));
        }
        Ok(left)
    }

    fn parse_prefix_expression(&mut self) -> (r: Result<Expression, ParseError>)
        requires
            old(self).valid(),
        ensures
            final(self).valid(),
            final(self).tokens@ == old(self).tokens@,
            final(self).cursor >= old(self).cursor,
            r is Ok ==> final(self).cursor > old(self).cursor,
            r matches Ok(e) ==> prefix_from(old(self).tokens@, old(self).cursor as int, e, final(self).cursor as int),
            r matches Err(e) ==> error_at(old(self).tokens@, e),
            prefix_end(old(self).tokens@, old(self).cursor as int) == if r is Ok {
                Some(final(self).cursor as int)
            } else {
                None::<int>
            },
            r matches Err(e) ==> reports(e, prefix_stop(old(self).tokens@, old(self).cursor as int)),
        decreases old(self).tokens@.len() - old(self).cursor, 2nat,
    {
        let ghost toks = self.tokens@;
        let ghost start = self.cursor as int;
        let tag = tag_of(&self.peek().token);
        let expression = if tag == 23 || tag == 33 || tag == 24 || tag == 36 {
            let operator = if tag == 23 {
                UnaryOperator::Negate
            } else if tag == 33 {
                UnaryOperator::AddressOf
            } else if tag == 24 {
                UnaryOperator::Dereference
            } else {
                UnaryOperator::BitwiseNot
            };
            proof {
                if tag == 23 {
                    lemma_plain_tag(toks[start].token, TokenKind::Minus);
                } else if tag == 33 {
                    lemma_plain_tag(toks[start].token, TokenKind::Ampersand);
                } else if tag == 24 {
                    lemma_plain_tag(toks[start].token, TokenKind::Star);
                } else {
                    lemma_plain_tag(toks[start].token, TokenKind::Tilde);
                }
            }
            let start_byte = self.take().span.start;
            let operand = self.parse_prefix_expression()?;
            let end = operand.span().end;
            Expression::Unary { operator, operand: Box::new(operand), span: Span { start: start_byte, end } }
        } else if tag == 41 {
            proof {
                lemma_plain_tag(toks[start].token, TokenKind::LeftParen);
            }
            let len = self.tokens.len();
            if self.starts_type_at(self.cursor + 1) {
                let start_byte = self.take().span.start;
                let ty = self.parse_type()?;
                let ghost close = self.cursor as int;
                match self.expect(TokenKind::RightParen) {
                    Ok(_) => {},
                    Err(e) => return Err(e),
                }
                proof {
                    lemma_plain_tag(toks[close].token, TokenKind::RightParen);
                }
                let operand = self.parse_prefix_expression()?;
                let end = operand.span().end;
                Expression::Cast { ty, operand: Box::new(operand), span: Span { start: start_byte, end } }
            } else {
                self.take();
                let expression = self.parse_expression()?;
                let ghost close = self.cursor as int;
                match self.expect(TokenKind::RightParen) {
                    Ok(_) => {},
                    Err(e) => return Err(e),
                }
                proof {
                    lemma_plain_tag(toks[close].token, TokenKind::RightParen);
                }
                assert(tok_is(toks, close, TokenKind::RightParen));
                expression
            }
        } else {
            self.parse_primary_expression()?
        };
        assert(operand_from(toks, start, expression, self.cursor as int));
        assert(operand_end(toks, start) == Some(self.cursor as int));
        self.parse_postfix_expression(expression, Ghost(start))
    }

    fn parse_primary_expression(&mut self) -> (r: Result<Expression, ParseError>)
        requires
            old(self).valid(),
        ensures
            final(self).valid(),
            final(self).tokens@ == old(self).tokens@,
            final(self).cursor >= old(self).cursor,
            r is Ok ==> final(self).cursor > old(self).cursor,
            r matches Ok(e) ==> operand_from(old(self).tokens@, old(self).cursor as int, e, final(self).cursor as int),
            r matches Err(e) ==> error_at(old(self).tokens@, e),
            r is Ok ==> final(self).cursor == old(self).cursor + 1,
            r is Ok <==> primary_token(old(self).tokens@[old(self).cursor as int].token),
            r matches Err(e) ==> reports(e, stop(old(self).tokens@, after_take(old(self).tokens@, old(self).cursor as int), "expression"@, old(self).cursor as int)),
    {
        let token = self.take();
        let span = token.span;
        match token.token {
            TokenKind::Integer(value) => Ok(Expression::Integer { value, span }),
            TokenKind::Character(value) => Ok(Expression::Character { value, span }),
            TokenKind::StringLiteral(value) => Ok(Expression::String { value, span }),
            TokenKind::True => Ok(Expression::Boolean { value: true, span }),
            TokenKind::False => Ok(Expression::Boolean { value: false, span }),
            TokenKind::Identifier(value) => Ok(Expression::Name { value, span }),
            other => Err(self.error_expected("expression", other)),
        }
    }

    fn parse_postfix_expression(&mut self, expression: Expression, Ghost(start): Ghost<int>) -> (r: Result<
        Expression,
        ParseError,
    >)
        requires
            old(self).valid(),
            0 <= start < old(self).cursor,
            postfix_chain_from(old(self).tokens@, start, expression, old(self).cursor as int),
        ensures
            final(self).valid(),
            final(self).tokens@ == old(self).tokens@,
            final(self).cursor >= old(self).cursor,
            r matches Ok(e) ==> prefix_from(old(self).tokens@, start, e, final(self).cursor as int),
            r matches Err(e) ==> error_at(old(self).tokens@, e),
            postfix_end(old(self).tokens@, old(self).cursor as int) == if r is Ok {
                Some(final(self).cursor as int)
            } else {
                None::<int>
            },
            r matches Err(e) ==> reports(e, postfix_stop(old(self).tokens@, old(self).cursor as int)),
        decreases old(self).tokens@.len() - old(self).cursor, 1nat,
    {
        let ghost toks = self.tokens@;
        let mut expression = expression;
        loop
            invariant
                self.valid(),
                self.tokens@ == old(self).tokens@,
                toks == old(self).tokens@,
                self.cursor >= old(self).cursor,
                0 <= start < self.cursor,
                postfix_chain_from(toks, start, expression, self.cursor as int),
                postfix_end(toks, old(self).cursor as int) == postfix_end(toks, self.cursor as int),
                postfix_stop(toks, old(self).cursor as int) == postfix_stop(toks, self.cursor as int),
            ensures
                self.valid(),
                self.tokens@ == old(self).tokens@,
                self.cursor >= old(self).cursor,
                postfix_chain_from(toks, start, expression, self.cursor as int),
                !crate::grammar::postfix_follows(toks, self.cursor as int),
                postfix_end(toks, old(self).cursor as int) == Some(self.cursor as int),
            decreases self.tokens@.len() - self.cursor,
        {
            let ghost m = self.cursor as int;
            let ghost before = expression;
            proof {
                lemma_plain_tag(toks[m].token, TokenKind::LeftBracket);
                lemma_plain_tag(toks[m].token, TokenKind::Dot);
                lemma_plain_tag(toks[m].token, TokenKind::LeftParen);
            }
            if self.consume(TokenKind::LeftBracket) {
                let index = self.parse_expression()?;
                let ghost c = self.cursor as int;
                let end = match self.expect(TokenKind::RightBracket) {
                    Ok(span) => span.end,
                    Err(e) => return Err(e),
                };
                proof {
                    lemma_plain_tag(toks[c].token, TokenKind::RightBracket);
                }
                let start_byte = expression.span().start;
                expression = Expression::Index {
                    base: Box::new(expression),
                    index: Box::new(index),
                    span: Span { start: start_byte, end },
                };
                assert(tok_is(toks, m, TokenKind::LeftBracket) && tok_is(toks, c, TokenKind::RightBracket));
                continue;
            }
            if self.consume(TokenKind::Dot) {
                let (field, field_span) = self.expect_identifier("field name")?;
                let start_byte = expression.span().start;
                expression = Expression::Field {
                    base: Box::new(expression),
                    field,
                    span: Span { start: start_byte, end: field_span.end },
                };
                assert(tok_is(toks, m, TokenKind::Dot));
                continue;
            }
            if !self.consume(TokenKind::LeftParen) {
                break;
            }
            let mut arguments: Vec<Expression> = Vec::new();
            let ghost round = self.cursor;
            if !self.at(&TokenKind::RightParen) {
                loop
                    invariant_except_break
                        arguments_end(toks, round as int) == arguments_end(toks, self.cursor as int),
                        arguments_stop(toks, round as int) == arguments_stop(toks, self.cursor as int),
                        arguments@.len() == 0 ==> self.cursor == round,
                        arguments@.len() > 0 ==> self.cursor > round && tok_is(toks, self.cursor - 1, TokenKind::Comma)
                            && arguments_from(toks, round as int, arguments@, arguments@.len() as int, self.cursor - 1),
                    invariant
                        self.valid(),
                        self.tokens@ == old(self).tokens@,
                        toks == old(self).tokens@,
                        self.cursor >= round,
                        round == m + 1,
                        round > old(self).cursor,
                        0 <= start < m,
                        postfix_chain_from(toks, start, before, m),
                        tok_is(toks, m, TokenKind::LeftParen),
                        !tok_is(toks, m + 1, TokenKind::RightParen),
                        postfix_end(toks, old(self).cursor as int) == postfix_end(toks, m),
                        postfix_stop(toks, old(self).cursor as int) == postfix_stop(toks, m),
                    ensures
                        self.valid(),
                        self.tokens@ == old(self).tokens@,
                        self.cursor >= round,
                        arguments@.len() > 0,
                        arguments_from(toks, round as int, arguments@, arguments@.len() as int, self.cursor as int),
                        arguments_end(toks, round as int) == Some(self.cursor as int),
                    decreases self.tokens@.len() - self.cursor,
                {
                    let ghost here = self.cursor as int;
                    let ghost previous = arguments@;
                    let argument = self.parse_expression()?;
                    arguments.push(argument);
                    proof {
                        if previous.len() > 0 {
                            lemma_arguments_extend(toks, round as int, previous, arguments@, previous.len() as int, here - 1);
                            assert(arguments@[previous.len() as int] == argument);
                        }
                    }
                    let ghost after = self.cursor as int;
                    proof {
                        lemma_plain_tag(toks[after].token, TokenKind::Comma);
                    }
                    if !self.consume(TokenKind::Comma) {
                        break;
                    }
                }
            }
            assert(arguments_from(toks, m + 1, arguments@, arguments@.len() as int, self.cursor as int));
            let ghost c = self.cursor as int;
            let end = match self.expect(TokenKind::RightParen) {
                Ok(span) => span.end,
                Err(e) => return Err(e),
            };
            proof {
                lemma_plain_tag(toks[c].token, TokenKind::RightParen);
            }
            let start_byte = expression.span().start;
            expression = Expression::Call {
                callee: Box::new(expression),
                arguments,
                span: Span { start: start_byte, end },
            };
            assert(tok_is(toks, m, TokenKind::LeftParen) && tok_is(toks, c, TokenKind::RightParen));
        }
        Ok(expression)
    }

    fn binary_operator(&self) -> (r: Option<(BinaryOperator, u8)>)
        requires
            self.valid(),
        ensures
            r matches Some((_, p)) ==> 1 <= p <= 7,
            r is Some ==> self.tokens@[self.cursor as int].token != TokenKind::Eof,
            r == binary_operator_of(self.tokens@[self.cursor as int].token),
    {
        match self.peek().token {
            TokenKind::Pipe => Some((BinaryOperator::BitwiseOr, 1)),
            TokenKind::Caret => Some((BinaryOperator::BitwiseXor, 2)),
            TokenKind::Ampersand => Some((BinaryOperator::BitwiseAnd, 3)),
            TokenKind::EqualEqual => Some((BinaryOperator::Equal, 4)),
            TokenKind::NotEqual => Some((BinaryOperator::NotEqual, 4)),
            TokenKind::Less => Some((BinaryOperator::Less, 4)),
            TokenKind::LessEqual => Some((BinaryOperator::LessEqual, 4)),
            TokenKind::Greater => Some((BinaryOperator::Greater, 4)),
            TokenKind::GreaterEqual => Some((BinaryOperator::GreaterEqual, 4)),
            TokenKind::LessLess => Some((BinaryOperator::ShiftLeft, 5)),
            TokenKind::GreaterGreater => Some((BinaryOperator::ShiftRight, 5)),
            TokenKind::Plus => Some((BinaryOperator::Add, 6)),
            TokenKind::Minus => Some((BinaryOperator::Subtract, 6)),
            TokenKind::Star => Some((BinaryOperator::Multiply, 7)),
            TokenKind::Slash => Some((BinaryOperator::Divide, 7)),
            _ => None,
        }
    }
}

} // verus!
