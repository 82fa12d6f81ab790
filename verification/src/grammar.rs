//! The grammar of K over token sequences.
//!
//! Types are read by a function of the tokens ([`type_at`]). Expressions,
//! statements and whole programs are related to the tokens they are read
//! from: `x_from(tokens, pos, x, end)` says that the tokens at positions
//! `pos..end` read as `x`, following the parser's rules: binary operators
//! bind by precedence and group to the left, postfix operators bind
//! tightest, a parenthesis followed by a type starts a cast, and every
//! construct reads as much as it can.

use vstd::prelude::*;

use crate::ast::{
    BinaryOperator, Block, Expression, ExternFunction, Function, Parameter, Program, Statement,
    StructDefinition, StructField, Type, UnaryOperator, expression_span,
};
use crate::lexer::{Span, SpannedToken, TokenKind};

verus! {

/// The token at `i` is exactly `kind`.
pub open spec fn tok_is(tokens: Seq<SpannedToken>, i: int, kind: TokenKind) -> bool {
    0 <= i < tokens.len() && tokens[i].token == kind
}

/// The token at `i` is the identifier `name`.
pub open spec fn identifier_at(tokens: Seq<SpannedToken>, i: int, name: String) -> bool {
    tok_is(tokens, i, TokenKind::Identifier(name))
}

/// The token at `i` is an identifier spelled `text`.
pub open spec fn word_at(tokens: Seq<SpannedToken>, i: int, text: Seq<char>) -> bool {
    0 <= i < tokens.len() && match tokens[i].token {
        TokenKind::Identifier(name) => name@ == text,
        _ => false,
    }
}

/// The span from the start of token `i` to the end of token `j`.
pub open spec fn tokens_span(tokens: Seq<SpannedToken>, i: int, j: int) -> Span {
    Span { start: tokens[i].span.start, end: tokens[j].span.end }
}

// ---------------------------------------------------------------------------
// Types.

/// The type a keyword names, if it names one.
pub open spec fn keyword_type(kind: TokenKind) -> Option<Type> {
    match kind {
        TokenKind::Int => Some(Type::Int),
        TokenKind::Char => Some(Type::Char),
        TokenKind::U8 => Some(Type::U8),
        TokenKind::U16 => Some(Type::U16),
        TokenKind::U32 => Some(Type::U32),
        TokenKind::U64 => Some(Type::U64),
        TokenKind::I32 => Some(Type::I32),
        TokenKind::I64 => Some(Type::I64),
        TokenKind::Bool => Some(Type::Bool),
        _ => None,
    }
}

/// A type without pointers: `void`, a keyword type or `struct name`; with
/// the position after it.
pub open spec fn base_type_at(tokens: Seq<SpannedToken>, pos: int) -> Option<(Type, int)> {
    if !(0 <= pos < tokens.len()) {
        None
    } else {
        match tokens[pos].token {
            TokenKind::Identifier(name) => if name@ == "void"@ {
                Some((Type::Void, pos + 1))
            } else {
                None
            },
            TokenKind::Struct => if pos + 1 < tokens.len() {
                match tokens[pos + 1].token {
                    TokenKind::Identifier(name) => Some((Type::Struct(name), pos + 2)),
                    _ => None,
                }
            } else {
                None
            },
            other => match keyword_type(other) {
                Some(ty) => Some((ty, pos + 1)),
                None => None,
            },
        }
    }
}

/// Every `*` that follows makes one more (plain) pointer.
pub open spec fn pointer_suffix(tokens: Seq<SpannedToken>, ty: Type, pos: int) -> (Type, int)
    decreases tokens.len() - pos,
{
    if 0 <= pos < tokens.len() && tokens[pos].token == TokenKind::Star {
        pointer_suffix(tokens, Type::Pointer(Box::new(ty), false), pos + 1)
    } else {
        (ty, pos)
    }
}

/// The type read at `pos` and the position after it. `volatile` must be
/// followed by a base type and `*`, which together make a volatile
/// pointer.
pub open spec fn type_at(tokens: Seq<SpannedToken>, pos: int) -> Option<(Type, int)> {
    if word_at(tokens, pos, "volatile"@) {
        match base_type_at(tokens, pos + 1) {
            Some((base, m)) => if tok_is(tokens, m, TokenKind::Star) {
                Some(pointer_suffix(tokens, Type::Pointer(Box::new(base), true), m + 1))
            } else {
                None
            },
            None => None,
        }
    } else {
        match base_type_at(tokens, pos) {
            Some((base, m)) => Some(pointer_suffix(tokens, base, m)),
            None => None,
        }
    }
}

/// Whether the token at `i` can start a type.
pub open spec fn starts_type(tokens: Seq<SpannedToken>, i: int) -> bool {
    0 <= i < tokens.len() && match tokens[i].token {
        TokenKind::Identifier(name) => name@ == "void"@ || name@ == "volatile"@,
        TokenKind::Struct => true,
        other => keyword_type(other) is Some,
    }
}

/// A type read from the tokens takes at least one of them.
pub(crate) proof fn lemma_type_end(tokens: Seq<SpannedToken>, pos: int)
    ensures
        type_at(tokens, pos) matches Some((_, m)) ==> pos < m <= tokens.len(),
{
    if word_at(tokens, pos, "volatile"@) {
        if let Some((base, m)) = base_type_at(tokens, pos + 1) {
            if tok_is(tokens, m, TokenKind::Star) {
                lemma_pointer_suffix_end(tokens, Type::Pointer(Box::new(base), true), m + 1);
            }
        }
    } else {
        if let Some((base, m)) = base_type_at(tokens, pos) {
            lemma_pointer_suffix_end(tokens, base, m);
        }
    }
}

pub(crate) proof fn lemma_pointer_suffix_end(tokens: Seq<SpannedToken>, ty: Type, pos: int)
    requires
        pos <= tokens.len(),
    ensures
        pos <= pointer_suffix(tokens, ty, pos).1 <= tokens.len(),
    decreases tokens.len() - pos,
{
    if 0 <= pos < tokens.len() && tokens[pos].token == TokenKind::Star {
        lemma_pointer_suffix_end(tokens, Type::Pointer(Box::new(ty), false), pos + 1);
    }
}

// ---------------------------------------------------------------------------
// Expressions.

/// A binary operator token, with its precedence (higher binds tighter).
pub open spec fn binary_operator_of(kind: TokenKind) -> Option<(BinaryOperator, u8)> {
    match kind {
        TokenKind::Pipe => Some((BinaryOperator::BitwiseOr, 1u8)),
        TokenKind::Caret => Some((BinaryOperator::BitwiseXor, 2u8)),
        TokenKind::Ampersand => Some((BinaryOperator::BitwiseAnd, 3u8)),
        TokenKind::EqualEqual => Some((BinaryOperator::Equal, 4u8)),
        TokenKind::NotEqual => Some((BinaryOperator::NotEqual, 4u8)),
        TokenKind::Less => Some((BinaryOperator::Less, 4u8)),
        TokenKind::LessEqual => Some((BinaryOperator::LessEqual, 4u8)),
        TokenKind::Greater => Some((BinaryOperator::Greater, 4u8)),
        TokenKind::GreaterEqual => Some((BinaryOperator::GreaterEqual, 4u8)),
        TokenKind::LessLess => Some((BinaryOperator::ShiftLeft, 5u8)),
        TokenKind::GreaterGreater => Some((BinaryOperator::ShiftRight, 5u8)),
        TokenKind::Plus => Some((BinaryOperator::Add, 6u8)),
        TokenKind::Minus => Some((BinaryOperator::Subtract, 6u8)),
        TokenKind::Star => Some((BinaryOperator::Multiply, 7u8)),
        TokenKind::Slash => Some((BinaryOperator::Divide, 7u8)),
        _ => None,
    }
}

/// A prefix operator token.
pub open spec fn unary_operator_of(kind: TokenKind) -> Option<UnaryOperator> {
    match kind {
        TokenKind::Minus => Some(UnaryOperator::Negate),
        TokenKind::Ampersand => Some(UnaryOperator::AddressOf),
        TokenKind::Star => Some(UnaryOperator::Dereference),
        TokenKind::Tilde => Some(UnaryOperator::BitwiseNot),
        _ => None,
    }
}

/// The token at `i` is a binary operator of precedence at least `minimum`.
pub open spec fn operator_binds(tokens: Seq<SpannedToken>, i: int, minimum: int) -> bool {
    0 <= i < tokens.len() && match binary_operator_of(tokens[i].token) {
        Some((_, p)) => p >= minimum,
        None => false,
    }
}

/// The token at `i` starts a postfix operation: `[`, `.` or `(`.
pub open spec fn postfix_follows(tokens: Seq<SpannedToken>, i: int) -> bool {
    tok_is(tokens, i, TokenKind::LeftBracket) || tok_is(tokens, i, TokenKind::Dot) || tok_is(
        tokens,
        i,
        TokenKind::LeftParen,
    )
}

/// A whole expression.
pub open spec fn expression_from(tokens: Seq<SpannedToken>, pos: int, e: Expression, end: int) -> bool
    decreases tokens.len() - pos, e, 6int,
{
    binary_from(tokens, pos, e, end, 0)
}

/// An expression whose operators all have precedence at least `minimum`,
/// read as far as such operators go.
pub open spec fn binary_from(tokens: Seq<SpannedToken>, pos: int, e: Expression, end: int, minimum: int) -> bool
    decreases tokens.len() - pos, e, 5int,
{
    chain_from(tokens, pos, e, end, minimum) && !operator_binds(tokens, end, minimum)
}

/// Operands joined, left to right, by operators of precedence at least
/// `minimum`; the right operand of each binds operators tighter than it.
pub open spec fn chain_from(tokens: Seq<SpannedToken>, pos: int, e: Expression, end: int, minimum: int) -> bool
    decreases tokens.len() - pos, e, 4int,
{
    ||| prefix_from(tokens, pos, e, end)
    ||| match e {
        Expression::Binary { left, operator, right, span } => exists|m: int|
            #![trigger tokens[m]]
            pos < m < tokens.len() && chain_from(tokens, pos, *left, m, minimum) && match binary_operator_of(tokens[m].token) {
                Some((op, p)) => op == operator && p >= minimum && binary_from(tokens, m + 1, *right, end, p + 1),
                None => false,
            } && span == Span { start: expression_span(*left).start, end: expression_span(*right).end },
        _ => false,
    }
}

/// An operand with all the postfix operations that follow it.
pub open spec fn prefix_from(tokens: Seq<SpannedToken>, pos: int, e: Expression, end: int) -> bool
    decreases tokens.len() - pos, e, 3int,
{
    postfix_chain_from(tokens, pos, e, end) && !postfix_follows(tokens, end)
}

/// An operand followed by some postfix operations: indexing, field
/// selection and calls.
pub open spec fn postfix_chain_from(tokens: Seq<SpannedToken>, pos: int, e: Expression, end: int) -> bool
    decreases tokens.len() - pos, e, 2int,
{
    ||| operand_from(tokens, pos, e, end)
    ||| match e {
        Expression::Index { base, index, span } => exists|m: int, c: int|
            #![trigger tok_is(tokens, m, TokenKind::LeftBracket), tok_is(tokens, c, TokenKind::RightBracket)]
            pos < m < c < tokens.len() && postfix_chain_from(tokens, pos, *base, m) && tok_is(tokens, m, TokenKind::LeftBracket)
                && expression_from(tokens, m + 1, *index, c) && tok_is(tokens, c, TokenKind::RightBracket) && end == c + 1
                && span == Span { start: expression_span(*base).start, end: tokens[c].span.end },
        Expression::Field { base, field, span } => exists|m: int|
            #![trigger tok_is(tokens, m, TokenKind::Dot)]
            pos < m < tokens.len() && postfix_chain_from(tokens, pos, *base, m) && tok_is(tokens, m, TokenKind::Dot)
                && identifier_at(tokens, m + 1, field) && end == m + 2
                && span == Span { start: expression_span(*base).start, end: tokens[m + 1].span.end },
        Expression::Call { callee, arguments, span } => exists|m: int, c: int|
            #![trigger tok_is(tokens, m, TokenKind::LeftParen), tok_is(tokens, c, TokenKind::RightParen)]
            pos < m < c < tokens.len() && postfix_chain_from(tokens, pos, *callee, m) && tok_is(tokens, m, TokenKind::LeftParen)
                && arguments_from(tokens, m + 1, arguments@, arguments@.len() as int, c)
                && tok_is(tokens, c, TokenKind::RightParen) && end == c + 1
                && span == Span { start: expression_span(*callee).start, end: tokens[c].span.end },
        _ => false,
    }
}

/// The first `count` arguments of a call, separated by commas.
pub open spec fn arguments_from(
    tokens: Seq<SpannedToken>,
    pos: int,
    arguments: Seq<Expression>,
    count: int,
    end: int,
) -> bool
    decreases tokens.len() - pos, arguments, count,
{
    if count <= 0 || count > arguments.len() {
        count == 0 && end == pos
    } else if count == 1 {
        expression_from(tokens, pos, arguments[0], end)
    } else {
        exists|m: int|
            #![trigger tok_is(tokens, m, TokenKind::Comma)]
            pos <= m < tokens.len() && arguments_from(tokens, pos, arguments, count - 1, m) && tok_is(tokens, m, TokenKind::Comma)
                && expression_from(tokens, m + 1, arguments[count - 1], end)
    }
}

/// A literal, a name, a prefix operation, a cast or a parenthesized
/// expression.
pub open spec fn operand_from(tokens: Seq<SpannedToken>, pos: int, e: Expression, end: int) -> bool
    decreases tokens.len() - pos, e, 1int,
{
    0 <= pos < tokens.len() && match tokens[pos].token {
        TokenKind::Integer(value) => e == Expression::Integer { value, span: tokens[pos].span } && end == pos + 1,
        TokenKind::Character(value) => e == Expression::Character { value, span: tokens[pos].span } && end == pos + 1,
        TokenKind::StringLiteral(bytes) => e matches Expression::String { value, span } && value@ == bytes@ && span
            == tokens[pos].span && end == pos + 1,
        TokenKind::True => e == Expression::Boolean { value: true, span: tokens[pos].span } && end == pos + 1,
        TokenKind::False => e == Expression::Boolean { value: false, span: tokens[pos].span } && end == pos + 1,
        TokenKind::Identifier(value) => e == Expression::Name { value, span: tokens[pos].span } && end == pos + 1,
        TokenKind::LeftParen => if starts_type(tokens, pos + 1) {
            e matches Expression::Cast { ty, operand, span } && match type_at(tokens, pos + 1) {
                Some((t, m)) => pos < m < tokens.len() && t == ty && tok_is(tokens, m, TokenKind::RightParen)
                    && prefix_from(tokens, m + 1, *operand, end)
                    && span == Span { start: tokens[pos].span.start, end: expression_span(*operand).end },
                None => false,
            }
        } else {
            exists|m: int|
                #![trigger tok_is(tokens, m, TokenKind::RightParen)]
                pos < m < tokens.len() && expression_from(tokens, pos + 1, e, m) && tok_is(tokens, m, TokenKind::RightParen)
                    && end == m + 1
        },
        other => match unary_operator_of(other) {
            Some(op) => e matches Expression::Unary { operator, operand, span } && operator == op && prefix_from(
                tokens,
                pos + 1,
                *operand,
                end,
            ) && span == Span { start: tokens[pos].span.start, end: expression_span(*operand).end },
            None => false,
        },
    }
}

// ---------------------------------------------------------------------------
// Where reading an expression stops. These follow the parser's decisions
// token by token and say only where each construct ends, or that there is
// none to read.

/// Where an expression read at `pos` ends.
pub open spec fn expression_end(tokens: Seq<SpannedToken>, pos: int) -> Option<int>
    decreases tokens.len() - pos, 6int,
{
    binary_end(tokens, pos, 0)
}

/// Where an expression with operators of precedence at least `minimum`
/// ends.
pub open spec fn binary_end(tokens: Seq<SpannedToken>, pos: int, minimum: int) -> Option<int>
    decreases tokens.len() - pos, 5int,
{
    match prefix_end(tokens, pos) {
        Some(m) => if pos < m <= tokens.len() {
            operators_end(tokens, m, minimum)
        } else {
            None
        },
        None => None,
    }
}

/// Where the operators that follow an operand ending at `m` end.
pub open spec fn operators_end(tokens: Seq<SpannedToken>, m: int, minimum: int) -> Option<int>
    decreases tokens.len() - m, 4int,
{
    if 0 <= m < tokens.len() {
        match binary_operator_of(tokens[m].token) {
            Some((_, p)) => if p >= minimum {
                match binary_end(tokens, m + 1, p + 1) {
                    Some(k) => if m < k <= tokens.len() {
                        operators_end(tokens, k, minimum)
                    } else {
                        None
                    },
                    None => None,
                }
            } else {
                Some(m)
            },
            None => Some(m),
        }
    } else {
        Some(m)
    }
}

/// Where an operand and its postfix operations end.
pub open spec fn prefix_end(tokens: Seq<SpannedToken>, pos: int) -> Option<int>
    decreases tokens.len() - pos, 3int,
{
    match operand_end(tokens, pos) {
        Some(m) => if pos < m <= tokens.len() {
            postfix_end(tokens, m)
        } else {
            None
        },
        None => None,
    }
}

/// Where the postfix operations that start at `m` end.
pub open spec fn postfix_end(tokens: Seq<SpannedToken>, m: int) -> Option<int>
    decreases tokens.len() - m, 2int,
{
    if tok_is(tokens, m, TokenKind::LeftBracket) {
        match expression_end(tokens, m + 1) {
            Some(c) => if m < c < tokens.len() && tok_is(tokens, c, TokenKind::RightBracket) {
                postfix_end(tokens, c + 1)
            } else {
                None
            },
            None => None,
        }
    } else if tok_is(tokens, m, TokenKind::Dot) {
        if m + 1 < tokens.len() && tokens[m + 1].token is Identifier {
            postfix_end(tokens, m + 2)
        } else {
            None
        }
    } else if tok_is(tokens, m, TokenKind::LeftParen) {
        if tok_is(tokens, m + 1, TokenKind::RightParen) {
            postfix_end(tokens, m + 2)
        } else {
            match arguments_end(tokens, m + 1) {
                Some(c) => if m < c < tokens.len() && tok_is(tokens, c, TokenKind::RightParen) {
                    postfix_end(tokens, c + 1)
                } else {
                    None
                },
                None => None,
            }
        }
    } else {
        Some(m)
    }
}

/// Where a comma-separated list of one or more arguments ends.
pub open spec fn arguments_end(tokens: Seq<SpannedToken>, pos: int) -> Option<int>
    decreases tokens.len() - pos, 7int,
{
    match expression_end(tokens, pos) {
        Some(k) => if pos < k < tokens.len() && tok_is(tokens, k, TokenKind::Comma) {
            arguments_end(tokens, k + 1)
        } else {
            Some(k)
        },
        None => None,
    }
}

/// Where an operand ends: a literal, a name, a prefix operation, a cast or
/// a parenthesized expression.
pub open spec fn operand_end(tokens: Seq<SpannedToken>, pos: int) -> Option<int>
    decreases tokens.len() - pos, 1int,
{
    if !(0 <= pos < tokens.len()) {
        None
    } else {
        match tokens[pos].token {
            TokenKind::Integer(_) => Some(pos + 1),
            TokenKind::Character(_) => Some(pos + 1),
            TokenKind::StringLiteral(_) => Some(pos + 1),
            TokenKind::True => Some(pos + 1),
            TokenKind::False => Some(pos + 1),
            TokenKind::Identifier(_) => Some(pos + 1),
            TokenKind::LeftParen => if starts_type(tokens, pos + 1) {
                match type_at(tokens, pos + 1) {
                    Some((_, m)) => if pos < m < tokens.len() && tok_is(tokens, m, TokenKind::RightParen) {
                        prefix_end(tokens, m + 1)
                    } else {
                        None
                    },
                    None => None,
                }
            } else {
                match expression_end(tokens, pos + 1) {
                    Some(m) => if pos < m < tokens.len() && tok_is(tokens, m, TokenKind::RightParen) {
                        Some(m + 1)
                    } else {
                        None
                    },
                    None => None,
                }
            },
            other => if unary_operator_of(other) is Some {
                prefix_end(tokens, pos + 1)
            } else {
                None
            },
        }
    }
}

// ---------------------------------------------------------------------------
// An expression read from the tokens ends where the parser stops.

pub(crate) proof fn lemma_expression_end(tokens: Seq<SpannedToken>, pos: int, e: Expression, end: int)
    requires
        expression_from(tokens, pos, e, end),
    ensures
        expression_end(tokens, pos) == Some(end),
        pos < end <= tokens.len(),
        operand_end(tokens, pos) is Some,
    decreases tokens.len() - pos, e, 6int,
{
    lemma_binary_end(tokens, pos, e, end, 0);
}

pub(crate) proof fn lemma_binary_end(tokens: Seq<SpannedToken>, pos: int, e: Expression, end: int, minimum: int)
    requires
        binary_from(tokens, pos, e, end, minimum),
    ensures
        binary_end(tokens, pos, minimum) == Some(end),
        pos < end <= tokens.len(),
        operand_end(tokens, pos) is Some,
    decreases tokens.len() - pos, e, 5int,
{
    lemma_chain_end(tokens, pos, e, end, minimum);
}

pub(crate) proof fn lemma_chain_end(tokens: Seq<SpannedToken>, pos: int, e: Expression, end: int, minimum: int)
    requires
        chain_from(tokens, pos, e, end, minimum),
    ensures
        prefix_end(tokens, pos) matches Some(first) && pos < first <= tokens.len() && operators_end(
            tokens,
            first,
            minimum,
        ) == operators_end(tokens, end, minimum),
        pos < end <= tokens.len(),
        operand_end(tokens, pos) is Some,
    decreases tokens.len() - pos, e, 4int,
{
    if prefix_from(tokens, pos, e, end) {
        lemma_prefix_end(tokens, pos, e, end);
    } else {
        match e {
            Expression::Binary { left, operator, right, span } => {
                let m = choose|m: int|
                    #![trigger tokens[m]]
                    pos < m < tokens.len() && chain_from(tokens, pos, *left, m, minimum) && match binary_operator_of(
                        tokens[m].token,
                    ) {
                        Some((op, p)) => op == operator && p >= minimum && binary_from(tokens, m + 1, *right, end, p + 1),
                        None => false,
                    } && span == Span { start: expression_span(*left).start, end: expression_span(*right).end };
                lemma_chain_end(tokens, pos, *left, m, minimum);
                let p = binary_operator_of(tokens[m].token)->Some_0.1;
                lemma_binary_end(tokens, m + 1, *right, end, p + 1);
            },
            _ => {},
        }
    }
}

pub(crate) proof fn lemma_prefix_end(tokens: Seq<SpannedToken>, pos: int, e: Expression, end: int)
    requires
        prefix_from(tokens, pos, e, end),
    ensures
        prefix_end(tokens, pos) == Some(end),
        pos < end <= tokens.len(),
        operand_end(tokens, pos) is Some,
    decreases tokens.len() - pos, e, 3int,
{
    lemma_postfix_chain_end(tokens, pos, e, end);
}

pub(crate) proof fn lemma_postfix_chain_end(tokens: Seq<SpannedToken>, pos: int, e: Expression, end: int)
    requires
        postfix_chain_from(tokens, pos, e, end),
    ensures
        operand_end(tokens, pos) matches Some(first) && pos < first <= tokens.len() && postfix_end(tokens, first)
            == postfix_end(tokens, end),
        pos < end <= tokens.len(),
    decreases tokens.len() - pos, e, 2int,
{
    if operand_from(tokens, pos, e, end) {
        lemma_operand_end(tokens, pos, e, end);
    } else {
        match e {
            Expression::Index { base, index, span } => {
                let (m, c) = choose|m: int, c: int|
                    #![trigger tok_is(tokens, m, TokenKind::LeftBracket), tok_is(tokens, c, TokenKind::RightBracket)]
                    pos < m < c < tokens.len() && postfix_chain_from(tokens, pos, *base, m) && tok_is(
                        tokens,
                        m,
                        TokenKind::LeftBracket,
                    ) && expression_from(tokens, m + 1, *index, c) && tok_is(tokens, c, TokenKind::RightBracket) && end
                        == c + 1 && span == Span { start: expression_span(*base).start, end: tokens[c].span.end };
                lemma_postfix_chain_end(tokens, pos, *base, m);
                lemma_expression_end(tokens, m + 1, *index, c);
            },
            Expression::Field { base, field, span } => {
                let m = choose|m: int|
                    #![trigger tok_is(tokens, m, TokenKind::Dot)]
                    pos < m < tokens.len() && postfix_chain_from(tokens, pos, *base, m) && tok_is(tokens, m, TokenKind::Dot)
                        && identifier_at(tokens, m + 1, field) && end == m + 2 && span == Span {
                        start: expression_span(*base).start,
                        end: tokens[m + 1].span.end,
                    };
                lemma_postfix_chain_end(tokens, pos, *base, m);
            },
            Expression::Call { callee, arguments, span } => {
                let (m, c) = choose|m: int, c: int|
                    #![trigger tok_is(tokens, m, TokenKind::LeftParen), tok_is(tokens, c, TokenKind::RightParen)]
                    pos < m < c < tokens.len() && postfix_chain_from(tokens, pos, *callee, m) && tok_is(
                        tokens,
                        m,
                        TokenKind::LeftParen,
                    ) && arguments_from(tokens, m + 1, arguments@, arguments@.len() as int, c) && tok_is(
                        tokens,
                        c,
                        TokenKind::RightParen,
                    ) && end == c + 1 && span == Span { start: expression_span(*callee).start, end: tokens[c].span.end };
                lemma_postfix_chain_end(tokens, pos, *callee, m);
                if arguments@.len() > 0 {
                    lemma_arguments_end(tokens, m + 1, arguments@, arguments@.len() as int, c);
                }
            },
            _ => {},
        }
    }
}

pub(crate) proof fn lemma_arguments_end(tokens: Seq<SpannedToken>, pos: int, arguments: Seq<Expression>, count: int, end: int)
    requires
        arguments_from(tokens, pos, arguments, count, end),
        1 <= count <= arguments.len(),
    ensures
        arguments_end(tokens, pos) == if tok_is(tokens, end, TokenKind::Comma) {
            arguments_end(tokens, end + 1)
        } else {
            Some(end)
        },
        pos < end <= tokens.len(),
        operand_end(tokens, pos) is Some,
    decreases tokens.len() - pos, arguments, count,
{
    if count == 1 {
        lemma_expression_end(tokens, pos, arguments[0], end);
    } else {
        let m = choose|m: int|
            #![trigger tok_is(tokens, m, TokenKind::Comma)]
            pos <= m < tokens.len() && arguments_from(tokens, pos, arguments, count - 1, m) && tok_is(tokens, m, TokenKind::Comma)
                && expression_from(tokens, m + 1, arguments[count - 1], end);
        lemma_arguments_end(tokens, pos, arguments, count - 1, m);
        lemma_expression_end(tokens, m + 1, arguments[count - 1], end);
    }
}

pub(crate) proof fn lemma_operand_end(tokens: Seq<SpannedToken>, pos: int, e: Expression, end: int)
    requires
        operand_from(tokens, pos, e, end),
    ensures
        operand_end(tokens, pos) == Some(end),
        pos < end <= tokens.len(),
    decreases tokens.len() - pos, e, 1int,
{
    match tokens[pos].token {
        TokenKind::LeftParen => {
            if starts_type(tokens, pos + 1) {
                match e {
                    Expression::Cast { ty, operand, span } => {
                        let m = type_at(tokens, pos + 1)->Some_0.1;
                        lemma_prefix_end(tokens, m + 1, *operand, end);
                    },
                    _ => {},
                }
            } else {
                let m = choose|m: int|
                    #![trigger tok_is(tokens, m, TokenKind::RightParen)]
                    pos < m < tokens.len() && expression_from(tokens, pos + 1, e, m) && tok_is(tokens, m, TokenKind::RightParen)
                        && end == m + 1;
                lemma_expression_end(tokens, pos + 1, e, m);
            }
        },
        other => {
            if unary_operator_of(other) is Some {
                match e {
                    Expression::Unary { operator, operand, span } => {
                        lemma_prefix_end(tokens, pos + 1, *operand, end);
                    },
                    _ => {},
                }
            }
        },
    }
}

// ---------------------------------------------------------------------------
// Statements.

/// A braced block.
pub open spec fn block_from(tokens: Seq<SpannedToken>, pos: int, b: Block, end: int) -> bool
    decreases b, 0int,
{
    tok_is(tokens, pos, TokenKind::LeftBrace) && exists|m: int|
        #![trigger tok_is(tokens, m, TokenKind::RightBrace)]
        pos < m < tokens.len() && statements_from(tokens, pos + 1, b.statements@, b.statements@.len() as int, m)
            && tok_is(tokens, m, TokenKind::RightBrace) && end == m + 1 && b.span == tokens_span(tokens, pos, m)
}

/// Whether a statement can start at `i`: the block has not ended.
pub open spec fn statement_follows(tokens: Seq<SpannedToken>, i: int) -> bool {
    0 <= i < tokens.len() && tokens[i].token != TokenKind::RightBrace && tokens[i].token != TokenKind::Eof
}

/// The first `count` statements of a block.
pub open spec fn statements_from(
    tokens: Seq<SpannedToken>,
    pos: int,
    statements: Seq<Statement>,
    count: int,
    end: int,
) -> bool
    decreases statements, count,
{
    if count <= 0 || count > statements.len() {
        count == 0 && end == pos
    } else {
        exists|m: int|
            #![trigger statement_follows(tokens, m)]
            statements_from(tokens, pos, statements, count - 1, m) && statement_follows(tokens, m)
                && statement_from(tokens, m, statements[count - 1], end)
    }
}

/// Whether a token starts a declaration: a keyword type or `struct`.
pub open spec fn starts_declaration(kind: TokenKind) -> bool {
    kind == TokenKind::Struct || keyword_type(kind) is Some
}

/// One statement.
pub open spec fn statement_from(tokens: Seq<SpannedToken>, pos: int, s: Statement, end: int) -> bool
    decreases s, 0int,
{
    0 <= pos < tokens.len() && match tokens[pos].token {
        TokenKind::Let => s matches Statement::Let { name, value, span } && identifier_at(tokens, pos + 1, name)
            && tok_is(tokens, pos + 2, TokenKind::Equal) && exists|m: int|
            #![trigger tok_is(tokens, m, TokenKind::Semicolon)]
            expression_from(tokens, pos + 3, value, m) && tok_is(tokens, m, TokenKind::Semicolon) && end == m + 1
                && span == tokens_span(tokens, pos, m),
        TokenKind::Return => s matches Statement::Return { value, span } && if tok_is(tokens, pos + 1, TokenKind::Semicolon) {
            value is None && end == pos + 2 && span == tokens_span(tokens, pos, pos + 1)
        } else {
            value matches Some(v) && exists|m: int|
                #![trigger tok_is(tokens, m, TokenKind::Semicolon)]
                expression_from(tokens, pos + 1, v, m) && tok_is(tokens, m, TokenKind::Semicolon) && end == m + 1
                    && span == tokens_span(tokens, pos, m)
        },
        TokenKind::If => s matches Statement::If { condition, then_branch, else_branch, span } && tok_is(
            tokens,
            pos + 1,
            TokenKind::LeftParen,
        ) && exists|m: int, b: int|
            #![trigger tok_is(tokens, m, TokenKind::RightParen), tok_is(tokens, b, TokenKind::Else)]
            expression_from(tokens, pos + 2, condition, m) && tok_is(tokens, m, TokenKind::RightParen) && block_from(
                tokens,
                m + 1,
                then_branch,
                b,
            ) && if tok_is(tokens, b, TokenKind::Else) {
                else_branch matches Some(other) && block_from(tokens, b + 1, other, end) && span == Span {
                    start: tokens[pos].span.start,
                    end: other.span.end,
                }
            } else {
                else_branch is None && end == b && span == Span {
                    start: tokens[pos].span.start,
                    end: then_branch.span.end,
                }
            },
        TokenKind::While => s matches Statement::While { condition, body, span } && tok_is(
            tokens,
            pos + 1,
            TokenKind::LeftParen,
        ) && exists|m: int|
            #![trigger tok_is(tokens, m, TokenKind::RightParen)]
            expression_from(tokens, pos + 2, condition, m) && tok_is(tokens, m, TokenKind::RightParen) && block_from(
                tokens,
                m + 1,
                body,
                end,
            ) && span == Span { start: tokens[pos].span.start, end: body.span.end },
        TokenKind::LeftBrace => s matches Statement::Block(b) && block_from(tokens, pos, b, end),
        other => if starts_declaration(other) {
            s matches Statement::Declare { ty, name, span } && match type_at(tokens, pos) {
                Some((t, m)) => t == ty && identifier_at(tokens, m, name) && tok_is(tokens, m + 1, TokenKind::Semicolon)
                    && end == m + 2 && span == tokens_span(tokens, pos, m + 1),
                None => false,
            }
        } else {
            ||| s matches Statement::Assign { target, value, span } && exists|m: int, c: int|
                #![trigger tok_is(tokens, m, TokenKind::Equal), tok_is(tokens, c, TokenKind::Semicolon)]
                expression_from(tokens, pos, target, m) && tok_is(tokens, m, TokenKind::Equal) && expression_from(
                    tokens,
                    m + 1,
                    value,
                    c,
                ) && tok_is(tokens, c, TokenKind::Semicolon) && end == c + 1 && span == Span {
                    start: expression_span(target).start,
                    end: tokens[c].span.end,
                }
            ||| s matches Statement::Expression { expression, span } && exists|m: int|
                #![trigger tok_is(tokens, m, TokenKind::Semicolon)]
                expression_from(tokens, pos, expression, m) && tok_is(tokens, m, TokenKind::Semicolon) && end == m + 1
                    && span == Span { start: expression_span(expression).start, end: tokens[m].span.end }
        },
    }
}

/// Where a statement read at `pos` ends.
pub open spec fn statement_end(tokens: Seq<SpannedToken>, pos: int) -> Option<int>
    decreases tokens.len() - pos, 2int,
{
    if !(0 <= pos < tokens.len()) {
        None
    } else {
        match tokens[pos].token {
            TokenKind::Let => if pos + 2 < tokens.len() && tokens[pos + 1].token is Identifier && tok_is(
                tokens,
                pos + 2,
                TokenKind::Equal,
            ) {
                semicolon_after(tokens, pos, expression_end(tokens, pos + 3))
            } else {
                None
            },
            TokenKind::Return => if tok_is(tokens, pos + 1, TokenKind::Semicolon) {
                Some(pos + 2)
            } else {
                semicolon_after(tokens, pos, expression_end(tokens, pos + 1))
            },
            TokenKind::If => if tok_is(tokens, pos + 1, TokenKind::LeftParen) {
                match expression_end(tokens, pos + 2) {
                    Some(m) => if pos < m < tokens.len() && tok_is(tokens, m, TokenKind::RightParen) {
                        match block_end(tokens, m + 1) {
                            Some(b) => if m < b <= tokens.len() {
                                if tok_is(tokens, b, TokenKind::Else) {
                                    block_end(tokens, b + 1)
                                } else {
                                    Some(b)
                                }
                            } else {
                                None
                            },
                            None => None,
                        }
                    } else {
                        None
                    },
                    None => None,
                }
            } else {
                None
            },
            TokenKind::While => if tok_is(tokens, pos + 1, TokenKind::LeftParen) {
                match expression_end(tokens, pos + 2) {
                    Some(m) => if pos < m < tokens.len() && tok_is(tokens, m, TokenKind::RightParen) {
                        block_end(tokens, m + 1)
                    } else {
                        None
                    },
                    None => None,
                }
            } else {
                None
            },
            TokenKind::LeftBrace => block_end(tokens, pos),
            other => if starts_declaration(other) {
                match type_at(tokens, pos) {
                    Some((_, m)) => if pos < m && m + 1 < tokens.len() && tokens[m].token is Identifier && tok_is(
                        tokens,
                        m + 1,
                        TokenKind::Semicolon,
                    ) {
                        Some(m + 2)
                    } else {
                        None
                    },
                    None => None,
                }
            } else {
                match expression_end(tokens, pos) {
                    Some(m) => if pos < m < tokens.len() && tok_is(tokens, m, TokenKind::Equal) {
                        semicolon_after(tokens, m, expression_end(tokens, m + 1))
                    } else if pos < m < tokens.len() && tok_is(tokens, m, TokenKind::Semicolon) {
                        Some(m + 1)
                    } else {
                        None
                    },
                    None => None,
                }
            },
        }
    }
}

/// After something that ends at `m` (past `pos`), a semicolon ends the
/// statement.
pub open spec fn semicolon_after(tokens: Seq<SpannedToken>, pos: int, m: Option<int>) -> Option<int> {
    match m {
        Some(m) => if pos < m < tokens.len() && tok_is(tokens, m, TokenKind::Semicolon) {
            Some(m + 1)
        } else {
            None
        },
        None => None,
    }
}

/// Where a block read at `pos` ends.
pub open spec fn block_end(tokens: Seq<SpannedToken>, pos: int) -> Option<int>
    decreases tokens.len() - pos, 1int,
{
    if tok_is(tokens, pos, TokenKind::LeftBrace) {
        statements_end(tokens, pos + 1)
    } else {
        None
    }
}

/// Where the rest of a block, from its statement at `pos` to its closing
/// brace, ends.
pub open spec fn statements_end(tokens: Seq<SpannedToken>, pos: int) -> Option<int>
    decreases tokens.len() - pos, 3int,
{
    if statement_follows(tokens, pos) {
        match statement_end(tokens, pos) {
            Some(m) => if pos < m <= tokens.len() {
                statements_end(tokens, m)
            } else {
                None
            },
            None => None,
        }
    } else if tok_is(tokens, pos, TokenKind::RightBrace) {
        Some(pos + 1)
    } else {
        None
    }
}

// ---------------------------------------------------------------------------
// A statement read from the tokens ends where the parser stops.

pub(crate) proof fn lemma_statement_end(tokens: Seq<SpannedToken>, pos: int, s: Statement, end: int)
    requires
        statement_from(tokens, pos, s, end),
    ensures
        statement_end(tokens, pos) == Some(end),
        pos < end <= tokens.len(),
    decreases s, 0int,
{
    lemma_type_end(tokens, pos);
    match tokens[pos].token {
        TokenKind::Let => {
            match s {
                Statement::Let { name, value, span } => {
                    let m = choose|m: int|
                        #![trigger tok_is(tokens, m, TokenKind::Semicolon)]
                        expression_from(tokens, pos + 3, value, m) && tok_is(tokens, m, TokenKind::Semicolon) && end == m + 1
                            && span == tokens_span(tokens, pos, m);
                    lemma_expression_end(tokens, pos + 3, value, m);
                },
                _ => {},
            }
        },
        TokenKind::Return => {
            match s {
                Statement::Return { value, span } => {
                    if !tok_is(tokens, pos + 1, TokenKind::Semicolon) {
                        let v = value->Some_0;
                        let m = choose|m: int|
                            #![trigger tok_is(tokens, m, TokenKind::Semicolon)]
                            expression_from(tokens, pos + 1, v, m) && tok_is(tokens, m, TokenKind::Semicolon) && end == m + 1
                                && span == tokens_span(tokens, pos, m);
                        lemma_expression_end(tokens, pos + 1, v, m);
                    }
                },
                _ => {},
            }
        },
        TokenKind::If => {
            match s {
                Statement::If { condition, then_branch, else_branch, span } => {
                    let (m, b) = choose|m: int, b: int|
                        #![trigger tok_is(tokens, m, TokenKind::RightParen), tok_is(tokens, b, TokenKind::Else)]
                        expression_from(tokens, pos + 2, condition, m) && tok_is(tokens, m, TokenKind::RightParen) && block_from(
                            tokens,
                            m + 1,
                            then_branch,
                            b,
                        ) && if tok_is(tokens, b, TokenKind::Else) {
                            else_branch matches Some(other) && block_from(tokens, b + 1, other, end) && span == Span {
                                start: tokens[pos].span.start,
                                end: other.span.end,
                            }
                        } else {
                            else_branch is None && end == b && span == Span {
                                start: tokens[pos].span.start,
                                end: then_branch.span.end,
                            }
                        };
                    lemma_expression_end(tokens, pos + 2, condition, m);
                    lemma_block_end(tokens, m + 1, then_branch, b);
                    if tok_is(tokens, b, TokenKind::Else) {
                        lemma_block_end(tokens, b + 1, else_branch->Some_0, end);
                    }
                },
                _ => {},
            }
        },
        TokenKind::While => {
            match s {
                Statement::While { condition, body, span } => {
                    let m = choose|m: int|
                        #![trigger tok_is(tokens, m, TokenKind::RightParen)]
                        expression_from(tokens, pos + 2, condition, m) && tok_is(tokens, m, TokenKind::RightParen) && block_from(
                            tokens,
                            m + 1,
                            body,
                            end,
                        ) && span == Span { start: tokens[pos].span.start, end: body.span.end };
                    lemma_expression_end(tokens, pos + 2, condition, m);
                    lemma_block_end(tokens, m + 1, body, end);
                },
                _ => {},
            }
        },
        TokenKind::LeftBrace => {
            match s {
                Statement::Block(b) => {
                    lemma_block_end(tokens, pos, b, end);
                },
                _ => {},
            }
        },
        other => {
            if !starts_declaration(other) {
                match s {
                    Statement::Assign { target, value, span } => {
                        let (m, c) = choose|m: int, c: int|
                            #![trigger tok_is(tokens, m, TokenKind::Equal), tok_is(tokens, c, TokenKind::Semicolon)]
                            expression_from(tokens, pos, target, m) && tok_is(tokens, m, TokenKind::Equal) && expression_from(
                                tokens,
                                m + 1,
                                value,
                                c,
                            ) && tok_is(tokens, c, TokenKind::Semicolon) && end == c + 1 && span == Span {
                                start: expression_span(target).start,
                                end: tokens[c].span.end,
                            };
                        lemma_expression_end(tokens, pos, target, m);
                        lemma_expression_end(tokens, m + 1, value, c);
                    },
                    Statement::Expression { expression, span } => {
                        let m = choose|m: int|
                            #![trigger tok_is(tokens, m, TokenKind::Semicolon)]
                            expression_from(tokens, pos, expression, m) && tok_is(tokens, m, TokenKind::Semicolon) && end == m
                                + 1 && span == Span { start: expression_span(expression).start, end: tokens[m].span.end };
                        lemma_expression_end(tokens, pos, expression, m);
                    },
                    _ => {},
                }
            }
        },
    }
}

pub(crate) proof fn lemma_block_end(tokens: Seq<SpannedToken>, pos: int, b: Block, end: int)
    requires
        block_from(tokens, pos, b, end),
    ensures
        block_end(tokens, pos) == Some(end),
        pos < end <= tokens.len(),
    decreases b, 0int,
{
    let m = choose|m: int|
        #![trigger tok_is(tokens, m, TokenKind::RightBrace)]
        pos < m < tokens.len() && statements_from(tokens, pos + 1, b.statements@, b.statements@.len() as int, m)
            && tok_is(tokens, m, TokenKind::RightBrace) && end == m + 1 && b.span == tokens_span(tokens, pos, m);
    lemma_statements_end(tokens, pos + 1, b.statements@, b.statements@.len() as int, m);
}

pub(crate) proof fn lemma_statements_end(tokens: Seq<SpannedToken>, pos: int, statements: Seq<Statement>, count: int, end: int)
    requires
        statements_from(tokens, pos, statements, count, end),
        0 <= pos <= tokens.len(),
    ensures
        statements_end(tokens, pos) == statements_end(tokens, end),
        pos <= end <= tokens.len(),
    decreases statements, count,
{
    if 0 < count <= statements.len() {
        let m = choose|m: int|
            #![trigger statement_follows(tokens, m)]
            statements_from(tokens, pos, statements, count - 1, m) && statement_follows(tokens, m) && statement_from(
                tokens,
                m,
                statements[count - 1],
                end,
            );
        lemma_statements_end(tokens, pos, statements, count - 1, m);
        lemma_statement_end(tokens, m, statements[count - 1], end);
    }
}

// ---------------------------------------------------------------------------
// Declarations.

/// `type name ;` inside a struct.
pub open spec fn field_from(tokens: Seq<SpannedToken>, pos: int, f: StructField, end: int) -> bool {
    match type_at(tokens, pos) {
        Some((t, m)) => t == f.ty && identifier_at(tokens, m, f.name) && tok_is(tokens, m + 1, TokenKind::Semicolon)
            && end == m + 2 && f.span == tokens_span(tokens, pos, m),
        None => false,
    }
}

/// The first `count` fields of a struct.
pub open spec fn fields_from(tokens: Seq<SpannedToken>, pos: int, fields: Seq<StructField>, count: int, end: int) -> bool
    decreases count,
{
    if count <= 0 || count > fields.len() {
        count == 0 && end == pos
    } else {
        exists|m: int|
            #![trigger statement_follows(tokens, m)]
            fields_from(tokens, pos, fields, count - 1, m) && statement_follows(tokens, m) && field_from(
                tokens,
                m,
                fields[count - 1],
                end,
            )
    }
}

/// `struct name { fields }`.
pub open spec fn struct_from(tokens: Seq<SpannedToken>, pos: int, d: StructDefinition, end: int) -> bool {
    tok_is(tokens, pos, TokenKind::Struct) && identifier_at(tokens, pos + 1, d.name) && tok_is(
        tokens,
        pos + 2,
        TokenKind::LeftBrace,
    ) && exists|m: int|
        #![trigger tok_is(tokens, m, TokenKind::RightBrace)]
        fields_from(tokens, pos + 3, d.fields@, d.fields@.len() as int, m) && tok_is(tokens, m, TokenKind::RightBrace)
            && end == m + 1 && d.span == tokens_span(tokens, pos, m)
}

/// `type name` in a parameter list.
pub open spec fn parameter_from(tokens: Seq<SpannedToken>, pos: int, p: Parameter, end: int) -> bool {
    match type_at(tokens, pos) {
        Some((t, m)) => t == p.ty && identifier_at(tokens, m, p.name) && end == m + 1 && p.span == tokens_span(
            tokens,
            pos,
            m,
        ),
        None => false,
    }
}

/// The first `count` parameters, separated by commas.
pub open spec fn parameter_list_from(
    tokens: Seq<SpannedToken>,
    pos: int,
    parameters: Seq<Parameter>,
    count: int,
    end: int,
) -> bool
    decreases count,
{
    if count <= 0 || count > parameters.len() {
        count == 0 && end == pos
    } else if count == 1 {
        parameter_from(tokens, pos, parameters[0], end)
    } else {
        exists|m: int|
            #![trigger tok_is(tokens, m, TokenKind::Comma)]
            parameter_list_from(tokens, pos, parameters, count - 1, m) && tok_is(tokens, m, TokenKind::Comma)
                && parameter_from(tokens, m + 1, parameters[count - 1], end)
    }
}

/// `( parameters )`.
pub open spec fn parameters_from(tokens: Seq<SpannedToken>, pos: int, parameters: Seq<Parameter>, end: int) -> bool {
    tok_is(tokens, pos, TokenKind::LeftParen) && if tok_is(tokens, pos + 1, TokenKind::RightParen) {
        parameters.len() == 0 && end == pos + 2
    } else {
        exists|m: int|
            #![trigger tok_is(tokens, m, TokenKind::RightParen)]
            parameters.len() > 0 && parameter_list_from(tokens, pos + 1, parameters, parameters.len() as int, m)
                && tok_is(tokens, m, TokenKind::RightParen) && end == m + 1
    }
}

/// `extern type name ( parameters ) ;`.
pub open spec fn extern_from(tokens: Seq<SpannedToken>, pos: int, x: ExternFunction, end: int) -> bool {
    tok_is(tokens, pos, TokenKind::Extern) && match type_at(tokens, pos + 1) {
        Some((t, m)) => t == x.return_type && identifier_at(tokens, m, x.name) && exists|c: int|
            #![trigger tok_is(tokens, c, TokenKind::Semicolon)]
            parameters_from(tokens, m + 1, x.parameters@, c) && tok_is(tokens, c, TokenKind::Semicolon) && end == c + 1
                && x.span == tokens_span(tokens, pos, c),
        None => false,
    }
}

/// `type name ( parameters ) { body }`.
pub open spec fn function_from(tokens: Seq<SpannedToken>, pos: int, f: Function, end: int) -> bool {
    match type_at(tokens, pos) {
        Some((t, m)) => t == f.return_type && identifier_at(tokens, m, f.name) && exists|c: int|
            #![trigger parameters_from(tokens, m + 1, f.parameters@, c)]
            parameters_from(tokens, m + 1, f.parameters@, c) && block_from(tokens, c, f.body, end) && f.span == Span {
                start: tokens[pos].span.start,
                end: f.body.span.end,
            },
        None => false,
    }
}

/// The first `s` structs, `x` extern declarations and `f` functions, in
/// the order they appear in the source.
pub open spec fn items_from(
    tokens: Seq<SpannedToken>,
    pos: int,
    structs: Seq<StructDefinition>,
    externs: Seq<ExternFunction>,
    functions: Seq<Function>,
    s: int,
    x: int,
    f: int,
    end: int,
) -> bool
    decreases s + x + f,
{
    if s < 0 || x < 0 || f < 0 || s > structs.len() || x > externs.len() || f > functions.len() {
        false
    } else if s == 0 && x == 0 && f == 0 {
        end == pos
    } else {
        exists|m: int|
            #![trigger tokens[m]]
            0 <= m < tokens.len() && tokens[m].token != TokenKind::Eof && if tokens[m].token == TokenKind::Struct {
                s > 0 && items_from(tokens, pos, structs, externs, functions, s - 1, x, f, m) && struct_from(
                    tokens,
                    m,
                    structs[s - 1],
                    end,
                )
            } else if tokens[m].token == TokenKind::Extern {
                x > 0 && items_from(tokens, pos, structs, externs, functions, s, x - 1, f, m) && extern_from(
                    tokens,
                    m,
                    externs[x - 1],
                    end,
                )
            } else {
                f > 0 && items_from(tokens, pos, structs, externs, functions, s, x, f - 1, m) && function_from(
                    tokens,
                    m,
                    functions[f - 1],
                    end,
                )
            }
    }
}

/// A whole program: its items, then the end of input. The program's span
/// runs from the first token to the end-of-input token.
pub open spec fn program_from(tokens: Seq<SpannedToken>, p: Program) -> bool {
    exists|m: int|
        #![trigger tok_is(tokens, m, TokenKind::Eof)]
        items_from(
            tokens,
            0,
            p.structs@,
            p.extern_functions@,
            p.functions@,
            p.structs@.len() as int,
            p.extern_functions@.len() as int,
            p.functions@.len() as int,
            m,
        ) && tok_is(tokens, m, TokenKind::Eof) && p.span == tokens_span(tokens, 0, m)
}

// ---------------------------------------------------------------------------
// Where reading declarations stops.

/// Where the fields of a struct, from the one at `pos` to the closing
/// brace, end.
pub open spec fn fields_end(tokens: Seq<SpannedToken>, pos: int) -> Option<int>
    decreases tokens.len() - pos,
{
    if statement_follows(tokens, pos) {
        match type_at(tokens, pos) {
            Some((_, m)) => if pos < m && m + 1 < tokens.len() && tokens[m].token is Identifier && tok_is(
                tokens,
                m + 1,
                TokenKind::Semicolon,
            ) {
                fields_end(tokens, m + 2)
            } else {
                None
            },
            None => None,
        }
    } else if tok_is(tokens, pos, TokenKind::RightBrace) {
        Some(pos + 1)
    } else {
        None
    }
}

/// Where a struct definition read at `pos` ends.
pub open spec fn struct_end(tokens: Seq<SpannedToken>, pos: int) -> Option<int> {
    if tok_is(tokens, pos, TokenKind::Struct) && pos + 1 < tokens.len() && tokens[pos + 1].token is Identifier && tok_is(
        tokens,
        pos + 2,
        TokenKind::LeftBrace,
    ) {
        fields_end(tokens, pos + 3)
    } else {
        None
    }
}

/// What follows a parameter that ends at `m`: a comma and more
/// parameters, or the closing parenthesis.
pub open spec fn after_parameter(tokens: Seq<SpannedToken>, m: int) -> Option<int>
    decreases tokens.len() - m, 0int,
{
    if tok_is(tokens, m, TokenKind::Comma) {
        parameter_list_end(tokens, m + 1)
    } else if tok_is(tokens, m, TokenKind::RightParen) {
        Some(m + 1)
    } else {
        None
    }
}

/// Where a list of one or more parameters and its closing parenthesis end.
pub open spec fn parameter_list_end(tokens: Seq<SpannedToken>, pos: int) -> Option<int>
    decreases tokens.len() - pos, 1int,
{
    match type_at(tokens, pos) {
        Some((_, m)) => if pos < m < tokens.len() && tokens[m].token is Identifier {
            after_parameter(tokens, m + 1)
        } else {
            None
        },
        None => None,
    }
}

/// Where a parenthesized parameter list read at `pos` ends.
pub open spec fn parameters_end(tokens: Seq<SpannedToken>, pos: int) -> Option<int> {
    if tok_is(tokens, pos, TokenKind::LeftParen) {
        if tok_is(tokens, pos + 1, TokenKind::RightParen) {
            Some(pos + 2)
        } else {
            parameter_list_end(tokens, pos + 1)
        }
    } else {
        None
    }
}

/// Where an extern declaration read at `pos` ends.
pub open spec fn extern_end(tokens: Seq<SpannedToken>, pos: int) -> Option<int> {
    if tok_is(tokens, pos, TokenKind::Extern) {
        match type_at(tokens, pos + 1) {
            Some((_, m)) => if m < tokens.len() && tokens[m].token is Identifier {
                semicolon_after(tokens, m, parameters_end(tokens, m + 1))
            } else {
                None
            },
            None => None,
        }
    } else {
        None
    }
}

/// Where a function definition read at `pos` ends.
pub open spec fn function_end(tokens: Seq<SpannedToken>, pos: int) -> Option<int> {
    match type_at(tokens, pos) {
        Some((_, m)) => if m < tokens.len() && tokens[m].token is Identifier {
            match parameters_end(tokens, m + 1) {
                Some(c) => block_end(tokens, c),
                None => None,
            }
        } else {
            None
        },
        None => None,
    }
}

/// Where the items from `pos` to the end of input end: at the end-of-input
/// token.
pub open spec fn items_end(tokens: Seq<SpannedToken>, pos: int) -> Option<int>
    decreases tokens.len() - pos,
{
    if !(0 <= pos < tokens.len()) {
        None
    } else if tokens[pos].token == TokenKind::Eof {
        Some(pos)
    } else {
        let item = if tokens[pos].token == TokenKind::Struct {
            struct_end(tokens, pos)
        } else if tokens[pos].token == TokenKind::Extern {
            extern_end(tokens, pos)
        } else {
            function_end(tokens, pos)
        };
        match item {
            Some(m) => if pos < m <= tokens.len() {
                items_end(tokens, m)
            } else {
                None
            },
            None => None,
        }
    }
}

// ---------------------------------------------------------------------------
// Declarations read from the tokens end where the parser stops.

pub(crate) proof fn lemma_fields_end(tokens: Seq<SpannedToken>, pos: int, fields: Seq<StructField>, count: int, end: int)
    requires
        fields_from(tokens, pos, fields, count, end),
        0 <= pos <= tokens.len(),
    ensures
        fields_end(tokens, pos) == fields_end(tokens, end),
        pos <= end <= tokens.len(),
    decreases count,
{
    if 0 < count <= fields.len() {
        let m = choose|m: int|
            #![trigger statement_follows(tokens, m)]
            fields_from(tokens, pos, fields, count - 1, m) && statement_follows(tokens, m) && field_from(
                tokens,
                m,
                fields[count - 1],
                end,
            );
        lemma_fields_end(tokens, pos, fields, count - 1, m);
        lemma_type_end(tokens, m);
    }
}

pub(crate) proof fn lemma_struct_end(tokens: Seq<SpannedToken>, pos: int, d: StructDefinition, end: int)
    requires
        struct_from(tokens, pos, d, end),
    ensures
        struct_end(tokens, pos) == Some(end),
        pos < end <= tokens.len(),
{
    let m = choose|m: int|
        #![trigger tok_is(tokens, m, TokenKind::RightBrace)]
        fields_from(tokens, pos + 3, d.fields@, d.fields@.len() as int, m) && tok_is(tokens, m, TokenKind::RightBrace)
            && end == m + 1 && d.span == tokens_span(tokens, pos, m);
    lemma_fields_end(tokens, pos + 3, d.fields@, d.fields@.len() as int, m);
}

pub(crate) proof fn lemma_parameter_list_end(
    tokens: Seq<SpannedToken>,
    pos: int,
    parameters: Seq<Parameter>,
    count: int,
    end: int,
)
    requires
        parameter_list_from(tokens, pos, parameters, count, end),
        1 <= count <= parameters.len(),
    ensures
        parameter_list_end(tokens, pos) == after_parameter(tokens, end),
        pos < end <= tokens.len(),
    decreases count,
{
    if count == 1 {
        lemma_type_end(tokens, pos);
    } else {
        let m = choose|m: int|
            #![trigger tok_is(tokens, m, TokenKind::Comma)]
            parameter_list_from(tokens, pos, parameters, count - 1, m) && tok_is(tokens, m, TokenKind::Comma)
                && parameter_from(tokens, m + 1, parameters[count - 1], end);
        lemma_parameter_list_end(tokens, pos, parameters, count - 1, m);
        lemma_type_end(tokens, m + 1);
    }
}

pub(crate) proof fn lemma_parameters_end(tokens: Seq<SpannedToken>, pos: int, parameters: Seq<Parameter>, end: int)
    requires
        parameters_from(tokens, pos, parameters, end),
    ensures
        parameters_end(tokens, pos) == Some(end),
        pos < end <= tokens.len(),
{
    if !tok_is(tokens, pos + 1, TokenKind::RightParen) {
        let m = choose|m: int|
            #![trigger tok_is(tokens, m, TokenKind::RightParen)]
            parameters.len() > 0 && parameter_list_from(tokens, pos + 1, parameters, parameters.len() as int, m)
                && tok_is(tokens, m, TokenKind::RightParen) && end == m + 1;
        lemma_parameter_list_end(tokens, pos + 1, parameters, parameters.len() as int, m);
    }
}

pub(crate) proof fn lemma_extern_end(tokens: Seq<SpannedToken>, pos: int, x: ExternFunction, end: int)
    requires
        extern_from(tokens, pos, x, end),
    ensures
        extern_end(tokens, pos) == Some(end),
        pos < end <= tokens.len(),
{
    lemma_type_end(tokens, pos + 1);
    let m = type_at(tokens, pos + 1)->Some_0.1;
    let c = choose|c: int|
        #![trigger tok_is(tokens, c, TokenKind::Semicolon)]
        parameters_from(tokens, m + 1, x.parameters@, c) && tok_is(tokens, c, TokenKind::Semicolon) && end == c + 1
            && x.span == tokens_span(tokens, pos, c);
    lemma_parameters_end(tokens, m + 1, x.parameters@, c);
}

pub(crate) proof fn lemma_function_end(tokens: Seq<SpannedToken>, pos: int, f: Function, end: int)
    requires
        function_from(tokens, pos, f, end),
    ensures
        function_end(tokens, pos) == Some(end),
        pos < end <= tokens.len(),
{
    lemma_type_end(tokens, pos);
    let m = type_at(tokens, pos)->Some_0.1;
    let c = choose|c: int|
        #![trigger parameters_from(tokens, m + 1, f.parameters@, c)]
        parameters_from(tokens, m + 1, f.parameters@, c) && block_from(tokens, c, f.body, end) && f.span == Span {
            start: tokens[pos].span.start,
            end: f.body.span.end,
        };
    lemma_parameters_end(tokens, m + 1, f.parameters@, c);
    lemma_block_end(tokens, c, f.body, end);
}

pub(crate) proof fn lemma_items_end(
    tokens: Seq<SpannedToken>,
    pos: int,
    structs: Seq<StructDefinition>,
    externs: Seq<ExternFunction>,
    functions: Seq<Function>,
    s: int,
    x: int,
    f: int,
    end: int,
)
    requires
        items_from(tokens, pos, structs, externs, functions, s, x, f, end),
        0 <= pos <= tokens.len(),
    ensures
        items_end(tokens, pos) == items_end(tokens, end),
        pos <= end <= tokens.len(),
    decreases s + x + f,
{
    if s + x + f > 0 {
        let m = choose|m: int|
            #![trigger tokens[m]]
            0 <= m < tokens.len() && tokens[m].token != TokenKind::Eof && if tokens[m].token == TokenKind::Struct {
                s > 0 && items_from(tokens, pos, structs, externs, functions, s - 1, x, f, m) && struct_from(
                    tokens,
                    m,
                    structs[s - 1],
                    end,
                )
            } else if tokens[m].token == TokenKind::Extern {
                x > 0 && items_from(tokens, pos, structs, externs, functions, s, x - 1, f, m) && extern_from(
                    tokens,
                    m,
                    externs[x - 1],
                    end,
                )
            } else {
                f > 0 && items_from(tokens, pos, structs, externs, functions, s, x, f - 1, m) && function_from(
                    tokens,
                    m,
                    functions[f - 1],
                    end,
                )
            };
        if tokens[m].token == TokenKind::Struct {
            lemma_items_end(tokens, pos, structs, externs, functions, s - 1, x, f, m);
            lemma_struct_end(tokens, m, structs[s - 1], end);
        } else if tokens[m].token == TokenKind::Extern {
            lemma_items_end(tokens, pos, structs, externs, functions, s, x - 1, f, m);
            lemma_extern_end(tokens, m, externs[x - 1], end);
        } else {
            lemma_items_end(tokens, pos, structs, externs, functions, s, x, f - 1, m);
            lemma_function_end(tokens, m, functions[f - 1], end);
        }
    }
}

/// A program read from the tokens is read up to the end of input.
pub(crate) proof fn lemma_program_end(tokens: Seq<SpannedToken>, p: Program)
    requires
        program_from(tokens, p),
    ensures
        items_end(tokens, 0) is Some,
{
    let m = choose|m: int|
        #![trigger tok_is(tokens, m, TokenKind::Eof)]
        items_from(
            tokens,
            0,
            p.structs@,
            p.extern_functions@,
            p.functions@,
            p.structs@.len() as int,
            p.extern_functions@.len() as int,
            p.functions@.len() as int,
            m,
        ) && tok_is(tokens, m, TokenKind::Eof) && p.span == tokens_span(tokens, 0, m);
    lemma_items_end(
        tokens,
        0,
        p.structs@,
        p.extern_functions@,
        p.functions@,
        p.structs@.len() as int,
        p.extern_functions@.len() as int,
        p.functions@.len() as int,
        m,
    );
}

} // verus!
