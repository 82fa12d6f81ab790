//! Where reading stops on tokens that the grammar does not accept, and the
//! syntax error reported there.
//!
//! Each function here follows the parser's decisions token by token, as the
//! `*_end` functions of [`crate::grammar`] do, and gives the error of the
//! first construct that cannot be read: the span of the token at which the
//! parser stands and the message `expected X, found Y`, where `Y` is the
//! token it was looking at. They say something only where the matching
//! `*_end` function is `None`.

use vstd::prelude::*;

use crate::grammar::{
    arguments_end, base_type_at, binary_end, binary_operator_of, block_end, expression_end, extern_end,
    function_end, operand_end, parameters_end, prefix_end, starts_declaration, starts_type, statement_end,
    statement_follows, struct_end, tok_is, type_at, unary_operator_of, word_at,
};
use crate::lexer::{Span, SpannedToken, TokenKind, token_text};

verus! {

/// The error reported at token `at` when `what` was expected and the token
/// at `found` was seen instead (a position outside the tokens gives an empty
/// message).
pub open spec fn stop(tokens: Seq<SpannedToken>, at: int, what: Seq<char>, found: int) -> (Span, Seq<char>) {
    if 0 <= at < tokens.len() && 0 <= found < tokens.len() {
        (tokens[at].span, "expected "@ + what + ", found "@ + token_text(tokens[found].token))
    } else {
        (Span { start: 0, end: 0 }, Seq::empty())
    }
}

/// Where the parser stands after taking the token at `i`: past it, unless it
/// is the end of input.
pub open spec fn after_take(tokens: Seq<SpannedToken>, i: int) -> int {
    if 0 <= i < tokens.len() && tokens[i].token == TokenKind::Eof {
        i
    } else {
        i + 1
    }
}

/// The error when the token `kind` is expected at `i`.
pub open spec fn expect_stop(tokens: Seq<SpannedToken>, i: int, kind: TokenKind) -> (Span, Seq<char>) {
    stop(tokens, i, token_text(kind), i)
}

/// The error when a name, described as `what`, is expected at `i`: the name
/// is taken first, so the error stands after it.
pub open spec fn identifier_stop(tokens: Seq<SpannedToken>, i: int, what: Seq<char>) -> (Span, Seq<char>) {
    stop(tokens, after_take(tokens, i), what, i)
}

// ---------------------------------------------------------------------------
// Types.

/// The error of a base type at `b` that cannot be read.
pub open spec fn base_type_stop(tokens: Seq<SpannedToken>, b: int) -> (Span, Seq<char>) {
    if 0 <= b < tokens.len() && tokens[b].token == TokenKind::Struct {
        identifier_stop(tokens, b + 1, "struct name"@)
    } else {
        stop(tokens, after_take(tokens, b), "type"@, b)
    }
}

/// The error of a type at `pos` that cannot be read: a bad base type, or a
/// `volatile` one without `*`.
pub open spec fn type_stop(tokens: Seq<SpannedToken>, pos: int) -> (Span, Seq<char>) {
    let b = if word_at(tokens, pos, "volatile"@) { pos + 1 } else { pos };
    match base_type_at(tokens, b) {
        Some((_, m)) => expect_stop(tokens, m, TokenKind::Star),
        None => base_type_stop(tokens, b),
    }
}

// ---------------------------------------------------------------------------
// Expressions.

/// The error of an expression at `pos`.
pub open spec fn expression_stop(tokens: Seq<SpannedToken>, pos: int) -> (Span, Seq<char>)
    decreases tokens.len() - pos, 6int,
{
    binary_stop(tokens, pos, 0)
}

/// The error of an expression with operators of precedence at least
/// `minimum`.
pub open spec fn binary_stop(tokens: Seq<SpannedToken>, pos: int, minimum: int) -> (Span, Seq<char>)
    decreases tokens.len() - pos, 5int,
{
    match prefix_end(tokens, pos) {
        Some(m) => if pos < m <= tokens.len() {
            operators_stop(tokens, m, minimum)
        } else {
            stop(tokens, pos, Seq::empty(), pos)
        },
        None => prefix_stop(tokens, pos),
    }
}

/// The error of the operators that follow an operand ending at `m`.
pub open spec fn operators_stop(tokens: Seq<SpannedToken>, m: int, minimum: int) -> (Span, Seq<char>)
    decreases tokens.len() - m, 4int,
{
    if 0 <= m < tokens.len() {
        match binary_operator_of(tokens[m].token) {
            Some((_, p)) => match binary_end(tokens, m + 1, p + 1) {
                Some(k) => if m < k <= tokens.len() {
                    operators_stop(tokens, k, minimum)
                } else {
                    stop(tokens, m, Seq::empty(), m)
                },
                None => binary_stop(tokens, m + 1, p + 1),
            },
            None => stop(tokens, m, Seq::empty(), m),
        }
    } else {
        stop(tokens, m, Seq::empty(), m)
    }
}

/// The error of an operand and its postfix operations.
pub open spec fn prefix_stop(tokens: Seq<SpannedToken>, pos: int) -> (Span, Seq<char>)
    decreases tokens.len() - pos, 3int,
{
    match operand_end(tokens, pos) {
        Some(m) => if pos < m <= tokens.len() {
            postfix_stop(tokens, m)
        } else {
            stop(tokens, pos, Seq::empty(), pos)
        },
        None => operand_stop(tokens, pos),
    }
}

/// The error of the postfix operations that start at `m`.
pub open spec fn postfix_stop(tokens: Seq<SpannedToken>, m: int) -> (Span, Seq<char>)
    decreases tokens.len() - m, 2int,
{
    if tok_is(tokens, m, TokenKind::LeftBracket) {
        match expression_end(tokens, m + 1) {
            Some(c) => if m < c < tokens.len() && tok_is(tokens, c, TokenKind::RightBracket) {
                postfix_stop(tokens, c + 1)
            } else {
                expect_stop(tokens, c, TokenKind::RightBracket)
            },
            None => expression_stop(tokens, m + 1),
        }
    } else if tok_is(tokens, m, TokenKind::Dot) {
        if m + 1 < tokens.len() && tokens[m + 1].token is Identifier {
            postfix_stop(tokens, m + 2)
        } else {
            identifier_stop(tokens, m + 1, "field name"@)
        }
    } else if tok_is(tokens, m, TokenKind::LeftParen) {
        if tok_is(tokens, m + 1, TokenKind::RightParen) {
            postfix_stop(tokens, m + 2)
        } else {
            match arguments_end(tokens, m + 1) {
                Some(c) => if m < c < tokens.len() && tok_is(tokens, c, TokenKind::RightParen) {
                    postfix_stop(tokens, c + 1)
                } else {
                    expect_stop(tokens, c, TokenKind::RightParen)
                },
                None => arguments_stop(tokens, m + 1),
            }
        }
    } else {
        stop(tokens, m, Seq::empty(), m)
    }
}

/// The error of a comma-separated list of arguments.
pub open spec fn arguments_stop(tokens: Seq<SpannedToken>, pos: int) -> (Span, Seq<char>)
    decreases tokens.len() - pos, 7int,
{
    match expression_end(tokens, pos) {
        Some(k) => if pos < k < tokens.len() && tok_is(tokens, k, TokenKind::Comma) {
            arguments_stop(tokens, k + 1)
        } else {
            stop(tokens, pos, Seq::empty(), pos)
        },
        None => expression_stop(tokens, pos),
    }
}

/// The error of an operand: of a prefix operation, a cast, a parenthesized
/// expression, or a token that starts no expression.
pub open spec fn operand_stop(tokens: Seq<SpannedToken>, pos: int) -> (Span, Seq<char>)
    decreases tokens.len() - pos, 1int,
{
    if !(0 <= pos < tokens.len()) {
        stop(tokens, pos, Seq::empty(), pos)
    } else {
        match tokens[pos].token {
            TokenKind::LeftParen => if starts_type(tokens, pos + 1) {
                match type_at(tokens, pos + 1) {
                    Some((_, m)) => if pos < m < tokens.len() && tok_is(tokens, m, TokenKind::RightParen) {
                        prefix_stop(tokens, m + 1)
                    } else {
                        expect_stop(tokens, m, TokenKind::RightParen)
                    },
                    None => type_stop(tokens, pos + 1),
                }
            } else {
                match expression_end(tokens, pos + 1) {
                    Some(m) => expect_stop(tokens, m, TokenKind::RightParen),
                    None => expression_stop(tokens, pos + 1),
                }
            },
            other => if unary_operator_of(other) is Some {
                prefix_stop(tokens, pos + 1)
            } else {
                stop(tokens, after_take(tokens, pos), "expression"@, pos)
            },
        }
    }
}

// ---------------------------------------------------------------------------
// Statements.

/// The error of an expression at `pos` that a semicolon must follow.
pub open spec fn semicolon_stop(tokens: Seq<SpannedToken>, pos: int) -> (Span, Seq<char>) {
    match expression_end(tokens, pos) {
        Some(m) => expect_stop(tokens, m, TokenKind::Semicolon),
        None => expression_stop(tokens, pos),
    }
}

/// The error of a statement at `pos`.
pub open spec fn statement_stop(tokens: Seq<SpannedToken>, pos: int) -> (Span, Seq<char>)
    decreases tokens.len() - pos, 2int,
{
    if !(0 <= pos < tokens.len()) {
        stop(tokens, pos, Seq::empty(), pos)
    } else {
        match tokens[pos].token {
            TokenKind::Let => if !(pos + 1 < tokens.len() && tokens[pos + 1].token is Identifier) {
                identifier_stop(tokens, pos + 1, "variable name"@)
            } else if !tok_is(tokens, pos + 2, TokenKind::Equal) {
                expect_stop(tokens, pos + 2, TokenKind::Equal)
            } else {
                semicolon_stop(tokens, pos + 3)
            },
            TokenKind::Return => semicolon_stop(tokens, pos + 1),
            TokenKind::If => if !tok_is(tokens, pos + 1, TokenKind::LeftParen) {
                expect_stop(tokens, pos + 1, TokenKind::LeftParen)
            } else {
                match expression_end(tokens, pos + 2) {
                    Some(m) => if !(pos < m < tokens.len() && tok_is(tokens, m, TokenKind::RightParen)) {
                        expect_stop(tokens, m, TokenKind::RightParen)
                    } else {
                        match block_end(tokens, m + 1) {
                            Some(b) => if m < b < tokens.len() && tok_is(tokens, b, TokenKind::Else) {
                                block_stop(tokens, b + 1)
                            } else {
                                stop(tokens, pos, Seq::empty(), pos)
                            },
                            None => block_stop(tokens, m + 1),
                        }
                    },
                    None => expression_stop(tokens, pos + 2),
                }
            },
            TokenKind::While => if !tok_is(tokens, pos + 1, TokenKind::LeftParen) {
                expect_stop(tokens, pos + 1, TokenKind::LeftParen)
            } else {
                match expression_end(tokens, pos + 2) {
                    Some(m) => if !(pos < m < tokens.len() && tok_is(tokens, m, TokenKind::RightParen)) {
                        expect_stop(tokens, m, TokenKind::RightParen)
                    } else {
                        block_stop(tokens, m + 1)
                    },
                    None => expression_stop(tokens, pos + 2),
                }
            },
            TokenKind::LeftBrace => block_stop(tokens, pos),
            other => if starts_declaration(other) {
                match type_at(tokens, pos) {
                    Some((_, m)) => if !(m < tokens.len() && tokens[m].token is Identifier) {
                        identifier_stop(tokens, m, "variable name"@)
                    } else {
                        expect_stop(tokens, m + 1, TokenKind::Semicolon)
                    },
                    None => type_stop(tokens, pos),
                }
            } else {
                match expression_end(tokens, pos) {
                    Some(m) => if tok_is(tokens, m, TokenKind::Equal) {
                        semicolon_stop(tokens, m + 1)
                    } else {
                        expect_stop(tokens, m, TokenKind::Semicolon)
                    },
                    None => expression_stop(tokens, pos),
                }
            },
        }
    }
}

/// The error of a block at `pos`.
pub open spec fn block_stop(tokens: Seq<SpannedToken>, pos: int) -> (Span, Seq<char>)
    decreases tokens.len() - pos, 1int,
{
    if tok_is(tokens, pos, TokenKind::LeftBrace) {
        statements_stop(tokens, pos + 1)
    } else {
        expect_stop(tokens, pos, TokenKind::LeftBrace)
    }
}

/// The error of the rest of a block, from its statement at `pos`.
pub open spec fn statements_stop(tokens: Seq<SpannedToken>, pos: int) -> (Span, Seq<char>)
    decreases tokens.len() - pos, 3int,
{
    if statement_follows(tokens, pos) {
        match statement_end(tokens, pos) {
            Some(m) => if pos < m <= tokens.len() {
                statements_stop(tokens, m)
            } else {
                stop(tokens, pos, Seq::empty(), pos)
            },
            None => statement_stop(tokens, pos),
        }
    } else {
        expect_stop(tokens, pos, TokenKind::RightBrace)
    }
}

// ---------------------------------------------------------------------------
// Declarations.

/// The error of the fields of a struct, from the one at `pos`.
pub open spec fn fields_stop(tokens: Seq<SpannedToken>, pos: int) -> (Span, Seq<char>)
    decreases tokens.len() - pos,
{
    if statement_follows(tokens, pos) {
        match type_at(tokens, pos) {
            Some((_, m)) => if !(m < tokens.len() && tokens[m].token is Identifier) {
                identifier_stop(tokens, m, "field name"@)
            } else if !tok_is(tokens, m + 1, TokenKind::Semicolon) {
                expect_stop(tokens, m + 1, TokenKind::Semicolon)
            } else if pos < m {
                fields_stop(tokens, m + 2)
            } else {
                stop(tokens, pos, Seq::empty(), pos)
            },
            None => type_stop(tokens, pos),
        }
    } else {
        expect_stop(tokens, pos, TokenKind::RightBrace)
    }
}

/// The error of a struct definition at `pos`.
pub open spec fn struct_stop(tokens: Seq<SpannedToken>, pos: int) -> (Span, Seq<char>) {
    if !tok_is(tokens, pos, TokenKind::Struct) {
        expect_stop(tokens, pos, TokenKind::Struct)
    } else if !(pos + 1 < tokens.len() && tokens[pos + 1].token is Identifier) {
        identifier_stop(tokens, pos + 1, "struct name"@)
    } else if !tok_is(tokens, pos + 2, TokenKind::LeftBrace) {
        expect_stop(tokens, pos + 2, TokenKind::LeftBrace)
    } else {
        fields_stop(tokens, pos + 3)
    }
}

/// The error of what follows a parameter ending at `m`.
pub open spec fn after_parameter_stop(tokens: Seq<SpannedToken>, m: int) -> (Span, Seq<char>)
    decreases tokens.len() - m, 0int,
{
    if tok_is(tokens, m, TokenKind::Comma) {
        parameter_list_stop(tokens, m + 1)
    } else {
        expect_stop(tokens, m, TokenKind::RightParen)
    }
}

/// The error of a list of parameters from the one at `pos`.
pub open spec fn parameter_list_stop(tokens: Seq<SpannedToken>, pos: int) -> (Span, Seq<char>)
    decreases tokens.len() - pos, 1int,
{
    match type_at(tokens, pos) {
        Some((_, m)) => if !(m < tokens.len() && tokens[m].token is Identifier) {
            identifier_stop(tokens, m, "parameter name"@)
        } else if pos < m {
            after_parameter_stop(tokens, m + 1)
        } else {
            stop(tokens, pos, Seq::empty(), pos)
        },
        None => type_stop(tokens, pos),
    }
}

/// The error of a parenthesized parameter list at `pos`.
pub open spec fn parameters_stop(tokens: Seq<SpannedToken>, pos: int) -> (Span, Seq<char>) {
    if !tok_is(tokens, pos, TokenKind::LeftParen) {
        expect_stop(tokens, pos, TokenKind::LeftParen)
    } else {
        parameter_list_stop(tokens, pos + 1)
    }
}

/// The error of an extern declaration at `pos`.
pub open spec fn extern_stop(tokens: Seq<SpannedToken>, pos: int) -> (Span, Seq<char>) {
    if !tok_is(tokens, pos, TokenKind::Extern) {
        expect_stop(tokens, pos, TokenKind::Extern)
    } else {
        extern_rest_stop(tokens, pos)
    }
}

/// The error of an extern declaration at `pos`, after its keyword.
pub open spec fn extern_rest_stop(tokens: Seq<SpannedToken>, pos: int) -> (Span, Seq<char>) {
    match type_at(tokens, pos + 1) {
        Some((_, m)) => if !(m < tokens.len() && tokens[m].token is Identifier) {
            identifier_stop(tokens, m, "function name"@)
        } else {
            match parameters_end(tokens, m + 1) {
                Some(c) => expect_stop(tokens, c, TokenKind::Semicolon),
                None => parameters_stop(tokens, m + 1),
            }
        },
        None => type_stop(tokens, pos + 1),
    }
}

/// The error of a function definition at `pos`.
pub open spec fn function_stop(tokens: Seq<SpannedToken>, pos: int) -> (Span, Seq<char>) {
    match type_at(tokens, pos) {
        Some((_, m)) => if !(m < tokens.len() && tokens[m].token is Identifier) {
            identifier_stop(tokens, m, "function name"@)
        } else {
            match parameters_end(tokens, m + 1) {
                Some(c) => block_stop(tokens, c),
                None => parameters_stop(tokens, m + 1),
            }
        },
        None => type_stop(tokens, pos),
    }
}

/// The error of the items from `pos` to the end of input: that of the first
/// item that cannot be read.
pub open spec fn items_stop(tokens: Seq<SpannedToken>, pos: int) -> (Span, Seq<char>)
    decreases tokens.len() - pos,
{
    if !(0 <= pos < tokens.len()) || tokens[pos].token == TokenKind::Eof {
        stop(tokens, pos, Seq::empty(), pos)
    } else {
        let item = if tokens[pos].token == TokenKind::Struct {
            struct_end(tokens, pos)
        } else if tokens[pos].token == TokenKind::Extern {
            extern_end(tokens, pos)
        } else {
            function_end(tokens, pos)
        };
        match item {
            Some(m) => if pos < m <= tokens.len() {
                items_stop(tokens, m)
            } else {
                stop(tokens, pos, Seq::empty(), pos)
            },
            None => item_stop(tokens, pos),
        }
    }
}

/// The error of the item at `pos`, by its first token.
pub open spec fn item_stop(tokens: Seq<SpannedToken>, pos: int) -> (Span, Seq<char>) {
    if tok_is(tokens, pos, TokenKind::Struct) {
        struct_stop(tokens, pos)
    } else if tok_is(tokens, pos, TokenKind::Extern) {
        extern_stop(tokens, pos)
    } else {
        function_stop(tokens, pos)
    }
}

} // verus!
