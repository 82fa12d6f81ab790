//! The grammar reads a token sequence one way only: wherever a construct
//! can be read, the tree it reads is determined by the tokens.

use vstd::prelude::*;

use crate::ast::{
    Block, Expression, ExternFunction, Function, Parameter, Program, Statement, StructDefinition,
    StructField, expression_span, same_block, same_expression, same_extern, same_function,
    same_statement, same_struct,
};
use crate::grammar::{
    arguments_end, arguments_from, binary_end, binary_from, binary_operator_of, chain_from,
    expression_end, expression_from, identifier_at, lemma_arguments_end, lemma_binary_end,
    lemma_chain_end, lemma_expression_end, lemma_operand_end, lemma_postfix_chain_end,
    lemma_prefix_end, operand_end, operand_from, postfix_chain_from, prefix_end, prefix_from,
    starts_type, tok_is, type_at, unary_operator_of, block_from, statement_from, statements_from,
    statement_follows, statement_end, lemma_statement_end, lemma_block_end, lemma_statements_end,
    starts_declaration, tokens_span, lemma_type_end, field_from, fields_from, struct_from,
    parameter_from, parameter_list_from, parameters_from, extern_from, function_from, items_from,
    program_from, lemma_fields_end, lemma_struct_end, lemma_parameter_list_end,
    lemma_parameters_end, lemma_extern_end, lemma_function_end, lemma_items_end, struct_end,
    extern_end, function_end, items_end, parameters_end,
};
use crate::lexer::{Span, SpannedToken, TokenKind};

verus! {

/// Same trees have the same span.
pub proof fn lemma_same_expression_span(a: Expression, b: Expression)
    requires
        same_expression(a, b),
    ensures
        expression_span(a) == expression_span(b),
{
}

/// Every tree is the same as itself.
pub proof fn lemma_same_expression_reflexive(e: Expression)
    ensures
        same_expression(e, e),
    decreases e,
{
    match e {
        Expression::Unary { operand, .. } => lemma_same_expression_reflexive(*operand),
        Expression::Binary { left, right, .. } => {
            lemma_same_expression_reflexive(*left);
            lemma_same_expression_reflexive(*right);
        },
        Expression::Call { callee, arguments, .. } => {
            lemma_same_expression_reflexive(*callee);
            assert forall|i: int| 0 <= i < arguments@.len() implies same_expression(
                #[trigger] arguments@[i],
                arguments@[i],
            ) by {
                lemma_same_expression_reflexive(arguments@[i]);
            }
        },
        Expression::Index { base, index, .. } => {
            lemma_same_expression_reflexive(*base);
            lemma_same_expression_reflexive(*index);
        },
        Expression::Field { base, .. } => lemma_same_expression_reflexive(*base),
        Expression::Cast { operand, .. } => lemma_same_expression_reflexive(*operand),
        _ => {},
    }
}

// ---------------------------------------------------------------------------
// Operator chains.

/// Where one more operator and its right operand end, after an operand that
/// ends at `c`.
pub open spec fn operator_step(tokens: Seq<SpannedToken>, c: int, minimum: int) -> Option<int> {
    if 0 <= c < tokens.len() {
        match binary_operator_of(tokens[c].token) {
            Some((_, p)) => if p >= minimum {
                binary_end(tokens, c + 1, p + 1)
            } else {
                None
            },
            None => None,
        }
    } else {
        None
    }
}

/// The body of a chain that joins `left` and `right` at `m`.
pub open spec fn joined_at(
    tokens: Seq<SpannedToken>,
    pos: int,
    e: Expression,
    end: int,
    minimum: int,
    m: int,
) -> bool {
    match e {
        Expression::Binary { left, operator, right, span } => pos < m < tokens.len() && chain_from(
            tokens,
            pos,
            *left,
            m,
            minimum,
        ) && match binary_operator_of(tokens[m].token) {
            Some((op, p)) => op == operator && p >= minimum && binary_from(tokens, m + 1, *right, end, p + 1),
            None => false,
        } && span == Span { start: expression_span(*left).start, end: expression_span(*right).end },
        _ => false,
    }
}

proof fn lemma_joined(tokens: Seq<SpannedToken>, pos: int, e: Expression, end: int, minimum: int) -> (m: int)
    requires
        0 <= pos,
        chain_from(tokens, pos, e, end, minimum),
        !prefix_from(tokens, pos, e, end),
    ensures
        joined_at(tokens, pos, e, end, minimum, m),
        operator_step(tokens, m, minimum) == Some(end),
        pos < m < end,
{
    match e {
        Expression::Binary { left, operator, right, span } => {
            let m = choose|m: int|
                #![trigger tokens[m]]
                pos < m < tokens.len() && chain_from(tokens, pos, *left, m, minimum) && match binary_operator_of(
                    tokens[m].token,
                ) {
                    Some((op, p)) => op == operator && p >= minimum && binary_from(tokens, m + 1, *right, end, p + 1),
                    None => false,
                } && span == Span { start: expression_span(*left).start, end: expression_span(*right).end };
            let p = binary_operator_of(tokens[m].token)->Some_0.1;
            lemma_binary_end(tokens, m + 1, *right, end, p + 1);
            m
        },
        _ => 0,
    }
}

/// The left operand of an operation.
pub open spec fn joined_left(e: Expression) -> Expression {
    match e {
        Expression::Binary { left, .. } => *left,
        _ => e,
    }
}

/// A chain ends no earlier than its first operand.
proof fn lemma_chain_first(tokens: Seq<SpannedToken>, pos: int, e: Expression, end: int, minimum: int)
    requires
        0 <= pos,
        chain_from(tokens, pos, e, end, minimum),
    ensures
        prefix_end(tokens, pos) matches Some(first) && first <= end,
    decreases e,
{
    if prefix_from(tokens, pos, e, end) {
        lemma_prefix_end(tokens, pos, e, end);
    } else {
        let m = lemma_joined(tokens, pos, e, end, minimum);
        lemma_chain_first(tokens, pos, joined_left(e), m, minimum);
    }
}

/// Between two ends of chains from the same place lies the step from the
/// earlier one.
proof fn lemma_chain_between(
    tokens: Seq<SpannedToken>,
    pos: int,
    e1: Expression,
    n1: int,
    e2: Expression,
    n2: int,
    minimum: int,
)
    requires
        0 <= pos,
        chain_from(tokens, pos, e1, n1, minimum),
        chain_from(tokens, pos, e2, n2, minimum),
        n2 < n1,
    ensures
        operator_step(tokens, n2, minimum) matches Some(s) && s <= n1,
    decreases n1 + n2,
{
    lemma_chain_end(tokens, pos, e1, n1, minimum);
    lemma_chain_end(tokens, pos, e2, n2, minimum);
    if prefix_from(tokens, pos, e1, n1) {
        lemma_prefix_end(tokens, pos, e1, n1);
        lemma_chain_first(tokens, pos, e2, n2, minimum);
    } else {
        let m = lemma_joined(tokens, pos, e1, n1, minimum);
        let left = joined_left(e1);
        if n2 < m {
            lemma_chain_between(tokens, pos, left, m, e2, n2, minimum);
        } else if m < n2 {
            lemma_chain_between(tokens, pos, e2, n2, left, m, minimum);
        }
    }
}

// ---------------------------------------------------------------------------
// Postfix chains.

/// Where one more postfix operation at `c` ends.
pub open spec fn postfix_step(tokens: Seq<SpannedToken>, c: int) -> Option<int> {
    if tok_is(tokens, c, TokenKind::LeftBracket) {
        match expression_end(tokens, c + 1) {
            Some(k) => if c < k < tokens.len() && tok_is(tokens, k, TokenKind::RightBracket) {
                Some(k + 1)
            } else {
                None
            },
            None => None,
        }
    } else if tok_is(tokens, c, TokenKind::Dot) {
        if c + 1 < tokens.len() && tokens[c + 1].token is Identifier {
            Some(c + 2)
        } else {
            None
        }
    } else if tok_is(tokens, c, TokenKind::LeftParen) {
        if tok_is(tokens, c + 1, TokenKind::RightParen) {
            Some(c + 2)
        } else {
            match arguments_end(tokens, c + 1) {
                Some(k) => if c < k < tokens.len() && tok_is(tokens, k, TokenKind::RightParen) {
                    Some(k + 1)
                } else {
                    None
                },
                None => None,
            }
        }
    } else {
        None
    }
}

/// The body of a postfix chain whose last operation starts at `m`, its
/// closing token (if any) being at `c`.
pub open spec fn applied_at(tokens: Seq<SpannedToken>, pos: int, e: Expression, end: int, m: int, c: int) -> bool {
    match e {
        Expression::Index { base, index, span } => pos < m < c < tokens.len() && postfix_chain_from(tokens, pos, *base, m)
            && tok_is(tokens, m, TokenKind::LeftBracket) && expression_from(tokens, m + 1, *index, c) && tok_is(
            tokens,
            c,
            TokenKind::RightBracket,
        ) && end == c + 1 && span == Span { start: expression_span(*base).start, end: tokens[c].span.end },
        Expression::Field { base, field, span } => pos < m < tokens.len() && postfix_chain_from(tokens, pos, *base, m)
            && tok_is(tokens, m, TokenKind::Dot) && identifier_at(tokens, m + 1, field) && end == m + 2 && c == m + 1
            && span == Span { start: expression_span(*base).start, end: tokens[m + 1].span.end },
        Expression::Call { callee, arguments, span } => pos < m < c < tokens.len() && postfix_chain_from(
            tokens,
            pos,
            *callee,
            m,
        ) && tok_is(tokens, m, TokenKind::LeftParen) && arguments_from(
            tokens,
            m + 1,
            arguments@,
            arguments@.len() as int,
            c,
        ) && tok_is(tokens, c, TokenKind::RightParen) && end == c + 1 && span == Span {
            start: expression_span(*callee).start,
            end: tokens[c].span.end,
        },
        _ => false,
    }
}

proof fn lemma_applied(tokens: Seq<SpannedToken>, pos: int, e: Expression, end: int) -> (mc: (int, int))
    requires
        0 <= pos,
        postfix_chain_from(tokens, pos, e, end),
        !operand_from(tokens, pos, e, end),
    ensures
        applied_at(tokens, pos, e, end, mc.0, mc.1),
        postfix_step(tokens, mc.0) == Some(end),
        pos < mc.0 < end,
{
    match e {
        Expression::Index { base, index, span } => {
            let (m, c) = choose|m: int, c: int|
                #![trigger tok_is(tokens, m, TokenKind::LeftBracket), tok_is(tokens, c, TokenKind::RightBracket)]
                pos < m < c < tokens.len() && postfix_chain_from(tokens, pos, *base, m) && tok_is(
                    tokens,
                    m,
                    TokenKind::LeftBracket,
                ) && expression_from(tokens, m + 1, *index, c) && tok_is(tokens, c, TokenKind::RightBracket) && end
                    == c + 1 && span == Span { start: expression_span(*base).start, end: tokens[c].span.end };
            lemma_expression_end(tokens, m + 1, *index, c);
            (m, c)
        },
        Expression::Field { base, field, span } => {
            let m = choose|m: int|
                #![trigger tok_is(tokens, m, TokenKind::Dot)]
                pos < m < tokens.len() && postfix_chain_from(tokens, pos, *base, m) && tok_is(tokens, m, TokenKind::Dot)
                    && identifier_at(tokens, m + 1, field) && end == m + 2 && span == Span {
                    start: expression_span(*base).start,
                    end: tokens[m + 1].span.end,
                };
            (m, m + 1)
        },
        Expression::Call { callee, arguments, span } => {
            let (m, c) = choose|m: int, c: int|
                #![trigger tok_is(tokens, m, TokenKind::LeftParen), tok_is(tokens, c, TokenKind::RightParen)]
                pos < m < c < tokens.len() && postfix_chain_from(tokens, pos, *callee, m) && tok_is(
                    tokens,
                    m,
                    TokenKind::LeftParen,
                ) && arguments_from(tokens, m + 1, arguments@, arguments@.len() as int, c) && tok_is(
                    tokens,
                    c,
                    TokenKind::RightParen,
                ) && end == c + 1 && span == Span { start: expression_span(*callee).start, end: tokens[c].span.end };
            if arguments@.len() > 0 {
                lemma_arguments_end(tokens, m + 1, arguments@, arguments@.len() as int, c);
            }
            (m, c)
        },
        _ => (0, 0),
    }
}

/// A postfix chain ends no earlier than its operand.
proof fn lemma_postfix_first(tokens: Seq<SpannedToken>, pos: int, e: Expression, end: int)
    requires
        0 <= pos,
        postfix_chain_from(tokens, pos, e, end),
    ensures
        operand_end(tokens, pos) matches Some(first) && first <= end,
    decreases e,
{
    if operand_from(tokens, pos, e, end) {
        lemma_operand_end(tokens, pos, e, end);
    } else {
        let (m, c) = lemma_applied(tokens, pos, e, end);
        match e {
            Expression::Index { base, .. } => lemma_postfix_first(tokens, pos, *base, m),
            Expression::Field { base, .. } => lemma_postfix_first(tokens, pos, *base, m),
            Expression::Call { callee, .. } => lemma_postfix_first(tokens, pos, *callee, m),
            _ => {},
        }
    }
}

/// The base of a postfix operation.
pub open spec fn applied_base(e: Expression) -> Expression {
    match e {
        Expression::Index { base, .. } => *base,
        Expression::Field { base, .. } => *base,
        Expression::Call { callee, .. } => *callee,
        _ => e,
    }
}

/// Between two ends of postfix chains from the same place lies the step
/// from the earlier one.
proof fn lemma_postfix_between(tokens: Seq<SpannedToken>, pos: int, e1: Expression, n1: int, e2: Expression, n2: int)
    requires
        0 <= pos,
        postfix_chain_from(tokens, pos, e1, n1),
        postfix_chain_from(tokens, pos, e2, n2),
        n2 < n1,
    ensures
        postfix_step(tokens, n2) matches Some(s) && s <= n1,
    decreases n1 + n2,
{
    lemma_postfix_chain_end(tokens, pos, e1, n1);
    lemma_postfix_chain_end(tokens, pos, e2, n2);
    if operand_from(tokens, pos, e1, n1) {
        lemma_operand_end(tokens, pos, e1, n1);
        lemma_postfix_first(tokens, pos, e2, n2);
    } else {
        let (m, c) = lemma_applied(tokens, pos, e1, n1);
        let base = applied_base(e1);
        if n2 < m {
            lemma_postfix_between(tokens, pos, base, m, e2, n2);
        } else if m < n2 {
            lemma_postfix_between(tokens, pos, e2, n2, base, m);
        }
    }
}

// ---------------------------------------------------------------------------
// Argument lists.

/// Where one more argument ends, after the argument that ends at `c`.
pub open spec fn argument_step(tokens: Seq<SpannedToken>, c: int) -> Option<int> {
    if tok_is(tokens, c, TokenKind::Comma) {
        expression_end(tokens, c + 1)
    } else {
        None
    }
}

proof fn lemma_arguments_first(tokens: Seq<SpannedToken>, pos: int, a: Seq<Expression>, k: int, end: int)
    requires
        arguments_from(tokens, pos, a, k, end),
        1 <= k <= a.len(),
    ensures
        expression_end(tokens, pos) matches Some(first) && first <= end,
    decreases k,
{
    if k == 1 {
        lemma_expression_end(tokens, pos, a[0], end);
    } else {
        let m = choose|m: int|
            #![trigger tok_is(tokens, m, TokenKind::Comma)]
            pos <= m < tokens.len() && arguments_from(tokens, pos, a, k - 1, m) && tok_is(tokens, m, TokenKind::Comma)
                && expression_from(tokens, m + 1, a[k - 1], end);
        lemma_arguments_first(tokens, pos, a, k - 1, m);
        lemma_expression_end(tokens, m + 1, a[k - 1], end);
    }
}

proof fn lemma_arguments_between(
    tokens: Seq<SpannedToken>,
    pos: int,
    a1: Seq<Expression>,
    k1: int,
    n1: int,
    a2: Seq<Expression>,
    k2: int,
    n2: int,
)
    requires
        0 <= pos,
        arguments_from(tokens, pos, a1, k1, n1),
        arguments_from(tokens, pos, a2, k2, n2),
        1 <= k1 <= a1.len(),
        1 <= k2 <= a2.len(),
        n2 < n1,
    ensures
        argument_step(tokens, n2) matches Some(s) && s <= n1,
    decreases n1 + n2,
{
    lemma_arguments_end(tokens, pos, a1, k1, n1);
    lemma_arguments_end(tokens, pos, a2, k2, n2);
    if k1 == 1 {
        lemma_expression_end(tokens, pos, a1[0], n1);
        lemma_arguments_first(tokens, pos, a2, k2, n2);
    } else {
        let m = choose|m: int|
            #![trigger tok_is(tokens, m, TokenKind::Comma)]
            pos <= m < tokens.len() && arguments_from(tokens, pos, a1, k1 - 1, m) && tok_is(tokens, m, TokenKind::Comma)
                && expression_from(tokens, m + 1, a1[k1 - 1], n1);
        lemma_arguments_end(tokens, pos, a1, k1 - 1, m);
        lemma_expression_end(tokens, m + 1, a1[k1 - 1], n1);
        if n2 < m {
            lemma_arguments_between(tokens, pos, a1, k1 - 1, m, a2, k2, n2);
        } else if m < n2 {
            lemma_arguments_between(tokens, pos, a2, k2, n2, a1, k1 - 1, m);
        }
    }
}

// ---------------------------------------------------------------------------
// Expressions read one way.

/// An expression reads one way: two expressions read from the same place
/// end at the same token and are the same tree.
pub proof fn lemma_expression_unique(
    tokens: Seq<SpannedToken>,
    pos: int,
    e1: Expression,
    n1: int,
    e2: Expression,
    n2: int,
)
    requires
        0 <= pos,
        expression_from(tokens, pos, e1, n1),
        expression_from(tokens, pos, e2, n2),
    ensures
        n1 == n2,
        same_expression(e1, e2),
    decreases tokens.len() - pos, e1, 6int,
{
    lemma_binary_unique(tokens, pos, e1, n1, e2, n2, 0);
}

proof fn lemma_binary_unique(
    tokens: Seq<SpannedToken>,
    pos: int,
    e1: Expression,
    n1: int,
    e2: Expression,
    n2: int,
    minimum: int,
)
    requires
        0 <= pos,
        binary_from(tokens, pos, e1, n1, minimum),
        binary_from(tokens, pos, e2, n2, minimum),
    ensures
        n1 == n2,
        same_expression(e1, e2),
    decreases tokens.len() - pos, e1, 5int,
{
    lemma_binary_end(tokens, pos, e1, n1, minimum);
    lemma_binary_end(tokens, pos, e2, n2, minimum);
    lemma_chain_unique(tokens, pos, e1, e2, n1, minimum);
}

proof fn lemma_chain_unique(tokens: Seq<SpannedToken>, pos: int, e1: Expression, e2: Expression, n: int, minimum: int)
    requires
        0 <= pos,
        chain_from(tokens, pos, e1, n, minimum),
        chain_from(tokens, pos, e2, n, minimum),
    ensures
        same_expression(e1, e2),
    decreases tokens.len() - pos, e1, 4int,
{
    let p1 = prefix_from(tokens, pos, e1, n);
    let p2 = prefix_from(tokens, pos, e2, n);
    if p1 && p2 {
        lemma_prefix_unique(tokens, pos, e1, e2, n);
    } else if p1 {
        lemma_prefix_end(tokens, pos, e1, n);
        let m2 = lemma_joined(tokens, pos, e2, n, minimum);
        lemma_chain_first(tokens, pos, joined_left(e2), m2, minimum);
    } else if p2 {
        lemma_prefix_end(tokens, pos, e2, n);
        let m1 = lemma_joined(tokens, pos, e1, n, minimum);
        lemma_chain_first(tokens, pos, joined_left(e1), m1, minimum);
    } else {
        let m1 = lemma_joined(tokens, pos, e1, n, minimum);
        let m2 = lemma_joined(tokens, pos, e2, n, minimum);
        if m1 < m2 {
            lemma_chain_between(tokens, pos, joined_left(e2), m2, joined_left(e1), m1, minimum);
        } else if m2 < m1 {
            lemma_chain_between(tokens, pos, joined_left(e1), m1, joined_left(e2), m2, minimum);
        } else {
            match (e1, e2) {
                (
                    Expression::Binary { left: l1, operator: o1, right: r1, span: s1 },
                    Expression::Binary { left: l2, operator: o2, right: r2, span: s2 },
                ) => {
                    lemma_chain_unique(tokens, pos, *l1, *l2, m1, minimum);
                    let p = binary_operator_of(tokens[m1].token)->Some_0.1;
                    lemma_binary_unique(tokens, m1 + 1, *r1, n, *r2, n, p + 1);
                    lemma_same_expression_span(*l1, *l2);
                    lemma_same_expression_span(*r1, *r2);
                },
                _ => {},
            }
        }
    }
}

proof fn lemma_prefix_unique(tokens: Seq<SpannedToken>, pos: int, e1: Expression, e2: Expression, n: int)
    requires
        0 <= pos,
        prefix_from(tokens, pos, e1, n),
        prefix_from(tokens, pos, e2, n),
    ensures
        same_expression(e1, e2),
    decreases tokens.len() - pos, e1, 3int,
{
    lemma_postfix_unique(tokens, pos, e1, e2, n);
}

proof fn lemma_postfix_unique(tokens: Seq<SpannedToken>, pos: int, e1: Expression, e2: Expression, n: int)
    requires
        0 <= pos,
        postfix_chain_from(tokens, pos, e1, n),
        postfix_chain_from(tokens, pos, e2, n),
    ensures
        same_expression(e1, e2),
    decreases tokens.len() - pos, e1, 2int,
{
    let o1 = operand_from(tokens, pos, e1, n);
    let o2 = operand_from(tokens, pos, e2, n);
    if o1 && o2 {
        lemma_operand_unique(tokens, pos, e1, e2, n);
    } else if o1 {
        lemma_operand_end(tokens, pos, e1, n);
        let (m2, c2) = lemma_applied(tokens, pos, e2, n);
        lemma_postfix_first(tokens, pos, applied_base(e2), m2);
    } else if o2 {
        lemma_operand_end(tokens, pos, e2, n);
        let (m1, c1) = lemma_applied(tokens, pos, e1, n);
        lemma_postfix_first(tokens, pos, applied_base(e1), m1);
    } else {
        let (m1, c1) = lemma_applied(tokens, pos, e1, n);
        let (m2, c2) = lemma_applied(tokens, pos, e2, n);
        if m1 < m2 {
            lemma_postfix_between(tokens, pos, applied_base(e2), m2, applied_base(e1), m1);
        } else if m2 < m1 {
            lemma_postfix_between(tokens, pos, applied_base(e1), m1, applied_base(e2), m2);
        } else {
            match (e1, e2) {
                (
                    Expression::Index { base: b1, index: i1, span: s1 },
                    Expression::Index { base: b2, index: i2, span: s2 },
                ) => {
                    lemma_expression_unique(tokens, m1 + 1, *i1, c1, *i2, c2);
                    lemma_postfix_unique(tokens, pos, *b1, *b2, m1);
                    lemma_same_expression_span(*b1, *b2);
                },
                (
                    Expression::Field { base: b1, field: f1, span: s1 },
                    Expression::Field { base: b2, field: f2, span: s2 },
                ) => {
                    lemma_postfix_unique(tokens, pos, *b1, *b2, m1);
                    lemma_same_expression_span(*b1, *b2);
                },
                (
                    Expression::Call { callee: c1e, arguments: a1, span: s1 },
                    Expression::Call { callee: c2e, arguments: a2, span: s2 },
                ) => {
                    lemma_postfix_unique(tokens, pos, *c1e, *c2e, m1);
                    lemma_arguments_unique(
                        tokens,
                        m1 + 1,
                        a1@,
                        a1@.len() as int,
                        a2@,
                        a2@.len() as int,
                        c1,
                    );
                    lemma_same_expression_span(*c1e, *c2e);
                },
                _ => {},
            }
        }
    }
}

proof fn lemma_arguments_unique(
    tokens: Seq<SpannedToken>,
    pos: int,
    a1: Seq<Expression>,
    k1: int,
    a2: Seq<Expression>,
    k2: int,
    n: int,
)
    requires
        0 <= pos,
        arguments_from(tokens, pos, a1, k1, n),
        arguments_from(tokens, pos, a2, k2, n),
        0 <= k1 <= a1.len(),
        0 <= k2 <= a2.len(),
    ensures
        k1 == k2,
        forall|i: int| 0 <= i < k1 ==> same_expression(#[trigger] a1[i], a2[i]),
    decreases tokens.len() - pos, a1, k1,
{
    if k1 == 0 && k2 > 0 {
        lemma_arguments_end(tokens, pos, a2, k2, n);
    } else if k2 == 0 && k1 > 0 {
        lemma_arguments_end(tokens, pos, a1, k1, n);
    } else if k1 == 1 && k2 == 1 {
        lemma_expression_unique(tokens, pos, a1[0], n, a2[0], n);
    } else if k1 == 1 && k2 > 1 {
        lemma_expression_end(tokens, pos, a1[0], n);
        let m2 = choose|m: int|
            #![trigger tok_is(tokens, m, TokenKind::Comma)]
            pos <= m < tokens.len() && arguments_from(tokens, pos, a2, k2 - 1, m) && tok_is(tokens, m, TokenKind::Comma)
                && expression_from(tokens, m + 1, a2[k2 - 1], n);
        lemma_arguments_first(tokens, pos, a2, k2 - 1, m2);
        lemma_expression_end(tokens, m2 + 1, a2[k2 - 1], n);
    } else if k2 == 1 && k1 > 1 {
        lemma_expression_end(tokens, pos, a2[0], n);
        let m1 = choose|m: int|
            #![trigger tok_is(tokens, m, TokenKind::Comma)]
            pos <= m < tokens.len() && arguments_from(tokens, pos, a1, k1 - 1, m) && tok_is(tokens, m, TokenKind::Comma)
                && expression_from(tokens, m + 1, a1[k1 - 1], n);
        lemma_arguments_first(tokens, pos, a1, k1 - 1, m1);
        lemma_expression_end(tokens, m1 + 1, a1[k1 - 1], n);
    } else if k1 > 1 && k2 > 1 {
        let m1 = choose|m: int|
            #![trigger tok_is(tokens, m, TokenKind::Comma)]
            pos <= m < tokens.len() && arguments_from(tokens, pos, a1, k1 - 1, m) && tok_is(tokens, m, TokenKind::Comma)
                && expression_from(tokens, m + 1, a1[k1 - 1], n);
        let m2 = choose|m: int|
            #![trigger tok_is(tokens, m, TokenKind::Comma)]
            pos <= m < tokens.len() && arguments_from(tokens, pos, a2, k2 - 1, m) && tok_is(tokens, m, TokenKind::Comma)
                && expression_from(tokens, m + 1, a2[k2 - 1], n);
        lemma_expression_end(tokens, m1 + 1, a1[k1 - 1], n);
        lemma_expression_end(tokens, m2 + 1, a2[k2 - 1], n);
        if m1 < m2 {
            lemma_arguments_between(tokens, pos, a2, k2 - 1, m2, a1, k1 - 1, m1);
        } else if m2 < m1 {
            lemma_arguments_between(tokens, pos, a1, k1 - 1, m1, a2, k2 - 1, m2);
        } else {
            lemma_arguments_unique(tokens, pos, a1, k1 - 1, a2, k2 - 1, m1);
            lemma_expression_unique(tokens, m1 + 1, a1[k1 - 1], n, a2[k2 - 1], n);
        }
    }
}

proof fn lemma_operand_unique(tokens: Seq<SpannedToken>, pos: int, e1: Expression, e2: Expression, n: int)
    requires
        0 <= pos,
        operand_from(tokens, pos, e1, n),
        operand_from(tokens, pos, e2, n),
    ensures
        same_expression(e1, e2),
    decreases tokens.len() - pos, e1, 1int,
{
    match tokens[pos].token {
        TokenKind::LeftParen => {
            if starts_type(tokens, pos + 1) {
                match (e1, e2) {
                    (
                        Expression::Cast { ty: t1, operand: o1, span: s1 },
                        Expression::Cast { ty: t2, operand: o2, span: s2 },
                    ) => {
                        let m = type_at(tokens, pos + 1)->Some_0.1;
                        lemma_prefix_unique(tokens, m + 1, *o1, *o2, n);
                        lemma_same_expression_span(*o1, *o2);
                    },
                    _ => {},
                }
            } else {
                let m1 = choose|m: int|
                    #![trigger tok_is(tokens, m, TokenKind::RightParen)]
                    pos < m < tokens.len() && expression_from(tokens, pos + 1, e1, m) && tok_is(tokens, m, TokenKind::RightParen)
                        && n == m + 1;
                let m2 = choose|m: int|
                    #![trigger tok_is(tokens, m, TokenKind::RightParen)]
                    pos < m < tokens.len() && expression_from(tokens, pos + 1, e2, m) && tok_is(tokens, m, TokenKind::RightParen)
                        && n == m + 1;
                lemma_expression_unique(tokens, pos + 1, e1, m1, e2, m2);
            }
        },
        TokenKind::StringLiteral(_) => {},
        other => {
            if unary_operator_of(other) is Some {
                match (e1, e2) {
                    (
                        Expression::Unary { operator: p1, operand: o1, span: s1 },
                        Expression::Unary { operator: p2, operand: o2, span: s2 },
                    ) => {
                        lemma_prefix_unique(tokens, pos + 1, *o1, *o2, n);
                        lemma_same_expression_span(*o1, *o2);
                    },
                    _ => {},
                }
            } else {
                lemma_same_expression_reflexive(e1);
            }
        },
    }
}

// ---------------------------------------------------------------------------
// Statements read one way.

/// Where one more statement, starting at `c`, ends.
pub open spec fn statement_step(tokens: Seq<SpannedToken>, c: int) -> Option<int> {
    if statement_follows(tokens, c) {
        statement_end(tokens, c)
    } else {
        None
    }
}

/// The last of the first `count` statements starts at `m`.
pub open spec fn last_statement_at(
    tokens: Seq<SpannedToken>,
    pos: int,
    statements: Seq<Statement>,
    count: int,
    end: int,
    m: int,
) -> bool {
    statements_from(tokens, pos, statements, count - 1, m) && statement_follows(tokens, m) && statement_from(
        tokens,
        m,
        statements[count - 1],
        end,
    )
}

proof fn lemma_last_statement(tokens: Seq<SpannedToken>, pos: int, statements: Seq<Statement>, count: int, end: int) -> (m: int)
    requires
        0 <= pos <= tokens.len(),
        statements_from(tokens, pos, statements, count, end),
        1 <= count <= statements.len(),
    ensures
        last_statement_at(tokens, pos, statements, count, end, m),
        statement_step(tokens, m) == Some(end),
        pos <= m < end,
{
    let m = choose|m: int|
        #![trigger statement_follows(tokens, m)]
        statements_from(tokens, pos, statements, count - 1, m) && statement_follows(tokens, m) && statement_from(
            tokens,
            m,
            statements[count - 1],
            end,
        );
    lemma_statements_end(tokens, pos, statements, count - 1, m);
    lemma_statement_end(tokens, m, statements[count - 1], end);
    m
}

proof fn lemma_statements_between(
    tokens: Seq<SpannedToken>,
    pos: int,
    s1: Seq<Statement>,
    k1: int,
    n1: int,
    s2: Seq<Statement>,
    k2: int,
    n2: int,
)
    requires
        0 <= pos <= tokens.len(),
        statements_from(tokens, pos, s1, k1, n1),
        statements_from(tokens, pos, s2, k2, n2),
        0 <= k1 <= s1.len(),
        0 <= k2 <= s2.len(),
        n2 < n1,
    ensures
        statement_step(tokens, n2) matches Some(s) && s <= n1,
    decreases n1 + n2,
{
    lemma_statements_end(tokens, pos, s1, k1, n1);
    lemma_statements_end(tokens, pos, s2, k2, n2);
    if k1 > 0 {
        let m = lemma_last_statement(tokens, pos, s1, k1, n1);
        lemma_statements_end(tokens, pos, s1, k1 - 1, m);
        if n2 < m {
            lemma_statements_between(tokens, pos, s1, k1 - 1, m, s2, k2, n2);
        } else if m < n2 {
            lemma_statements_between(tokens, pos, s2, k2, n2, s1, k1 - 1, m);
        }
    }
}

/// A statement reads one way.
pub proof fn lemma_statement_unique(tokens: Seq<SpannedToken>, pos: int, s1: Statement, n1: int, s2: Statement, n2: int)
    requires
        0 <= pos,
        statement_from(tokens, pos, s1, n1),
        statement_from(tokens, pos, s2, n2),
    ensures
        n1 == n2,
        same_statement(s1, s2),
    decreases s1, 0int,
{
    lemma_statement_end(tokens, pos, s1, n1);
    lemma_statement_end(tokens, pos, s2, n2);
    lemma_type_end(tokens, pos);
    match (s1, s2) {
        (Statement::Let { name: a, value: v1, span: p1 }, Statement::Let { name: b, value: v2, span: p2 }) => {
            let m1 = choose|m: int|
                #![trigger tok_is(tokens, m, TokenKind::Semicolon)]
                expression_from(tokens, pos + 3, v1, m) && tok_is(tokens, m, TokenKind::Semicolon) && n1 == m + 1 && p1
                    == tokens_span(tokens, pos, m);
            let m2 = choose|m: int|
                #![trigger tok_is(tokens, m, TokenKind::Semicolon)]
                expression_from(tokens, pos + 3, v2, m) && tok_is(tokens, m, TokenKind::Semicolon) && n2 == m + 1 && p2
                    == tokens_span(tokens, pos, m);
            lemma_expression_unique(tokens, pos + 3, v1, m1, v2, m2);
        },
        (Statement::Return { value: v1, span: p1 }, Statement::Return { value: v2, span: p2 }) => {
            if !tok_is(tokens, pos + 1, TokenKind::Semicolon) {
                let (x1, x2) = (v1->Some_0, v2->Some_0);
                let m1 = choose|m: int|
                    #![trigger tok_is(tokens, m, TokenKind::Semicolon)]
                    expression_from(tokens, pos + 1, x1, m) && tok_is(tokens, m, TokenKind::Semicolon) && n1 == m + 1 && p1
                        == tokens_span(tokens, pos, m);
                let m2 = choose|m: int|
                    #![trigger tok_is(tokens, m, TokenKind::Semicolon)]
                    expression_from(tokens, pos + 1, x2, m) && tok_is(tokens, m, TokenKind::Semicolon) && n2 == m + 1 && p2
                        == tokens_span(tokens, pos, m);
                lemma_expression_unique(tokens, pos + 1, x1, m1, x2, m2);
            }
        },
        (
            Statement::If { condition: c1, then_branch: t1, else_branch: e1, span: p1 },
            Statement::If { condition: c2, then_branch: t2, else_branch: e2, span: p2 },
        ) => {
            let (m1, b1) = choose|m: int, b: int|
                #![trigger tok_is(tokens, m, TokenKind::RightParen), tok_is(tokens, b, TokenKind::Else)]
                expression_from(tokens, pos + 2, c1, m) && tok_is(tokens, m, TokenKind::RightParen) && block_from(
                    tokens,
                    m + 1,
                    t1,
                    b,
                ) && if tok_is(tokens, b, TokenKind::Else) {
                    e1 matches Some(other) && block_from(tokens, b + 1, other, n1) && p1 == Span {
                        start: tokens[pos].span.start,
                        end: other.span.end,
                    }
                } else {
                    e1 is None && n1 == b && p1 == Span { start: tokens[pos].span.start, end: t1.span.end }
                };
            let (m2, b2) = choose|m: int, b: int|
                #![trigger tok_is(tokens, m, TokenKind::RightParen), tok_is(tokens, b, TokenKind::Else)]
                expression_from(tokens, pos + 2, c2, m) && tok_is(tokens, m, TokenKind::RightParen) && block_from(
                    tokens,
                    m + 1,
                    t2,
                    b,
                ) && if tok_is(tokens, b, TokenKind::Else) {
                    e2 matches Some(other) && block_from(tokens, b + 1, other, n2) && p2 == Span {
                        start: tokens[pos].span.start,
                        end: other.span.end,
                    }
                } else {
                    e2 is None && n2 == b && p2 == Span { start: tokens[pos].span.start, end: t2.span.end }
                };
            lemma_expression_unique(tokens, pos + 2, c1, m1, c2, m2);
            lemma_block_unique(tokens, m1 + 1, t1, b1, t2, b2);
            if tok_is(tokens, b1, TokenKind::Else) {
                lemma_block_unique(tokens, b1 + 1, e1->Some_0, n1, e2->Some_0, n2);
            }
        },
        (
            Statement::While { condition: c1, body: d1, span: p1 },
            Statement::While { condition: c2, body: d2, span: p2 },
        ) => {
            let m1 = choose|m: int|
                #![trigger tok_is(tokens, m, TokenKind::RightParen)]
                expression_from(tokens, pos + 2, c1, m) && tok_is(tokens, m, TokenKind::RightParen) && block_from(
                    tokens,
                    m + 1,
                    d1,
                    n1,
                ) && p1 == Span { start: tokens[pos].span.start, end: d1.span.end };
            let m2 = choose|m: int|
                #![trigger tok_is(tokens, m, TokenKind::RightParen)]
                expression_from(tokens, pos + 2, c2, m) && tok_is(tokens, m, TokenKind::RightParen) && block_from(
                    tokens,
                    m + 1,
                    d2,
                    n2,
                ) && p2 == Span { start: tokens[pos].span.start, end: d2.span.end };
            lemma_expression_unique(tokens, pos + 2, c1, m1, c2, m2);
            lemma_block_unique(tokens, m1 + 1, d1, n1, d2, n2);
        },
        (Statement::Block(b1), Statement::Block(b2)) => {
            lemma_block_unique(tokens, pos, b1, n1, b2, n2);
        },
        (Statement::Declare { .. }, Statement::Declare { .. }) => {},
        (
            Statement::Assign { target: x1, value: v1, span: p1 },
            Statement::Assign { target: x2, value: v2, span: p2 },
        ) => {
            let (m1, c1) = choose|m: int, c: int|
                #![trigger tok_is(tokens, m, TokenKind::Equal), tok_is(tokens, c, TokenKind::Semicolon)]
                expression_from(tokens, pos, x1, m) && tok_is(tokens, m, TokenKind::Equal) && expression_from(
                    tokens,
                    m + 1,
                    v1,
                    c,
                ) && tok_is(tokens, c, TokenKind::Semicolon) && n1 == c + 1 && p1 == Span {
                    start: expression_span(x1).start,
                    end: tokens[c].span.end,
                };
            let (m2, c2) = choose|m: int, c: int|
                #![trigger tok_is(tokens, m, TokenKind::Equal), tok_is(tokens, c, TokenKind::Semicolon)]
                expression_from(tokens, pos, x2, m) && tok_is(tokens, m, TokenKind::Equal) && expression_from(
                    tokens,
                    m + 1,
                    v2,
                    c,
                ) && tok_is(tokens, c, TokenKind::Semicolon) && n2 == c + 1 && p2 == Span {
                    start: expression_span(x2).start,
                    end: tokens[c].span.end,
                };
            lemma_expression_unique(tokens, pos, x1, m1, x2, m2);
            lemma_expression_unique(tokens, m1 + 1, v1, c1, v2, c2);
            lemma_same_expression_span(x1, x2);
        },
        (
            Statement::Expression { expression: x1, span: p1 },
            Statement::Expression { expression: x2, span: p2 },
        ) => {
            let m1 = choose|m: int|
                #![trigger tok_is(tokens, m, TokenKind::Semicolon)]
                expression_from(tokens, pos, x1, m) && tok_is(tokens, m, TokenKind::Semicolon) && n1 == m + 1 && p1
                    == Span { start: expression_span(x1).start, end: tokens[m].span.end };
            let m2 = choose|m: int|
                #![trigger tok_is(tokens, m, TokenKind::Semicolon)]
                expression_from(tokens, pos, x2, m) && tok_is(tokens, m, TokenKind::Semicolon) && n2 == m + 1 && p2
                    == Span { start: expression_span(x2).start, end: tokens[m].span.end };
            lemma_expression_unique(tokens, pos, x1, m1, x2, m2);
            lemma_same_expression_span(x1, x2);
        },
        (Statement::Assign { target: x1, .. }, Statement::Expression { expression: x2, .. }) => {
            lemma_assign_or_expression(tokens, pos, s1, n1, s2, n2);
        },
        (Statement::Expression { expression: x1, .. }, Statement::Assign { target: x2, .. }) => {
            lemma_assign_or_expression(tokens, pos, s2, n2, s1, n1);
        },
        _ => {},
    }
}

/// An assignment and an expression statement never start alike.
proof fn lemma_assign_or_expression(tokens: Seq<SpannedToken>, pos: int, s1: Statement, n1: int, s2: Statement, n2: int)
    requires
        0 <= pos,
        statement_from(tokens, pos, s1, n1),
        statement_from(tokens, pos, s2, n2),
    ensures
        !(s1 is Assign && s2 is Expression),
{
    match (s1, s2) {
        (Statement::Assign { target: x1, value: v1, span: p1 }, Statement::Expression { expression: x2, span: p2 }) => {
            let (m1, c1) = choose|m: int, c: int|
                #![trigger tok_is(tokens, m, TokenKind::Equal), tok_is(tokens, c, TokenKind::Semicolon)]
                expression_from(tokens, pos, x1, m) && tok_is(tokens, m, TokenKind::Equal) && expression_from(
                    tokens,
                    m + 1,
                    v1,
                    c,
                ) && tok_is(tokens, c, TokenKind::Semicolon) && n1 == c + 1 && p1 == Span {
                    start: expression_span(x1).start,
                    end: tokens[c].span.end,
                };
            let m2 = choose|m: int|
                #![trigger tok_is(tokens, m, TokenKind::Semicolon)]
                expression_from(tokens, pos, x2, m) && tok_is(tokens, m, TokenKind::Semicolon) && n2 == m + 1 && p2
                    == Span { start: expression_span(x2).start, end: tokens[m].span.end };
            lemma_expression_unique(tokens, pos, x1, m1, x2, m2);
        },
        _ => {},
    }
}

/// A block reads one way.
pub proof fn lemma_block_unique(tokens: Seq<SpannedToken>, pos: int, b1: Block, n1: int, b2: Block, n2: int)
    requires
        0 <= pos,
        block_from(tokens, pos, b1, n1),
        block_from(tokens, pos, b2, n2),
    ensures
        n1 == n2,
        same_block(b1, b2),
    decreases b1, 0int,
{
    lemma_block_end(tokens, pos, b1, n1);
    lemma_block_end(tokens, pos, b2, n2);
    let m1 = choose|m: int|
        #![trigger tok_is(tokens, m, TokenKind::RightBrace)]
        pos < m < tokens.len() && statements_from(tokens, pos + 1, b1.statements@, b1.statements@.len() as int, m)
            && tok_is(tokens, m, TokenKind::RightBrace) && n1 == m + 1 && b1.span == tokens_span(tokens, pos, m);
    let m2 = choose|m: int|
        #![trigger tok_is(tokens, m, TokenKind::RightBrace)]
        pos < m < tokens.len() && statements_from(tokens, pos + 1, b2.statements@, b2.statements@.len() as int, m)
            && tok_is(tokens, m, TokenKind::RightBrace) && n2 == m + 1 && b2.span == tokens_span(tokens, pos, m);
    lemma_statements_unique(
        tokens,
        pos + 1,
        b1.statements@,
        b1.statements@.len() as int,
        b2.statements@,
        b2.statements@.len() as int,
        m1,
    );
}

proof fn lemma_statements_unique(
    tokens: Seq<SpannedToken>,
    pos: int,
    s1: Seq<Statement>,
    k1: int,
    s2: Seq<Statement>,
    k2: int,
    n: int,
)
    requires
        0 <= pos <= tokens.len(),
        statements_from(tokens, pos, s1, k1, n),
        statements_from(tokens, pos, s2, k2, n),
        0 <= k1 <= s1.len(),
        0 <= k2 <= s2.len(),
    ensures
        k1 == k2,
        forall|i: int| 0 <= i < k1 ==> same_statement(#[trigger] s1[i], s2[i]),
    decreases s1, k1,
{
    if k1 == 0 && k2 > 0 {
        lemma_last_statement(tokens, pos, s2, k2, n);
    } else if k2 == 0 && k1 > 0 {
        lemma_last_statement(tokens, pos, s1, k1, n);
    } else if k1 > 0 && k2 > 0 {
        let m1 = lemma_last_statement(tokens, pos, s1, k1, n);
        let m2 = lemma_last_statement(tokens, pos, s2, k2, n);
        if m1 < m2 {
            lemma_statements_between(tokens, pos, s2, k2 - 1, m2, s1, k1 - 1, m1);
        } else if m2 < m1 {
            lemma_statements_between(tokens, pos, s1, k1 - 1, m1, s2, k2 - 1, m2);
        } else {
            lemma_statements_unique(tokens, pos, s1, k1 - 1, s2, k2 - 1, m1);
            lemma_statement_unique(tokens, m1, s1[k1 - 1], n, s2[k2 - 1], n);
        }
    }
}

// ---------------------------------------------------------------------------
// Declarations read one way.

/// Where a field starting at `c` ends.
pub open spec fn field_step(tokens: Seq<SpannedToken>, c: int) -> Option<int> {
    if statement_follows(tokens, c) {
        match type_at(tokens, c) {
            Some((_, m)) => if c < m && m + 1 < tokens.len() && tokens[m].token is Identifier && tok_is(
                tokens,
                m + 1,
                TokenKind::Semicolon,
            ) {
                Some(m + 2)
            } else {
                None
            },
            None => None,
        }
    } else {
        None
    }
}

proof fn lemma_last_field(tokens: Seq<SpannedToken>, pos: int, fields: Seq<StructField>, count: int, end: int) -> (m: int)
    requires
        0 <= pos <= tokens.len(),
        fields_from(tokens, pos, fields, count, end),
        1 <= count <= fields.len(),
    ensures
        fields_from(tokens, pos, fields, count - 1, m) && statement_follows(tokens, m) && field_from(
            tokens,
            m,
            fields[count - 1],
            end,
        ),
        field_step(tokens, m) == Some(end),
        pos <= m < end,
{
    let m = choose|m: int|
        #![trigger statement_follows(tokens, m)]
        fields_from(tokens, pos, fields, count - 1, m) && statement_follows(tokens, m) && field_from(
            tokens,
            m,
            fields[count - 1],
            end,
        );
    lemma_fields_end(tokens, pos, fields, count - 1, m);
    lemma_type_end(tokens, m);
    m
}

proof fn lemma_fields_between(
    tokens: Seq<SpannedToken>,
    pos: int,
    f1: Seq<StructField>,
    k1: int,
    n1: int,
    f2: Seq<StructField>,
    k2: int,
    n2: int,
)
    requires
        0 <= pos <= tokens.len(),
        fields_from(tokens, pos, f1, k1, n1),
        fields_from(tokens, pos, f2, k2, n2),
        0 <= k1 <= f1.len(),
        0 <= k2 <= f2.len(),
        n2 < n1,
    ensures
        field_step(tokens, n2) matches Some(s) && s <= n1,
    decreases n1 + n2,
{
    lemma_fields_end(tokens, pos, f1, k1, n1);
    lemma_fields_end(tokens, pos, f2, k2, n2);
    if k1 > 0 {
        let m = lemma_last_field(tokens, pos, f1, k1, n1);
        if n2 < m {
            lemma_fields_between(tokens, pos, f1, k1 - 1, m, f2, k2, n2);
        } else if m < n2 {
            lemma_fields_between(tokens, pos, f2, k2, n2, f1, k1 - 1, m);
        }
    }
}

proof fn lemma_fields_unique(
    tokens: Seq<SpannedToken>,
    pos: int,
    f1: Seq<StructField>,
    k1: int,
    f2: Seq<StructField>,
    k2: int,
    n: int,
)
    requires
        0 <= pos <= tokens.len(),
        fields_from(tokens, pos, f1, k1, n),
        fields_from(tokens, pos, f2, k2, n),
        0 <= k1 <= f1.len(),
        0 <= k2 <= f2.len(),
    ensures
        k1 == k2,
        forall|i: int| 0 <= i < k1 ==> #[trigger] f1[i] == f2[i],
    decreases k1,
{
    if k1 == 0 && k2 > 0 {
        lemma_last_field(tokens, pos, f2, k2, n);
    } else if k2 == 0 && k1 > 0 {
        lemma_last_field(tokens, pos, f1, k1, n);
    } else if k1 > 0 && k2 > 0 {
        let m1 = lemma_last_field(tokens, pos, f1, k1, n);
        let m2 = lemma_last_field(tokens, pos, f2, k2, n);
        if m1 < m2 {
            lemma_fields_between(tokens, pos, f2, k2 - 1, m2, f1, k1 - 1, m1);
        } else if m2 < m1 {
            lemma_fields_between(tokens, pos, f1, k1 - 1, m1, f2, k2 - 1, m2);
        } else {
            lemma_fields_unique(tokens, pos, f1, k1 - 1, f2, k2 - 1, m1);
            assert(f1[k1 - 1] == f2[k2 - 1]);
        }
    }
}

/// A struct definition reads one way.
pub proof fn lemma_struct_unique(tokens: Seq<SpannedToken>, pos: int, d1: StructDefinition, n1: int, d2: StructDefinition, n2: int)
    requires
        0 <= pos,
        struct_from(tokens, pos, d1, n1),
        struct_from(tokens, pos, d2, n2),
    ensures
        n1 == n2,
        same_struct(d1, d2),
{
    lemma_struct_end(tokens, pos, d1, n1);
    lemma_struct_end(tokens, pos, d2, n2);
    let m1 = choose|m: int|
        #![trigger tok_is(tokens, m, TokenKind::RightBrace)]
        fields_from(tokens, pos + 3, d1.fields@, d1.fields@.len() as int, m) && tok_is(tokens, m, TokenKind::RightBrace)
            && n1 == m + 1 && d1.span == tokens_span(tokens, pos, m);
    let m2 = choose|m: int|
        #![trigger tok_is(tokens, m, TokenKind::RightBrace)]
        fields_from(tokens, pos + 3, d2.fields@, d2.fields@.len() as int, m) && tok_is(tokens, m, TokenKind::RightBrace)
            && n2 == m + 1 && d2.span == tokens_span(tokens, pos, m);
    lemma_fields_unique(tokens, pos + 3, d1.fields@, d1.fields@.len() as int, d2.fields@, d2.fields@.len() as int, m1);
    assert(d1.fields@ =~= d2.fields@);
}

/// Where one more parameter ends, after the one that ends at `c`.
pub open spec fn parameter_step(tokens: Seq<SpannedToken>, c: int) -> Option<int> {
    if tok_is(tokens, c, TokenKind::Comma) {
        match type_at(tokens, c + 1) {
            Some((_, m)) => if c + 1 < m < tokens.len() && tokens[m].token is Identifier {
                Some(m + 1)
            } else {
                None
            },
            None => None,
        }
    } else {
        None
    }
}

proof fn lemma_parameter_first(tokens: Seq<SpannedToken>, pos: int, p: Seq<Parameter>, k: int, end: int)
    requires
        parameter_list_from(tokens, pos, p, k, end),
        1 <= k <= p.len(),
    ensures
        type_at(tokens, pos) matches Some((_, m)) && pos < m && m + 1 <= end,
        pos < end,
    decreases k,
{
    lemma_type_end(tokens, pos);
    if k > 1 {
        let m = choose|m: int|
            #![trigger tok_is(tokens, m, TokenKind::Comma)]
            parameter_list_from(tokens, pos, p, k - 1, m) && tok_is(tokens, m, TokenKind::Comma) && parameter_from(
                tokens,
                m + 1,
                p[k - 1],
                end,
            );
        lemma_parameter_first(tokens, pos, p, k - 1, m);
        lemma_type_end(tokens, m + 1);
    }
}

proof fn lemma_last_parameter(tokens: Seq<SpannedToken>, pos: int, p: Seq<Parameter>, k: int, end: int) -> (m: int)
    requires
        parameter_list_from(tokens, pos, p, k, end),
        2 <= k <= p.len(),
    ensures
        parameter_list_from(tokens, pos, p, k - 1, m) && tok_is(tokens, m, TokenKind::Comma) && parameter_from(
            tokens,
            m + 1,
            p[k - 1],
            end,
        ),
        parameter_step(tokens, m) == Some(end),
        pos < m < end,
{
    let m = choose|m: int|
        #![trigger tok_is(tokens, m, TokenKind::Comma)]
        parameter_list_from(tokens, pos, p, k - 1, m) && tok_is(tokens, m, TokenKind::Comma) && parameter_from(
            tokens,
            m + 1,
            p[k - 1],
            end,
        );
    lemma_parameter_first(tokens, pos, p, k - 1, m);
    lemma_type_end(tokens, m + 1);
    m
}

proof fn lemma_parameters_between(
    tokens: Seq<SpannedToken>,
    pos: int,
    p1: Seq<Parameter>,
    k1: int,
    n1: int,
    p2: Seq<Parameter>,
    k2: int,
    n2: int,
)
    requires
        0 <= pos,
        parameter_list_from(tokens, pos, p1, k1, n1),
        parameter_list_from(tokens, pos, p2, k2, n2),
        1 <= k1 <= p1.len(),
        1 <= k2 <= p2.len(),
        n2 < n1,
    ensures
        parameter_step(tokens, n2) matches Some(s) && s <= n1,
    decreases n1 + n2,
{
    lemma_parameter_first(tokens, pos, p1, k1, n1);
    lemma_parameter_first(tokens, pos, p2, k2, n2);
    lemma_type_end(tokens, pos);
    if k1 > 1 {
        let m = lemma_last_parameter(tokens, pos, p1, k1, n1);
        lemma_parameter_first(tokens, pos, p1, k1 - 1, m);
        if n2 < m {
            lemma_parameters_between(tokens, pos, p1, k1 - 1, m, p2, k2, n2);
        } else if m < n2 {
            lemma_parameters_between(tokens, pos, p2, k2, n2, p1, k1 - 1, m);
        }
    } else if k2 > 1 {
        let m = lemma_last_parameter(tokens, pos, p2, k2, n2);
        lemma_parameter_first(tokens, pos, p2, k2 - 1, m);
    }
}

proof fn lemma_parameter_list_unique(
    tokens: Seq<SpannedToken>,
    pos: int,
    p1: Seq<Parameter>,
    k1: int,
    p2: Seq<Parameter>,
    k2: int,
    n: int,
)
    requires
        0 <= pos,
        parameter_list_from(tokens, pos, p1, k1, n),
        parameter_list_from(tokens, pos, p2, k2, n),
        1 <= k1 <= p1.len(),
        1 <= k2 <= p2.len(),
    ensures
        k1 == k2,
        forall|i: int| 0 <= i < k1 ==> #[trigger] p1[i] == p2[i],
    decreases k1,
{
    lemma_type_end(tokens, pos);
    if k1 == 1 && k2 > 1 {
        let m = lemma_last_parameter(tokens, pos, p2, k2, n);
        lemma_parameter_first(tokens, pos, p2, k2 - 1, m);
    } else if k2 == 1 && k1 > 1 {
        let m = lemma_last_parameter(tokens, pos, p1, k1, n);
        lemma_parameter_first(tokens, pos, p1, k1 - 1, m);
    } else if k1 > 1 && k2 > 1 {
        let m1 = lemma_last_parameter(tokens, pos, p1, k1, n);
        let m2 = lemma_last_parameter(tokens, pos, p2, k2, n);
        if m1 < m2 {
            lemma_parameters_between(tokens, pos, p2, k2 - 1, m2, p1, k1 - 1, m1);
        } else if m2 < m1 {
            lemma_parameters_between(tokens, pos, p1, k1 - 1, m1, p2, k2 - 1, m2);
        } else {
            lemma_parameter_list_unique(tokens, pos, p1, k1 - 1, p2, k2 - 1, m1);
            assert(p1[k1 - 1] == p2[k2 - 1]);
        }
    }
}

/// A parenthesized parameter list reads one way.
proof fn lemma_parameters_unique(tokens: Seq<SpannedToken>, pos: int, p1: Seq<Parameter>, n1: int, p2: Seq<Parameter>, n2: int)
    requires
        0 <= pos,
        parameters_from(tokens, pos, p1, n1),
        parameters_from(tokens, pos, p2, n2),
    ensures
        n1 == n2,
        p1 == p2,
{
    lemma_parameters_end(tokens, pos, p1, n1);
    lemma_parameters_end(tokens, pos, p2, n2);
    if tok_is(tokens, pos + 1, TokenKind::RightParen) {
        assert(p1 =~= p2);
    } else {
        let m1 = choose|m: int|
            #![trigger tok_is(tokens, m, TokenKind::RightParen)]
            p1.len() > 0 && parameter_list_from(tokens, pos + 1, p1, p1.len() as int, m) && tok_is(
                tokens,
                m,
                TokenKind::RightParen,
            ) && n1 == m + 1;
        let m2 = choose|m: int|
            #![trigger tok_is(tokens, m, TokenKind::RightParen)]
            p2.len() > 0 && parameter_list_from(tokens, pos + 1, p2, p2.len() as int, m) && tok_is(
                tokens,
                m,
                TokenKind::RightParen,
            ) && n2 == m + 1;
        lemma_parameter_list_unique(tokens, pos + 1, p1, p1.len() as int, p2, p2.len() as int, m1);
        assert(p1 =~= p2);
    }
}

/// An extern declaration reads one way.
pub proof fn lemma_extern_unique(tokens: Seq<SpannedToken>, pos: int, x1: ExternFunction, n1: int, x2: ExternFunction, n2: int)
    requires
        0 <= pos,
        extern_from(tokens, pos, x1, n1),
        extern_from(tokens, pos, x2, n2),
    ensures
        n1 == n2,
        same_extern(x1, x2),
{
    lemma_type_end(tokens, pos + 1);
    let m = type_at(tokens, pos + 1)->Some_0.1;
    let c1 = choose|c: int|
        #![trigger tok_is(tokens, c, TokenKind::Semicolon)]
        parameters_from(tokens, m + 1, x1.parameters@, c) && tok_is(tokens, c, TokenKind::Semicolon) && n1 == c + 1
            && x1.span == tokens_span(tokens, pos, c);
    let c2 = choose|c: int|
        #![trigger tok_is(tokens, c, TokenKind::Semicolon)]
        parameters_from(tokens, m + 1, x2.parameters@, c) && tok_is(tokens, c, TokenKind::Semicolon) && n2 == c + 1
            && x2.span == tokens_span(tokens, pos, c);
    lemma_parameters_unique(tokens, m + 1, x1.parameters@, c1, x2.parameters@, c2);
}

/// A function definition reads one way.
pub proof fn lemma_function_unique(tokens: Seq<SpannedToken>, pos: int, f1: Function, n1: int, f2: Function, n2: int)
    requires
        0 <= pos,
        function_from(tokens, pos, f1, n1),
        function_from(tokens, pos, f2, n2),
    ensures
        n1 == n2,
        same_function(f1, f2),
{
    lemma_type_end(tokens, pos);
    let m = type_at(tokens, pos)->Some_0.1;
    let c1 = choose|c: int|
        #![trigger parameters_from(tokens, m + 1, f1.parameters@, c)]
        parameters_from(tokens, m + 1, f1.parameters@, c) && block_from(tokens, c, f1.body, n1) && f1.span == Span {
            start: tokens[pos].span.start,
            end: f1.body.span.end,
        };
    let c2 = choose|c: int|
        #![trigger parameters_from(tokens, m + 1, f2.parameters@, c)]
        parameters_from(tokens, m + 1, f2.parameters@, c) && block_from(tokens, c, f2.body, n2) && f2.span == Span {
            start: tokens[pos].span.start,
            end: f2.body.span.end,
        };
    lemma_parameters_unique(tokens, m + 1, f1.parameters@, c1, f2.parameters@, c2);
    lemma_block_unique(tokens, c1, f1.body, n1, f2.body, n2);
}

/// Where the item that starts at `c` ends.
pub open spec fn item_step(tokens: Seq<SpannedToken>, c: int) -> Option<int> {
    if 0 <= c < tokens.len() && tokens[c].token != TokenKind::Eof {
        if tokens[c].token == TokenKind::Struct {
            struct_end(tokens, c)
        } else if tokens[c].token == TokenKind::Extern {
            extern_end(tokens, c)
        } else {
            function_end(tokens, c)
        }
    } else {
        None
    }
}

/// The last of the items read starts at `m`.
pub open spec fn last_item_at(
    tokens: Seq<SpannedToken>,
    pos: int,
    structs: Seq<StructDefinition>,
    externs: Seq<ExternFunction>,
    functions: Seq<Function>,
    s: int,
    x: int,
    f: int,
    end: int,
    m: int,
) -> bool {
    0 <= m < tokens.len() && tokens[m].token != TokenKind::Eof && if tokens[m].token == TokenKind::Struct {
        s > 0 && items_from(tokens, pos, structs, externs, functions, s - 1, x, f, m) && struct_from(
            tokens,
            m,
            structs[s - 1],
            end,
        )
    } else if tokens[m].token == TokenKind::Extern {
        x > 0 && items_from(tokens, pos, structs, externs, functions, s, x - 1, f, m) && extern_from(
            tokens,
            m,
            externs[x - 1],
            end,
        )
    } else {
        f > 0 && items_from(tokens, pos, structs, externs, functions, s, x, f - 1, m) && function_from(
            tokens,
            m,
            functions[f - 1],
            end,
        )
    }
}

proof fn lemma_last_item(
    tokens: Seq<SpannedToken>,
    pos: int,
    structs: Seq<StructDefinition>,
    externs: Seq<ExternFunction>,
    functions: Seq<Function>,
    s: int,
    x: int,
    f: int,
    end: int,
) -> (m: int)
    requires
        0 <= pos <= tokens.len(),
        items_from(tokens, pos, structs, externs, functions, s, x, f, end),
        s + x + f > 0,
    ensures
        last_item_at(tokens, pos, structs, externs, functions, s, x, f, end, m),
        item_step(tokens, m) == Some(end),
        pos <= m < end,
{
    let m = choose|m: int|
        #![trigger tokens[m]]
        0 <= m < tokens.len() && tokens[m].token != TokenKind::Eof && if tokens[m].token == TokenKind::Struct {
            s > 0 && items_from(tokens, pos, structs, externs, functions, s - 1, x, f, m) && struct_from(
                tokens,
                m,
                structs[s - 1],
                end,
            )
        } else if tokens[m].token == TokenKind::Extern {
            x > 0 && items_from(tokens, pos, structs, externs, functions, s, x - 1, f, m) && extern_from(
                tokens,
                m,
                externs[x - 1],
                end,
            )
        } else {
            f > 0 && items_from(tokens, pos, structs, externs, functions, s, x, f - 1, m) && function_from(
                tokens,
                m,
                functions[f - 1],
                end,
            )
        };
    if tokens[m].token == TokenKind::Struct {
        lemma_items_end(tokens, pos, structs, externs, functions, s - 1, x, f, m);
        lemma_struct_end(tokens, m, structs[s - 1], end);
    } else if tokens[m].token == TokenKind::Extern {
        lemma_items_end(tokens, pos, structs, externs, functions, s, x - 1, f, m);
        lemma_extern_end(tokens, m, externs[x - 1], end);
    } else {
        lemma_items_end(tokens, pos, structs, externs, functions, s, x, f - 1, m);
        lemma_function_end(tokens, m, functions[f - 1], end);
    }
    m
}

/// The items read with one fewer of the kind that starts at `m`.
pub open spec fn items_before(
    tokens: Seq<SpannedToken>,
    m: int,
    s: int,
    x: int,
    f: int,
) -> (int, int, int) {
    if tokens[m].token == TokenKind::Struct {
        (s - 1, x, f)
    } else if tokens[m].token == TokenKind::Extern {
        (s, x - 1, f)
    } else {
        (s, x, f - 1)
    }
}

proof fn lemma_items_between(
    tokens: Seq<SpannedToken>,
    pos: int,
    a: (Seq<StructDefinition>, Seq<ExternFunction>, Seq<Function>),
    ka: (int, int, int),
    n1: int,
    b: (Seq<StructDefinition>, Seq<ExternFunction>, Seq<Function>),
    kb: (int, int, int),
    n2: int,
)
    requires
        0 <= pos <= tokens.len(),
        items_from(tokens, pos, a.0, a.1, a.2, ka.0, ka.1, ka.2, n1),
        items_from(tokens, pos, b.0, b.1, b.2, kb.0, kb.1, kb.2, n2),
        n2 < n1,
    ensures
        item_step(tokens, n2) matches Some(s) && s <= n1,
    decreases n1 + n2,
{
    lemma_items_end(tokens, pos, a.0, a.1, a.2, ka.0, ka.1, ka.2, n1);
    lemma_items_end(tokens, pos, b.0, b.1, b.2, kb.0, kb.1, kb.2, n2);
    if ka.0 + ka.1 + ka.2 > 0 {
        let m = lemma_last_item(tokens, pos, a.0, a.1, a.2, ka.0, ka.1, ka.2, n1);
        let k = items_before(tokens, m, ka.0, ka.1, ka.2);
        lemma_items_end(tokens, pos, a.0, a.1, a.2, k.0, k.1, k.2, m);
        if n2 < m {
            lemma_items_between(tokens, pos, a, k, m, b, kb, n2);
        } else if m < n2 {
            lemma_items_between(tokens, pos, b, kb, n2, a, k, m);
        }
    }
}

proof fn lemma_items_unique(
    tokens: Seq<SpannedToken>,
    pos: int,
    a: (Seq<StructDefinition>, Seq<ExternFunction>, Seq<Function>),
    ka: (int, int, int),
    b: (Seq<StructDefinition>, Seq<ExternFunction>, Seq<Function>),
    kb: (int, int, int),
    n: int,
)
    requires
        0 <= pos <= tokens.len(),
        items_from(tokens, pos, a.0, a.1, a.2, ka.0, ka.1, ka.2, n),
        items_from(tokens, pos, b.0, b.1, b.2, kb.0, kb.1, kb.2, n),
    ensures
        ka == kb,
        forall|i: int| 0 <= i < ka.0 ==> same_struct(#[trigger] a.0[i], b.0[i]),
        forall|i: int| 0 <= i < ka.1 ==> same_extern(#[trigger] a.1[i], b.1[i]),
        forall|i: int| 0 <= i < ka.2 ==> same_function(#[trigger] a.2[i], b.2[i]),
    decreases ka.0 + ka.1 + ka.2,
{
    let na = ka.0 + ka.1 + ka.2;
    let nb = kb.0 + kb.1 + kb.2;
    if na == 0 && nb > 0 {
        lemma_last_item(tokens, pos, b.0, b.1, b.2, kb.0, kb.1, kb.2, n);
    } else if nb == 0 && na > 0 {
        lemma_last_item(tokens, pos, a.0, a.1, a.2, ka.0, ka.1, ka.2, n);
    } else if na > 0 && nb > 0 {
        let m1 = lemma_last_item(tokens, pos, a.0, a.1, a.2, ka.0, ka.1, ka.2, n);
        let m2 = lemma_last_item(tokens, pos, b.0, b.1, b.2, kb.0, kb.1, kb.2, n);
        let k1 = items_before(tokens, m1, ka.0, ka.1, ka.2);
        let k2 = items_before(tokens, m2, kb.0, kb.1, kb.2);
        if m1 < m2 {
            lemma_items_between(tokens, pos, b, k2, m2, a, k1, m1);
        } else if m2 < m1 {
            lemma_items_between(tokens, pos, a, k1, m1, b, k2, m2);
        } else {
            lemma_items_unique(tokens, pos, a, k1, b, k2, m1);
            if tokens[m1].token == TokenKind::Struct {
                lemma_struct_unique(tokens, m1, a.0[ka.0 - 1], n, b.0[kb.0 - 1], n);
            } else if tokens[m1].token == TokenKind::Extern {
                lemma_extern_unique(tokens, m1, a.1[ka.1 - 1], n, b.1[kb.1 - 1], n);
            } else {
                lemma_function_unique(tokens, m1, a.2[ka.2 - 1], n, b.2[kb.2 - 1], n);
            }
        }
    }
}

/// Two programs are the same: the same items in the same order, and the
/// same span.
pub open spec fn same_program(a: Program, b: Program) -> bool {
    &&& a.span == b.span
    &&& a.structs@.len() == b.structs@.len()
    &&& forall|i: int| 0 <= i < a.structs@.len() ==> same_struct(#[trigger] a.structs@[i], b.structs@[i])
    &&& a.extern_functions@.len() == b.extern_functions@.len()
    &&& forall|i: int|
        0 <= i < a.extern_functions@.len() ==> same_extern(#[trigger] a.extern_functions@[i], b.extern_functions@[i])
    &&& a.functions@.len() == b.functions@.len()
    &&& forall|i: int| 0 <= i < a.functions@.len() ==> same_function(#[trigger] a.functions@[i], b.functions@[i])
}

/// A token sequence reads as at most one program.
pub proof fn lemma_program_unique(tokens: Seq<SpannedToken>, p1: Program, p2: Program)
    requires
        program_from(tokens, p1),
        program_from(tokens, p2),
    ensures
        same_program(p1, p2),
{
    let a = (p1.structs@, p1.extern_functions@, p1.functions@);
    let b = (p2.structs@, p2.extern_functions@, p2.functions@);
    let ka = (p1.structs@.len() as int, p1.extern_functions@.len() as int, p1.functions@.len() as int);
    let kb = (p2.structs@.len() as int, p2.extern_functions@.len() as int, p2.functions@.len() as int);
    let m1 = choose|m: int|
        #![trigger tok_is(tokens, m, TokenKind::Eof)]
        items_from(tokens, 0, a.0, a.1, a.2, ka.0, ka.1, ka.2, m) && tok_is(tokens, m, TokenKind::Eof) && p1.span
            == tokens_span(tokens, 0, m);
    let m2 = choose|m: int|
        #![trigger tok_is(tokens, m, TokenKind::Eof)]
        items_from(tokens, 0, b.0, b.1, b.2, kb.0, kb.1, kb.2, m) && tok_is(tokens, m, TokenKind::Eof) && p2.span
            == tokens_span(tokens, 0, m);
    lemma_items_end(tokens, 0, a.0, a.1, a.2, ka.0, ka.1, ka.2, m1);
    lemma_items_end(tokens, 0, b.0, b.1, b.2, kb.0, kb.1, kb.2, m2);
    lemma_items_unique(tokens, 0, a, ka, b, kb, m1);
}

} // verus!
