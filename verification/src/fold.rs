//! Constant folding on the syntax tree: a binary operation whose operands are
//! both integer literals becomes the literal of its result.

use vstd::prelude::*;

use crate::ast::{
    BinaryOperator, Block, Expression, Function, Program, Statement, copy_bytes, copy_parameters,
    copy_string,
};
use crate::number::{i64_text, literal_i64, parse_i64};
use crate::text::signed_decimal;

verus! {

/// Division rounding toward zero, as the machine's `idiv` and Rust's `/` do.
pub open spec fn truncating_div(a: int, b: int) -> int {
    let q = abs(a) / abs(b);
    if (a < 0) != (b < 0) {
        -q
    } else {
        q
    }
}

pub open spec fn abs(a: int) -> int {
    if a < 0 {
        -a
    } else {
        a
    }
}

/// `left / right` rounding toward zero, for a divisor that is not zero and a
/// quotient that fits.
fn truncating_quotient(left: i64, right: i64) -> (r: i64)
    requires
        right != 0,
        !(left == i64::MIN && right == -1),
    ensures
        r == truncating_div(left as int, right as int),
{
    let a: i128 = if left < 0 { -(left as i128) } else { left as i128 };
    let b: i128 = if right < 0 { -(right as i128) } else { right as i128 };
    let q: i128 = a / b;
    assert(0 <= q <= a) by (nonlinear_arith)
        requires
            0 <= a,
            1 <= b,
            q == a / b,
    ;
    if (left < 0) != (right < 0) {
        assert(q <= 0x8000_0000_0000_0000);
        (-q) as i64
    } else {
        assert(q < 0x8000_0000_0000_0000) by {
            if left == i64::MIN {
                assert(b >= 2);
                assert(q <= a / 2) by (nonlinear_arith)
                    requires
                        0 <= a,
                        2 <= b,
                        q == a / b,
                ;
            }
        }
        q as i64
    }
}

/// The value a folded arithmetic operation has, when it is folded: `+`, `-`
/// and `*` wrap around as the machine's 64-bit arithmetic does, and `/` folds
/// when the divisor is not zero and the quotient fits.
pub open spec fn fold_arithmetic(operator: BinaryOperator, left: i64, right: i64) -> Option<i64> {
    match operator {
        BinaryOperator::Add => Some(left.wrapping_add(right)),
        BinaryOperator::Subtract => Some(left.wrapping_sub(right)),
        BinaryOperator::Multiply => Some(left.wrapping_mul(right)),
        BinaryOperator::Divide => if right != 0 && !(left == i64::MIN && right == -1) {
            Some(truncating_div(left as int, right as int) as i64)
        } else {
            None
        },
        _ => None,
    }
}

pub fn fold_arithmetic_exec(operator: BinaryOperator, left: i64, right: i64) -> (r: Option<i64>)
    ensures
        r == fold_arithmetic(operator, left, right),
{
    match operator {
        BinaryOperator::Add => Some(left.wrapping_add(right)),
        BinaryOperator::Subtract => Some(left.wrapping_sub(right)),
        BinaryOperator::Multiply => Some(left.wrapping_mul(right)),
        BinaryOperator::Divide => {
            if right != 0 && !(left == i64::MIN && right == -1) {
                Some(truncating_quotient(left, right))
            } else {
                None
            }
        },
        _ => None,
    }
}

/// Folds the constants of an expression, innermost first. A binary
/// operation on two integer literals that [`fold_arithmetic`] folds becomes
/// the literal of the result, with the operation's span.
/// The literal an expression folds to, if it folds to one: a literal is
/// itself, and an operation on two operands that fold to literals holding
/// `i64` values folds to the literal of its result when that is defined.
pub open spec fn folded_literal(e: Expression) -> Option<Seq<char>>
    decreases e,
{
    match e {
        Expression::Integer { value, .. } => Some(value@),
        Expression::Binary { left, operator, right, .. } => match (folded_literal(*left), folded_literal(*right)) {
            (Some(a), Some(b)) => match (literal_i64(a), literal_i64(b)) {
                (Some(x), Some(y)) => match fold_arithmetic(operator, x, y) {
                    Some(v) => Some(signed_decimal(v as int)),
                    None => None,
                },
                _ => None,
            },
            _ => None,
        },
        _ => None,
    }
}

/// `r` is `e` with its constants folded: every operation that folds to a
/// literal is that literal (with the operation's span); everything else
/// keeps its shape, spans, names and values.
pub open spec fn folds_to(e: Expression, r: Expression) -> bool
    decreases e,
{
    match e {
        Expression::Binary { left, operator, right, span } => match folded_literal(e) {
            Some(text) => r matches Expression::Integer { value, span: s } && value@ == text && s == span,
            None => r matches Expression::Binary { left: l, operator: o, right: x, span: s } && o == operator && s
                == span && folds_to(*left, *l) && folds_to(*right, *x),
        },
        Expression::Unary { operator, operand, span } => r matches Expression::Unary { operator: o, operand: x, span: s }
            && o == operator && s == span && folds_to(*operand, *x),
        Expression::Call { callee, arguments, span } => r matches Expression::Call { callee: c, arguments: a, span: s }
            && s == span && folds_to(*callee, *c) && a@.len() == arguments@.len() && forall|i: int|
            0 <= i < arguments@.len() ==> folds_to(#[trigger] arguments@[i], a@[i]),
        Expression::Index { base, index, span } => r matches Expression::Index { base: b, index: x, span: s } && s
            == span && folds_to(*base, *b) && folds_to(*index, *x),
        Expression::Field { base, field, span } => r matches Expression::Field { base: b, field: f, span: s } && f
            == field && s == span && folds_to(*base, *b),
        Expression::Cast { ty, operand, span } => r matches Expression::Cast { ty: t, operand: x, span: s } && t == ty
            && s == span && folds_to(*operand, *x),
        Expression::String { value, span } => r matches Expression::String { value: v, span: s } && v@ == value@ && s
            == span,
        _ => r == e,
    }
}

/// A statement with the constants of its expressions folded.
pub open spec fn folds_statement(s: Statement, r: Statement) -> bool
    decreases s, 1int,
{
    match s {
        Statement::Declare { .. } => r == s,
        Statement::Let { name, value, span } => r matches Statement::Let { name: n, value: v, span: sp } && n == name
            && sp == span && folds_to(value, v),
        Statement::Assign { target, value, span } => r matches Statement::Assign { target: t, value: v, span: sp } && sp
            == span && folds_to(target, t) && folds_to(value, v),
        Statement::Return { value, span } => r matches Statement::Return { value: v, span: sp } && sp == span && match (
            value,
            v,
        ) {
            (Some(a), Some(b)) => folds_to(a, b),
            (None, None) => true,
            _ => false,
        },
        Statement::If { condition, then_branch, else_branch, span } => r matches Statement::If {
            condition: c,
            then_branch: t,
            else_branch: e,
            span: sp,
        } && sp == span && folds_to(condition, c) && folds_block(then_branch, t) && match (else_branch, e) {
            (Some(a), Some(b)) => folds_block(a, b),
            (None, None) => true,
            _ => false,
        },
        Statement::While { condition, body, span } => r matches Statement::While { condition: c, body: b, span: sp } && sp
            == span && folds_to(condition, c) && folds_block(body, b),
        Statement::Block(b) => r matches Statement::Block(x) && folds_block(b, x),
        Statement::Expression { expression, span } => r matches Statement::Expression { expression: x, span: sp } && sp
            == span && folds_to(expression, x),
    }
}

/// A block with the constants of its statements folded.
pub open spec fn folds_block(b: Block, r: Block) -> bool
    decreases b, 0int,
{
    r.span == b.span && r.statements@.len() == b.statements@.len() && forall|i: int|
        0 <= i < b.statements@.len() ==> folds_statement(#[trigger] b.statements@[i], r.statements@[i])
}

/// A function with the constants of its body folded.
pub open spec fn folds_function(f: Function, r: Function) -> bool {
    &&& r.name == f.name
    &&& r.return_type == f.return_type
    &&& r.parameters@ == f.parameters@
    &&& r.span == f.span
    &&& folds_block(f.body, r.body)
}

/// A program with the constants of its function bodies folded; its other
/// items are copied.
pub open spec fn folds_program(p: Program, r: Program) -> bool {
    &&& r.span == p.span
    &&& r.structs@.len() == p.structs@.len()
    &&& forall|i: int| 0 <= i < r.structs@.len() ==> crate::ast::same_struct(#[trigger] r.structs@[i], p.structs@[i])
    &&& r.extern_functions@.len() == p.extern_functions@.len()
    &&& forall|i: int|
        0 <= i < r.extern_functions@.len() ==> crate::ast::same_extern(
            #[trigger] r.extern_functions@[i],
            p.extern_functions@[i],
        )
    &&& r.functions@.len() == p.functions@.len()
    &&& forall|i: int| 0 <= i < r.functions@.len() ==> folds_function(p.functions@[i], #[trigger] r.functions@[i])
}

/// What a folded expression is a literal of.
proof fn lemma_folded_literal(e: Expression, r: Expression)
    requires
        folds_to(e, r),
    ensures
        match folded_literal(e) {
            Some(text) => r matches Expression::Integer { value, .. } && value@ == text,
            None => !(r is Integer),
        },
{
}

pub fn fold_expression(expression: &Expression) -> (r: Expression)
    ensures
        folds_to(*expression, r),
    decreases expression,
{
    match expression {
        Expression::Binary { left, operator, right, span } => {
            let ghost (l0, r0) = (**left, **right);
            let left = fold_expression(left);
            let right = fold_expression(right);
            proof {
                lemma_folded_literal(l0, left);
                lemma_folded_literal(r0, right);
            }
            let folded = match (&left, &right) {
                (Expression::Integer { value: l, .. }, Expression::Integer { value: r, .. }) => {
                    match (parse_i64(l), parse_i64(r)) {
                        (Some(a), Some(b)) => fold_arithmetic_exec(*operator, a, b),
                        _ => None,
                    }
                },
                _ => None,
            };
            proof {
                match folded {
                    Some(v) => {
                        assert(folded_literal(*expression) == Some(signed_decimal(v as int)));
                    },
                    None => {
                        assert(folded_literal(*expression) is None);
                    },
                }
            }
            match folded {
                Some(value) => {
                    let r = Expression::Integer { value: i64_text(value), span: *span };
                    assert(folds_to(*expression, r));
                    r
                },
                None => {
                    let r = Expression::Binary {
                        left: Box::new(left),
                        operator: *operator,
                        right: Box::new(right),
                        span: *span,
                    };
                    assert(folds_to(*expression, r));
                    r
                },
            }
        },
        Expression::Unary { operator, operand, span } => Expression::Unary {
            operator: *operator,
            operand: Box::new(fold_expression(operand)),
            span: *span,
        },
        Expression::Call { callee, arguments, span } => {
            let callee = Box::new(fold_expression(callee));
            let mut folded: Vec<Expression> = Vec::new();
            let mut i: usize = 0;
            #[verifier::loop_isolation(false)]
            while i < arguments.len()
                invariant
                    folded@.len() == i,
                    i <= arguments@.len(),
                    forall|k: int| 0 <= k < i ==> folds_to(#[trigger] arguments@[k], folded@[k]),
                decreases arguments@.len() - i,
            {
                folded.push(fold_expression(&arguments[i]));
                i = i + 1;
            }
            Expression::Call { callee, arguments: folded, span: *span }
        },
        Expression::Index { base, index, span } => Expression::Index {
            base: Box::new(fold_expression(base)),
            index: Box::new(fold_expression(index)),
            span: *span,
        },
        Expression::Field { base, field, span } => Expression::Field {
            base: Box::new(fold_expression(base)),
            field: copy_string(field),
            span: *span,
        },
        Expression::Cast { ty, operand, span } => Expression::Cast {
            ty: ty.duplicate(),
            operand: Box::new(fold_expression(operand)),
            span: *span,
        },
        Expression::Integer { value, span } => Expression::Integer {
            value: copy_string(value),
            span: *span,
        },
        Expression::Character { value, span } => Expression::Character { value: *value, span: *span },
        Expression::String { value, span } => Expression::String { value: copy_bytes(value), span: *span },
        Expression::Boolean { value, span } => Expression::Boolean { value: *value, span: *span },
        Expression::Name { value, span } => Expression::Name { value: copy_string(value), span: *span },
    }
}

pub fn fold_block(block: &Block) -> (r: Block)
    ensures
        folds_block(*block, r),
    decreases block, 0nat,
{
    let mut statements: Vec<Statement> = Vec::new();
    let mut i: usize = 0;
    #[verifier::loop_isolation(false)]
    while i < block.statements.len()
        invariant
            0 <= i <= block.statements@.len(),
            statements@.len() == i,
            forall|k: int| 0 <= k < i ==> folds_statement(#[trigger] block.statements@[k], statements@[k]),
        decreases block.statements@.len() - i,
    {
        statements.push(fold_statement(&block.statements[i]));
        i = i + 1;
    }
    Block { statements, span: block.span }
}

pub fn fold_statement(statement: &Statement) -> (r: Statement)
    ensures
        folds_statement(*statement, r),
    decreases statement, 1nat,
{
    match statement {
        Statement::Declare { ty, name, span } => Statement::Declare {
            ty: ty.duplicate(),
            name: copy_string(name),
            span: *span,
        },
        Statement::Let { name, value, span } => Statement::Let {
            name: copy_string(name),
            value: fold_expression(value),
            span: *span,
        },
        Statement::Assign { target, value, span } => Statement::Assign {
            target: fold_expression(target),
            value: fold_expression(value),
            span: *span,
        },
        Statement::Return { value, span } => Statement::Return {
            value: match value {
                Some(v) => Some(fold_expression(v)),
                None => None,
            },
            span: *span,
        },
        Statement::If { condition, then_branch, else_branch, span } => Statement::If {
            condition: fold_expression(condition),
            then_branch: fold_block(then_branch),
            else_branch: match else_branch {
                Some(b) => Some(fold_block(b)),
                None => None,
            },
            span: *span,
        },
        Statement::While { condition, body, span } => Statement::While {
            condition: fold_expression(condition),
            body: fold_block(body),
            span: *span,
        },
        Statement::Block(block) => Statement::Block(fold_block(block)),
        Statement::Expression { expression, span } => Statement::Expression {
            expression: fold_expression(expression),
            span: *span,
        },
    }
}

/// Folds the constants of every function body; everything else is copied.
pub fn fold_constants(program: &Program) -> (r: Program)
    ensures
        folds_program(*program, r),
{
    let mut structs = Vec::new();
    let mut i: usize = 0;
    while i < program.structs.len()
        invariant
            0 <= i <= program.structs@.len(),
            structs@.len() == i,
            forall|k: int| 0 <= k < i ==> crate::ast::same_struct(
                #[trigger] structs@[k],
                program.structs@[k],
            ),
        decreases program.structs@.len() - i,
    {
        structs.push(program.structs[i].duplicate());
        i = i + 1;
    }
    let mut extern_functions = Vec::new();
    let mut i: usize = 0;
    while i < program.extern_functions.len()
        invariant
            0 <= i <= program.extern_functions@.len(),
            extern_functions@.len() == i,
            forall|k: int| 0 <= k < i ==> crate::ast::same_extern(
                #[trigger] extern_functions@[k],
                program.extern_functions@[k],
            ),
        decreases program.extern_functions@.len() - i,
    {
        extern_functions.push(program.extern_functions[i].duplicate());
        i = i + 1;
    }
    let mut functions: Vec<Function> = Vec::new();
    let mut i: usize = 0;
    while i < program.functions.len()
        invariant
            0 <= i <= program.functions@.len(),
            functions@.len() == i,
            forall|k: int| 0 <= k < i ==> folds_function(program.functions@[k], #[trigger] functions@[k]),
        decreases program.functions@.len() - i,
    {
        let function = &program.functions[i];
        functions.push(Function {
            return_type: function.return_type.duplicate(),
            name: copy_string(&function.name),
            parameters: copy_parameters(&function.parameters),
            body: fold_block(&function.body),
            span: function.span,
        });
        i = i + 1;
    }
    Program { structs, extern_functions, functions, span: program.span }
}

} // verus!
