//! What comparisons, truth values and constant arithmetic mean, and proofs
//! that each stage computes that meaning: the code emitted for a
//! comparison tests the comparison, constant folding gives 1 for a
//! comparison that holds and 0 for one that does not, a boolean literal
//! lowers to the constant of its truth value, and folded arithmetic wraps
//! as the machine does.

use vstd::prelude::*;

use crate::ast::{BinaryOperator, Expression};
use crate::fold::{abs, fold_arithmetic, truncating_div};
use crate::ir::{InstructionView, IrType, Local, StructLayout, expression_code};
use crate::lexer::Span;
use crate::codegen::{binary_text, condition_code};
use crate::ir::is_comparison_operator;
use crate::optimize::constant_value;

verus! {

/// What a comparison operator means on two integers.
pub open spec fn comparison_meaning(operator: BinaryOperator, a: int, b: int) -> bool {
    match operator {
        BinaryOperator::Equal => a == b,
        BinaryOperator::NotEqual => a != b,
        BinaryOperator::Less => a < b,
        BinaryOperator::LessEqual => a <= b,
        BinaryOperator::Greater => a > b,
        _ => a >= b,
    }
}

// ---------------------------------------------------------------------------
// Emitted comparisons.

/// What the x86 condition `code` tests after `cmp a, b` on signed operands:
/// the condition under which `set<code>` sets its byte, as the x86 manuals
/// define it (`e` equal, `ne` not equal, `l` less, `le` less or equal, `g`
/// greater, `ge` greater or equal); `None` for another code.
pub open spec fn x86_condition(code: Seq<char>, a: int, b: int) -> Option<bool> {
    if code == "e"@ {
        Some(a == b)
    } else if code == "ne"@ {
        Some(a != b)
    } else if code == "l"@ {
        Some(a < b)
    } else if code == "le"@ {
        Some(a <= b)
    } else if code == "g"@ {
        Some(a > b)
    } else if code == "ge"@ {
        Some(a >= b)
    } else {
        None
    }
}

proof fn lemma_condition_texts()
    ensures
        "e"@ != "ne"@ && "e"@ != "l"@ && "e"@ != "le"@ && "e"@ != "g"@ && "e"@ != "ge"@,
        "ne"@ != "l"@ && "ne"@ != "le"@ && "ne"@ != "g"@ && "ne"@ != "ge"@,
        "l"@ != "le"@ && "l"@ != "g"@ && "l"@ != "ge"@,
        "le"@ != "g"@ && "le"@ != "ge"@,
        "g"@ != "ge"@,
{
    reveal_strlit("e");
    reveal_strlit("ne");
    reveal_strlit("l");
    reveal_strlit("le");
    reveal_strlit("g");
    reveal_strlit("ge");
    assert("e"@.len() == 1 && "e"@[0] == 'e');
    assert("l"@.len() == 1 && "l"@[0] == 'l');
    assert("g"@.len() == 1 && "g"@[0] == 'g');
    assert("ne"@.len() == 2 && "ne"@[0] == 'n');
    assert("le"@.len() == 2 && "le"@[0] == 'l');
    assert("ge"@.len() == 2 && "ge"@[0] == 'g');
}

/// The code emitted for a comparison computes it: after `cmp rax, rdi`
/// with the left operand in `rax` and the right in `rdi`, the condition it
/// sets `al` on holds exactly when the comparison holds on the two signed
/// values. So `<` and `>` test different conditions, and `a < b` tests
/// what `b > a` tests.
pub proof fn lemma_comparison_code_computes_comparison(operator: BinaryOperator, left: i64, right: i64)
    requires
        is_comparison_operator(operator),
    ensures
        x86_condition(condition_code(operator), left as int, right as int) == Some(
            comparison_meaning(operator, left as int, right as int),
        ),
        x86_condition(condition_code(BinaryOperator::Less), left as int, right as int) == x86_condition(
            condition_code(BinaryOperator::Greater),
            right as int,
            left as int,
        ),
        x86_condition(condition_code(BinaryOperator::LessEqual), left as int, right as int) == x86_condition(
            condition_code(BinaryOperator::GreaterEqual),
            right as int,
            left as int,
        ),
        condition_code(BinaryOperator::Less) != condition_code(BinaryOperator::Greater),
        condition_code(BinaryOperator::LessEqual) != condition_code(BinaryOperator::GreaterEqual),
{
    lemma_condition_texts();
}

// ---------------------------------------------------------------------------
// Folded comparisons.

/// Folding a comparison of two constants gives the truth value of the
/// comparison: 1 when it holds and 0 when it does not. So `a < b` folds as
/// `b > a` does, a comparison and its negation fold to values that add up
/// to 1, exactly one of `<`, `==` and `>` folds to 1, and the folded value
/// is 1 exactly when the emitted code's condition holds.
pub proof fn lemma_folded_comparison_is_truth_value(operator: BinaryOperator, left: i64, right: i64)
    requires
        is_comparison_operator(operator),
    ensures
        constant_value(operator, left, right) == Some(
            if comparison_meaning(operator, left as int, right as int) {
                1i64
            } else {
                0i64
            },
        ),
        constant_value(BinaryOperator::Less, left, right) == constant_value(BinaryOperator::Greater, right, left),
        constant_value(BinaryOperator::LessEqual, left, right) == constant_value(
            BinaryOperator::GreaterEqual,
            right,
            left,
        ),
        constant_value(BinaryOperator::Less, left, right)->Some_0 + constant_value(
            BinaryOperator::GreaterEqual,
            left,
            right,
        )->Some_0 == 1,
        constant_value(BinaryOperator::Greater, left, right)->Some_0 + constant_value(
            BinaryOperator::LessEqual,
            left,
            right,
        )->Some_0 == 1,
        constant_value(BinaryOperator::Equal, left, right)->Some_0 + constant_value(
            BinaryOperator::NotEqual,
            left,
            right,
        )->Some_0 == 1,
        constant_value(BinaryOperator::Less, left, right)->Some_0 + constant_value(
            BinaryOperator::Equal,
            left,
            right,
        )->Some_0 + constant_value(BinaryOperator::Greater, left, right)->Some_0 == 1,
        x86_condition(condition_code(operator), left as int, right as int) == Some(
            constant_value(operator, left, right) == Some(1i64),
        ),
{
    lemma_condition_texts();
}

// ---------------------------------------------------------------------------
// Truth values.

/// A boolean literal lowers to one constant, nonzero exactly when the
/// literal is true, and that constant is a truth value as folding gives
/// them: comparing it with 0 for inequality folds to itself.
pub proof fn lemma_boolean_literal_lowers_to_truth_value(
    program: crate::ast::Program,
    layouts: Seq<StructLayout>,
    locals: Seq<Local>,
    value: bool,
    span: Span,
)
    ensures
        expression_code(program, layouts, locals, Expression::Boolean { value, span }).len() == 1,
        expression_code(program, layouts, locals, Expression::Boolean { value, span })[0] matches InstructionView::Constant(c)
            && (c != 0 <==> value) && constant_value(BinaryOperator::NotEqual, c, 0) == Some(c),
{
}

// ---------------------------------------------------------------------------
// Folded arithmetic.

/// Folding `left - right` gives the machine's 64-bit difference: exactly
/// `left - right` when that fits, and otherwise that difference wrapped by
/// 2^64; adding `right` back to it, with wrapping, gives `left`; and the
/// syntax-tree folder and the IR folder agree.
pub proof fn lemma_folded_subtraction(left: i64, right: i64)
    ensures
        fold_arithmetic(BinaryOperator::Subtract, left, right) is Some,
        i64::MIN <= left - right <= i64::MAX ==> fold_arithmetic(BinaryOperator::Subtract, left, right)->Some_0
            == left - right,
        ({
            let v = fold_arithmetic(BinaryOperator::Subtract, left, right)->Some_0 as int;
            v == left - right || v == left - right + 0x1_0000_0000_0000_0000 || v == left - right
                - 0x1_0000_0000_0000_0000
        }),
        fold_arithmetic(
            BinaryOperator::Add,
            fold_arithmetic(BinaryOperator::Subtract, left, right)->Some_0,
            right,
        ) == Some(left),
        constant_value(BinaryOperator::Subtract, left, right) == fold_arithmetic(
            BinaryOperator::Subtract,
            left,
            right,
        ),
{
}

/// Folding `left + right` gives the machine's 64-bit sum: exactly
/// `left + right` when that fits, and otherwise that sum wrapped by 2^64;
/// subtracting `right` from it, with wrapping, gives `left`; and the
/// syntax-tree folder and the IR folder agree.
pub proof fn lemma_folded_addition(left: i64, right: i64)
    ensures
        fold_arithmetic(BinaryOperator::Add, left, right) is Some,
        i64::MIN <= left + right <= i64::MAX ==> fold_arithmetic(BinaryOperator::Add, left, right)->Some_0 == left
            + right,
        ({
            let v = fold_arithmetic(BinaryOperator::Add, left, right)->Some_0 as int;
            v == left + right || v == left + right + 0x1_0000_0000_0000_0000 || v == left + right
                - 0x1_0000_0000_0000_0000
        }),
        fold_arithmetic(
            BinaryOperator::Subtract,
            fold_arithmetic(BinaryOperator::Add, left, right)->Some_0,
            right,
        ) == Some(left),
        constant_value(BinaryOperator::Add, left, right) == fold_arithmetic(BinaryOperator::Add, left, right),
{
}

/// Folding multiplies as the machine does: exactly `left * right` when the
/// product fits, and in either order of the operands.
pub proof fn lemma_folded_multiplication(left: i64, right: i64)
    ensures
        fold_arithmetic(BinaryOperator::Multiply, left, right) is Some,
        i64::MIN <= left * right <= i64::MAX ==> fold_arithmetic(BinaryOperator::Multiply, left, right)->Some_0
            == left * right,
        fold_arithmetic(BinaryOperator::Multiply, left, right) == fold_arithmetic(
            BinaryOperator::Multiply,
            right,
            left,
        ),
        constant_value(BinaryOperator::Multiply, left, right) == fold_arithmetic(
            BinaryOperator::Multiply,
            left,
            right,
        ),
{
    assert(left * right == right * left) by (nonlinear_arith);
}

/// Folding divides rounding toward zero: when the divisor is not zero and
/// the quotient fits, the folded quotient `q` leaves a remainder
/// `left - q * right` smaller than the divisor in size and never of the
/// opposite sign to `left`; otherwise nothing is folded.
pub proof fn lemma_folded_division(left: i64, right: i64)
    ensures
        (right == 0 || (left == i64::MIN && right == -1)) <==> fold_arithmetic(
            BinaryOperator::Divide,
            left,
            right,
        ) is None,
        fold_arithmetic(BinaryOperator::Divide, left, right) matches Some(q) ==> {
            let rem = left - q * right;
            &&& abs(rem) < abs(right as int)
            &&& (rem == 0 || (rem < 0) == (left < 0))
        },
        constant_value(BinaryOperator::Divide, left, right) == fold_arithmetic(
            BinaryOperator::Divide,
            left,
            right,
        ),
{
    if right != 0 && !(left == i64::MIN && right == -1) {
        let a = left as int;
        let b = right as int;
        let n = abs(a);
        let d = abs(b);
        let q0 = n / d;
        assert(0 <= n - q0 * d < d) by (nonlinear_arith)
            requires
                n >= 0,
                d > 0,
                q0 == n / d,
        ;
        assert(q0 <= n) by (nonlinear_arith)
            requires
                n >= 0,
                d > 0,
                q0 == n / d,
        ;
        let q = truncating_div(a, b);
        if a < 0 && b < 0 {
            assert(q == q0 && b == -d);
            assert(q * b == -(q0 * d)) by (nonlinear_arith)
                requires
                    q == q0,
                    b == -d,
            ;
        } else if a < 0 {
            assert(q == -q0 && b == d);
            assert(q * b == -(q0 * d)) by (nonlinear_arith)
                requires
                    q == -q0,
                    b == d,
            ;
        } else if b < 0 {
            assert(q == -q0 && b == -d);
            assert(q * b == q0 * d) by (nonlinear_arith)
                requires
                    q == -q0,
                    b == -d,
            ;
        } else {
            assert(q == q0 && b == d);
        }
        assert(n == if a < 0 { -a } else { a });
        assert(i64::MIN <= q <= i64::MAX) by {
            if left == i64::MIN {
                assert(d >= 2 || (d == 1 && b == 1));
                if d >= 2 {
                    assert(q0 <= n / 2) by (nonlinear_arith)
                        requires
                            n >= 0,
                            d >= 2,
                            q0 == n / d,
                    ;
                }
            }
        }
    }
}

// ---------------------------------------------------------------------------
// Emitted arithmetic.

/// What an x86 arithmetic sequence computes from `rax` (`a`) and `rdi`
/// (`b`) into `rax`: 64-bit wrapping `add`, `sub` and `imul`, `cqo` then
/// `idiv` (a quotient rounded toward zero; the machine faults on a zero
/// divisor or an overflowing quotient), and bitwise `and`, `or` and `xor`.
pub open spec fn x86_arithmetic(code: Seq<char>, a: i64, b: i64) -> Option<i64> {
    if code == "  add rax, rdi\n"@ {
        Some(a.wrapping_add(b))
    } else if code == "  sub rax, rdi\n"@ {
        Some(a.wrapping_sub(b))
    } else if code == "  imul rax, rdi\n"@ {
        Some(a.wrapping_mul(b))
    } else if code == "  cqo\n  idiv rdi\n"@ {
        if b != 0 && !(a == i64::MIN && b == -1) {
            Some(truncating_div(a as int, b as int) as i64)
        } else {
            None
        }
    } else if code == "  and rax, rdi\n"@ {
        Some(a & b)
    } else if code == "  or rax, rdi\n"@ {
        Some(a | b)
    } else if code == "  xor rax, rdi\n"@ {
        Some(a ^ b)
    } else {
        None
    }
}

proof fn lemma_arithmetic_texts()
    ensures
        "  sub rax, rdi\n"@ != "  add rax, rdi\n"@,
        "  imul rax, rdi\n"@ != "  add rax, rdi\n"@ && "  imul rax, rdi\n"@ != "  sub rax, rdi\n"@,
        "  cqo\n  idiv rdi\n"@ != "  add rax, rdi\n"@ && "  cqo\n  idiv rdi\n"@ != "  sub rax, rdi\n"@
            && "  cqo\n  idiv rdi\n"@ != "  imul rax, rdi\n"@,
        "  and rax, rdi\n"@ != "  add rax, rdi\n"@ && "  and rax, rdi\n"@ != "  sub rax, rdi\n"@
            && "  and rax, rdi\n"@ != "  imul rax, rdi\n"@ && "  and rax, rdi\n"@ != "  cqo\n  idiv rdi\n"@,
        "  or rax, rdi\n"@ != "  add rax, rdi\n"@ && "  or rax, rdi\n"@ != "  sub rax, rdi\n"@
            && "  or rax, rdi\n"@ != "  imul rax, rdi\n"@ && "  or rax, rdi\n"@ != "  cqo\n  idiv rdi\n"@
            && "  or rax, rdi\n"@ != "  and rax, rdi\n"@,
        "  xor rax, rdi\n"@ != "  add rax, rdi\n"@ && "  xor rax, rdi\n"@ != "  sub rax, rdi\n"@
            && "  xor rax, rdi\n"@ != "  imul rax, rdi\n"@ && "  xor rax, rdi\n"@ != "  cqo\n  idiv rdi\n"@
            && "  xor rax, rdi\n"@ != "  and rax, rdi\n"@ && "  xor rax, rdi\n"@ != "  or rax, rdi\n"@,
{
    reveal_strlit("  add rax, rdi\n");
    reveal_strlit("  sub rax, rdi\n");
    reveal_strlit("  imul rax, rdi\n");
    reveal_strlit("  cqo\n  idiv rdi\n");
    reveal_strlit("  and rax, rdi\n");
    reveal_strlit("  or rax, rdi\n");
    reveal_strlit("  xor rax, rdi\n");
    assert("  add rax, rdi\n"@[2] == 'a' && "  add rax, rdi\n"@[3] == 'd');
    assert("  sub rax, rdi\n"@[2] == 's');
    assert("  imul rax, rdi\n"@[2] == 'i');
    assert("  cqo\n  idiv rdi\n"@[2] == 'c');
    assert("  and rax, rdi\n"@[2] == 'a' && "  and rax, rdi\n"@[3] == 'n');
    assert("  or rax, rdi\n"@[2] == 'o');
    assert("  xor rax, rdi\n"@[2] == 'x');
}

/// The code emitted for an arithmetic or bitwise operator computes what
/// folding the operator computes: where the folder gives a value, the
/// machine code leaves that value in `rax`, so a constant folded at
/// compile time and one computed at run time agree.
pub proof fn lemma_arithmetic_code_computes_operator(operator: BinaryOperator, ty: IrType, left: i64, right: i64)
    requires
        !is_comparison_operator(operator),
        !(operator is ShiftLeft || operator is ShiftRight),
    ensures
        x86_arithmetic(binary_text(operator, ty), left, right) == constant_value(operator, left, right),
{
    lemma_arithmetic_texts();
}

} // verus!
