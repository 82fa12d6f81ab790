use k_compiler::ast::{BinaryOperator, Expression, Statement};
use k_compiler::fold::{fold_constants, fold_expression};
use k_compiler::parser::parse;

fn returned(source: &str) -> Expression {
    let mut program = fold_constants(&parse(source).unwrap());
    let Statement::Return { value: Some(value), .. } = program.functions.remove(0).body.statements.remove(0) else {
        panic!("expected a return");
    };
    value
}

#[test]
fn nested_constant_operations_fold_to_one_literal() {
    let value = returned("int main() { return 2 + 3 * 4; }");
    let Expression::Integer { value, span } = value else {
        panic!("expected a literal");
    };
    assert_eq!(value, "14");
    assert_eq!((span.start, span.end), (20, 29));
}

#[test]
fn a_name_keeps_its_operation_but_its_constant_operand_folds() {
    let value = returned("int f(int x) { return x + 2 * 3; }");
    let Expression::Binary { left, operator, right, .. } = value else {
        panic!("expected an addition");
    };
    assert_eq!(operator, BinaryOperator::Add);
    assert!(matches!(left.as_ref(), Expression::Name { value, .. } if value == "x"));
    assert!(matches!(right.as_ref(), Expression::Integer { value, .. } if value == "6"));
}

#[test]
fn division_by_zero_is_left_to_run_time() {
    let value = returned("int main() { return 1 / 0; }");
    assert!(matches!(value, Expression::Binary { operator: BinaryOperator::Divide, .. }));
}

#[test]
fn arithmetic_wraps_and_division_rounds_toward_zero() {
    assert!(matches!(
        returned("int main() { return 9223372036854775807 + 1; }"),
        Expression::Integer { value, .. } if value == "-9223372036854775808"
    ));
    assert!(matches!(
        returned("int main() { return 7 / 2; }"),
        Expression::Integer { value, .. } if value == "3"
    ));
}

#[test]
fn folding_an_expression_alone_gives_the_same_literal() {
    let program = parse("int main() { return (1 + 2) * (3 + 4); }").unwrap();
    let Statement::Return { value: Some(value), .. } = &program.functions[0].body.statements[0] else {
        panic!("expected a return");
    };
    assert!(matches!(fold_expression(value), Expression::Integer { value, .. } if value == "21"));
}
