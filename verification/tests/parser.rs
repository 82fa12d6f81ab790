use k_compiler::ast::{BinaryOperator, Expression, Statement, Type, UnaryOperator};
use k_compiler::parser::parse;

#[test]
fn parses_function_and_expression_precedence() {
    let program = parse("int main() { let answer = 2 + 3 * 4; return answer; }").unwrap();
    assert_eq!(program.functions.len(), 1);
    let function = &program.functions[0];
    assert_eq!(function.name, "main");
    assert_eq!(function.return_type, Type::Int);
    let Statement::Let { value, .. } = &function.body.statements[0] else {
        panic!("expected let statement");
    };
    let Expression::Binary {
        operator, right, ..
    } = value
    else {
        panic!("expected addition");
    };
    assert_eq!(*operator, BinaryOperator::Add);
    assert!(matches!(
        right.as_ref(),
        Expression::Binary {
            operator: BinaryOperator::Multiply,
            ..
        }
    ));
}

#[test]
fn reports_missing_semicolon_at_the_stopping_span() {
    let error = parse("int main() { return 1 }").unwrap_err();
    assert!(error.message.contains("expected ;"));
    assert_eq!(error.span.start, 22);
}

#[test]
fn parses_assignment_and_character_values() {
    let program = parse("char main() { let value = 'K'; value = 'L'; return value; }").unwrap();
    assert!(matches!(program.functions[0].body.statements[1], Statement::Assign { .. }));
    assert!(matches!(
        program.functions[0].body.statements[0],
        Statement::Let {
            value: Expression::Character { value: b'K', .. },
            ..
        }
    ));
}

#[test]
fn parses_pointer_types_and_indexing() {
    let program = parse("int read(int* ptr) { return ptr[1]; }").unwrap();
    assert!(matches!(program.functions[0].parameters[0].ty, Type::Pointer(..)));
    assert!(matches!(
        program.functions[0].body.statements[0],
        Statement::Return {
            value: Some(Expression::Index { .. }),
            ..
        }
    ));
}

#[test]
fn parses_void_functions_and_strings() {
    let program = parse("void print() { return; } char* text() { return \"hi\"; }").unwrap();
    assert_eq!(program.functions[0].return_type, Type::Void);
    assert!(matches!(
        program.functions[1].body.statements[0],
        Statement::Return {
            value: Some(Expression::String { .. }),
            ..
        }
    ));
}

#[test]
fn parses_structs_and_field_access() {
    let program = parse(
        "struct Token { int kind; int start; } int read(struct Token* token) { return token.kind; }",
    )
    .unwrap();
    assert_eq!(program.structs[0].name, "Token");
    assert_eq!(program.structs[0].fields.len(), 2);
    assert!(matches!(
        program.functions[0].body.statements[0],
        Statement::Return {
            value: Some(Expression::Field { .. }),
            ..
        }
    ));
}

#[test]
fn parses_casts_volatile_pointers_and_externs() {
    let program = parse(
        "extern void halt(); void poke(volatile u16* port) { *port = (u16)1; }",
    )
    .unwrap();
    assert_eq!(program.extern_functions.len(), 1);
    assert_eq!(program.extern_functions[0].name, "halt");
    assert_eq!(
        program.functions[0].parameters[0].ty,
        Type::Pointer(Box::new(Type::U16), true)
    );
    let Statement::Assign { target, value, .. } = &program.functions[0].body.statements[0] else {
        panic!("expected assignment");
    };
    assert!(matches!(
        target,
        Expression::Unary {
            operator: UnaryOperator::Dereference,
            ..
        }
    ));
    assert!(matches!(value, Expression::Cast { ty: Type::U16, .. }));
}

#[test]
fn bitwise_operators_bind_below_comparisons() {
    let program = parse("int f(int a) { return a & 1 == 1; }").unwrap();
    let Statement::Return { value: Some(value), .. } = &program.functions[0].body.statements[0] else {
        panic!("expected return");
    };
    assert!(matches!(
        value,
        Expression::Binary {
            operator: BinaryOperator::BitwiseAnd,
            ..
        }
    ));
}

#[test]
fn parse_reports_lexical_errors() {
    let error = parse("int main() { return @; }").unwrap_err();
    assert_eq!(error.span.start, 20);
    assert!(error.to_string().starts_with("parse error at 20..21"));
}

#[test]
fn binary_operators_group_to_the_left_within_a_precedence() {
    let program = parse("int main() { return 10 - 4 - 3; }").unwrap();
    let Statement::Return { value: Some(value), .. } = &program.functions[0].body.statements[0] else {
        panic!("expected return");
    };
    let Expression::Binary { left, operator, right, .. } = value else {
        panic!("expected subtraction");
    };
    assert_eq!(*operator, BinaryOperator::Subtract);
    assert!(matches!(right.as_ref(), Expression::Integer { value, .. } if value == "3"));
    assert!(matches!(
        left.as_ref(),
        Expression::Binary { operator: BinaryOperator::Subtract, .. }
    ));
}

#[test]
fn postfix_operators_bind_tighter_than_prefix_ones() {
    let program = parse("int main() { return -a[1]; }").unwrap();
    let Statement::Return { value: Some(value), .. } = &program.functions[0].body.statements[0] else {
        panic!("expected return");
    };
    let Expression::Unary { operator, operand, .. } = value else {
        panic!("expected negation");
    };
    assert_eq!(*operator, UnaryOperator::Negate);
    assert!(matches!(operand.as_ref(), Expression::Index { .. }));
}

#[test]
fn program_span_runs_from_the_first_token_to_the_end() {
    let program = parse("  int main() { return 0; }  ").unwrap();
    assert_eq!(program.span.start, 2);
    assert_eq!(program.span.end, 28);
}

#[test]
fn a_source_reads_as_one_program() {
    let source = "struct P { int x; } extern int put(int c); int main() { return put(1 + 2 * 3); }";
    assert_eq!(parse(source).unwrap(), parse(source).unwrap());
}

#[test]
fn sources_that_read_as_no_program_are_refused_at_a_token() {
    let error = parse("int main() { return 1 + ; }").unwrap_err();
    assert_eq!((error.span.start, error.span.end), (26, 27));
    assert!(error.message.starts_with("expected expression"));
}

#[test]
fn syntax_errors_name_the_expected_and_the_found_token() {
    let error = parse("int main() { return 1 }").unwrap_err();
    assert_eq!(error.message, "expected ;, found }");
    assert_eq!((error.span.start, error.span.end), (22, 23));

    let error = parse("struct S { int x }").unwrap_err();
    assert_eq!(error.message, "expected ;, found }");
    assert_eq!((error.span.start, error.span.end), (17, 18));

    let error = parse("int main() { let 5 = 1; }").unwrap_err();
    assert_eq!(error.message, "expected variable name, found integer(5)");
    assert_eq!((error.span.start, error.span.end), (19, 20));

    let error = parse("int main() { return (1; }").unwrap_err();
    assert_eq!(error.message, "expected ), found ;");
    assert_eq!((error.span.start, error.span.end), (22, 23));

    let error = parse("int main() { return ; ").unwrap_err();
    assert_eq!(error.message, "expected }, found eof");
}
