use k_compiler::parser::parse;
use k_compiler::sema::check;

#[test]
fn accepts_known_names_and_matching_calls() {
    let program = parse("int add(int left, int right) { return left + right; } int main() { let value = add(2, 3); return value; }").unwrap();
    assert!(check(&program).is_ok());
}

#[test]
fn reports_undefined_names_and_bad_conditions() {
    let program = parse("int main() { if (1) { return missing; } return 0; }").unwrap();
    let errors = check(&program).unwrap_err();
    assert_eq!(errors.len(), 2);
    assert!(errors[0].message.contains("condition requires bool"));
    assert!(errors[1].message.contains("undefined name `missing`"));
}

#[test]
fn reports_call_arity_and_return_type_errors() {
    let program = parse("int get() { return true; } int main() { return get(1); }").unwrap();
    let errors = check(&program).unwrap_err();
    assert_eq!(errors.len(), 2);
    assert!(errors[0].message.contains("return value requires int"));
    assert!(errors[1].message.contains("expected 0 arguments, found 1"));
}

#[test]
fn checks_assignment_types() {
    let program = parse("int main() { let value = 1; value = true; return value; }").unwrap();
    let errors = check(&program).unwrap_err();
    assert!(errors
        .iter()
        .any(|error| error.message.contains("assignment requires int")));
}

#[test]
fn accepts_pointer_dereference_and_indexing() {
    let program = parse("int read(int* ptr) { ptr[1] = 7; return *ptr; }").unwrap();
    assert!(check(&program).is_ok());
}

#[test]
fn accepts_void_returns_and_string_pointers() {
    let program = parse("void print() { return; } char* text() { return \"hi\"; }").unwrap();
    assert!(check(&program).is_ok());
}

#[test]
fn krumpyos_intrinsics_have_expected_signatures() {
    let program = parse("void idle() { cli(); sti(); hlt(); pause(); }").unwrap();
    assert!(check(&program).is_ok());

    let program = parse("void idle() { cli(1); }").unwrap();
    let errors = check(&program).unwrap_err();
    assert!(errors[0].message.contains("expected 0 arguments, found 1"));
}

#[test]
fn rejects_value_return_from_void_function() {
    let program = parse("void bad() { return 1; }").unwrap();
    let errors = check(&program).unwrap_err();
    assert!(errors[0].message.contains("return value requires void"));
}

#[test]
fn checks_struct_fields() {
    let program = parse(
        "struct Token { int kind; } int read(struct Token* token) { return token.kind; }",
    )
    .unwrap();
    assert!(check(&program).is_ok());
    let bad = parse(
        "struct Token { int kind; } int read(struct Token* token) { return token.missing; }",
    )
    .unwrap();
    assert!(check(&bad).unwrap_err()[0]
        .message
        .contains("unknown field"));
}

#[test]
fn accepts_pointer_integer_and_pointer_pointer_casts() {
    let program = parse(
        "u32* mmio(u64 address) { return (u32*)address; } u64 addr_of(u32* ptr) { return (u64)ptr; } char* reinterpret(u32* ptr) { return (char*)ptr; } u8 truncate(u64 value) { return (u8)value; }",
    )
    .unwrap();
    assert!(check(&program).is_ok());
}

#[test]
fn rejects_casts_involving_bool_void_or_struct() {
    let bool_cast = parse("bool bad(int value) { return (bool)value; }").unwrap();
    assert!(check(&bool_cast).unwrap_err()[0]
        .message
        .contains("cannot cast int to bool"));

    let struct_cast =
        parse("struct Token { int kind; } u64 bad(struct Token token) { return (u64)token; }")
            .unwrap();
    assert!(check(&struct_cast).unwrap_err()[0]
        .message
        .contains("cannot cast struct"));
}

#[test]
fn accepts_reads_and_writes_through_volatile_pointers() {
    let program = parse(
        "void poke(volatile u16* port) { *port = (u16)1; } u16 peek(volatile u16* port) { return *port; } void poke_indexed(volatile u16* buffer, int index) { buffer[index] = (u16)1; }",
    )
    .unwrap();
    assert!(check(&program).is_ok());
}

#[test]
fn rejects_implicit_conversion_between_volatile_and_plain_pointers() {
    let program =
        parse("void take(u16* port) { return; } void call(volatile u16* port) { take(port); }")
            .unwrap();
    let errors = check(&program).unwrap_err();
    assert!(errors[0].message.contains("argument requires pointer"));
}

#[test]
fn casting_away_volatile_is_explicit() {
    let program = parse(
        "void take(u16* port) { return; } void call(volatile u16* port) { take((u16*)port); }",
    )
    .unwrap();
    assert!(check(&program).is_ok());
}

#[test]
fn accepts_valid_calls_to_extern_functions() {
    let program = parse("extern void install_idt(); extern int add(int a, int b); int main() { install_idt(); return add(1, 2); }").unwrap();
    assert!(check(&program).is_ok());
}

#[test]
fn typechecks_arguments_to_extern_functions() {
    let program = parse("extern int add(int a, int b); int main() { return add(1); }").unwrap();
    let errors = check(&program).unwrap_err();
    assert!(errors[0].message.contains("expected 2 arguments, found 1"));
}

#[test]
fn rejects_missing_return_in_non_void_function() {
    let program = parse("int foo() { let x = 1; }").unwrap();
    let errors = check(&program).unwrap_err();
    assert!(errors
        .iter()
        .any(|e| e.message.contains("missing return statement in non-void function `foo`")));
}

#[test]
fn rejects_missing_return_in_partial_branch() {
    let program = parse("int foo(bool c) { if (c) { return 1; } }").unwrap();
    let errors = check(&program).unwrap_err();
    assert!(errors
        .iter()
        .any(|e| e.message.contains("missing return statement in non-void function `foo`")));
}

#[test]
fn accepts_definite_return_in_both_branches() {
    let program = parse("int foo(bool c) { if (c) { return 1; } else { return 2; } }").unwrap();
    assert!(check(&program).is_ok());
}

#[test]
fn accepts_infinite_while_loop_without_return() {
    let program = parse("int loop() { while (true) { } }").unwrap();
    assert!(check(&program).is_ok());
}

#[test]
fn diagnostics_render_with_their_spans() {
    let program = parse("int main() { return missing; }").unwrap();
    let errors = check(&program).unwrap_err();
    assert_eq!(errors.len(), 1);
    assert_eq!(errors[0].to_string(), "type error at 20..27: undefined name `missing`");
}
