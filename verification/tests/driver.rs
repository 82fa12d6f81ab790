use k_compiler::driver::{combine_programs, compile_source, compile_source_for_target, compile_sources, CompileError};
use k_compiler::parser::parse;
use k_compiler::target::Target;

#[test]
fn compiles_source_without_filesystem_access() {
    let assembly = compile_source("int main() { return 42; }").unwrap();
    assert!(assembly.contains(".globl main"));
}

#[test]
fn compiles_arithmetic_program_through_the_complete_pipeline() {
    let source = "int main() { let answer = 20 + 22; return answer; }";
    let assembly = compile_source_for_target(source, Target::X86_64KrumpyOs).unwrap();

    let constant = assembly
        .find("  push 42\n")
        .expect("constant folding should emit the arithmetic result");
    let store = assembly
        .find("  mov QWORD PTR [rbp-8], rax\n")
        .expect("the let binding should store its value");
    let load = assembly
        .find("  mov rax, QWORD PTR [rbp-8]\n")
        .expect("the return should load the local value");
    let return_value = assembly[load..]
        .find("  pop rax\n")
        .map(|offset| load + offset)
        .expect("the return should consume the stack value");

    assert!(constant < store);
    assert!(store < load);
    assert!(load < return_value);
    assert!(!assembly.contains(".globl _start"));
}

#[test]
fn returns_structured_diagnostics() {
    let error = compile_source("int main() { return missing; }").unwrap_err();
    assert!(matches!(error, CompileError::Semantic(_)));
    assert!(error.to_string().contains("undefined name"));
}

#[test]
fn rejects_unimplemented_targets_before_codegen() {
    let error = compile_source_for_target("int main() { return 0; }", Target::Aarch64KrumpyOs)
        .unwrap_err();
    assert!(matches!(
        error,
        CompileError::UnsupportedTarget(Target::Aarch64KrumpyOs)
    ));
}

#[test]
fn compiles_multi_file_program_reproducibly() {
    let file1 = "struct Point { int x; int y; } extern int get_y(struct Point* p); int get_x(struct Point* p) { return p.x; }";
    let file2 = "struct Point { int x; int y; } int get_y(struct Point* p) { return p.y; } int main() { struct Point pt; pt.x = 10; pt.y = 20; return get_x(&pt) + get_y(&pt); }";
    let assembly = compile_sources(&[file1, file2]).expect("multi-file compilation should succeed");
    assert!(assembly.contains(".globl get_x"));
    assert!(assembly.contains(".globl get_y"));
    assert!(assembly.contains(".globl main"));
}

#[test]
fn unsupported_targets_are_refused_even_for_broken_sources() {
    let error = compile_source_for_target("this is not K", Target::Aarch64KrumpyOs).unwrap_err();
    assert_eq!(error, CompileError::UnsupportedTarget(Target::Aarch64KrumpyOs));
    assert_eq!(error.to_string(), "target `aarch64-krumpyos` is not implemented");
}

#[test]
fn parse_errors_are_reported_as_such() {
    let error = compile_source("int main() { return 1 }").unwrap_err();
    assert!(matches!(error, CompileError::Parse(_)));
    assert!(error.to_string().contains("expected ;"));
}

#[test]
fn combining_nothing_gives_an_empty_unit() {
    let combined = combine_programs(&[]).unwrap();
    assert!(combined.structs.is_empty());
    assert!(combined.functions.is_empty());
    assert!(combined.extern_functions.is_empty());
    assert_eq!(combined.span.start, 0);
    assert_eq!(combined.span.end, 0);
}

#[test]
fn combining_one_program_copies_it() {
    let program = parse("struct A { int x; } int f() { return 1; } int f() { return 2; }").unwrap();
    let combined = combine_programs(&[program.clone()]).unwrap();
    assert_eq!(combined, program);
}

#[test]
fn combining_reports_a_struct_defined_twice() {
    let first = parse("struct A { int x; } int f() { return 1; }").unwrap();
    let second = parse("struct A { int y; } int g() { return 2; }").unwrap();
    let error = combine_programs(&[first, second.clone()]).unwrap_err();
    let CompileError::Semantic(errors) = error else {
        panic!("expected a semantic error");
    };
    assert_eq!(errors.len(), 1);
    assert_eq!(errors[0].span, second.structs[0].span);
    assert_eq!(errors[0].message, "duplicate struct `A` in multi-file compilation");
}

#[test]
fn combining_keeps_one_copy_of_a_struct_declared_alike() {
    let first = parse("struct A { int x; char* name; }").unwrap();
    let second = parse("struct A { int x; char* name; } struct B { int y; }").unwrap();
    let combined = combine_programs(&[first, second]).unwrap();
    let names: Vec<&str> = combined.structs.iter().map(|s| s.name.as_str()).collect();
    assert_eq!(names, vec!["A", "B"]);
}

#[test]
fn combining_reports_a_function_defined_twice() {
    let first = parse("int f() { return 1; }").unwrap();
    let second = parse("int f() { return 2; }").unwrap();
    let error = combine_programs(&[first, second]).unwrap_err();
    assert_eq!(
        error.to_string(),
        "type error at 0..21: duplicate function `f` in multi-file compilation"
    );
}

#[test]
fn combining_keeps_one_extern_per_name_and_drops_defined_ones() {
    let first = parse("extern int g(); extern int h(); int f() { return g(); }").unwrap();
    let second = parse("extern int g(); int h() { return 1; }").unwrap();
    let combined = combine_programs(&[first.clone(), second.clone()]).unwrap();
    let externs: Vec<&str> = combined.extern_functions.iter().map(|e| e.name.as_str()).collect();
    assert_eq!(externs, vec!["g"]);
    let functions: Vec<&str> = combined.functions.iter().map(|f| f.name.as_str()).collect();
    assert_eq!(functions, vec!["f", "h"]);
    assert_eq!(combined.span.start, first.span.start);
    assert_eq!(combined.span.end, second.span.end);
}
