use k_compiler::codegen::{emit, emit_for_target, emit_typed_for_target};
use k_compiler::ir::{BasicBlock, Instruction, IrFunction, IrType, Local, TypedProgram};
use k_compiler::parser::parse;
use k_compiler::target::Target;

#[test]
fn emits_from_ir_for_arithmetic_and_return() {
    let program = parse("int main() { let answer = 40 + 2; return answer; }").unwrap();
    let assembly = emit(&program).unwrap();
    assert!(assembly.contains("push 42"));
    assert!(assembly.contains("mov QWORD PTR [rbp-8], rax"));
}

#[test]
fn emits_ir_control_flow_and_memory() {
    let program =
        parse("int read(int* ptr) { while (true) { ptr[1] = 7; return *ptr; } return 0; }")
            .unwrap();
    let assembly = emit(&program).unwrap();
    assert!(assembly.contains("imul rax, 8"));
    assert!(assembly.contains("mov QWORD PTR [rdi], rax"));
    assert!(assembly.contains("jmp .Lblock_"));
}

#[test]
fn emits_string_data_and_byte_pointer_indexing() {
    let program = parse("char* text() { return \"hi\"; }").unwrap();
    let assembly = emit(&program).unwrap();
    assert!(assembly.contains(".section .rodata"));
    assert!(assembly.contains(".byte 104, 105, 0"));
    assert!(assembly.contains("lea rax, .Lstring_"));
}

#[test]
fn emits_linux_start_wrapper_for_main() {
    let program = parse("int main() { return 0; }").unwrap();
    let assembly = emit(&program).unwrap();
    assert!(assembly.contains(".globl _start"));
    assert!(assembly.contains("call main"));
    assert!(assembly.contains("mov rax, 60"));
}

#[test]
fn scales_char_pointers_by_one() {
    let program = parse("char read(char* ptr) { return ptr[1]; }").unwrap();
    let assembly = emit(&program).unwrap();
    assert!(assembly.contains("imul rax, 1"));
}

#[test]
fn emits_struct_field_offsets_for_reads_and_writes() {
    let program = parse(
        "struct Token { int kind; int start; } int read(struct Token* token) { token.start = 42; return token.start; }",
    )
    .unwrap();
    let assembly = emit(&program).unwrap();
    assert!(assembly.contains("add rax, 8"));
    assert!(assembly.contains("mov QWORD PTR [rdi], rax"));
}

#[test]
fn emits_fixed_width_local_accesses() {
    let program = parse("u8 read(u8 value) { let copy = value; return copy; }").unwrap();
    let assembly = emit(&program).unwrap();
    assert!(assembly.contains("movzx eax, BYTE PTR [rbp-16]"));
    assert!(assembly.contains("mov BYTE PTR [rbp-8], al"));
}

#[test]
fn emits_fixed_width_pointer_accesses() {
    let program = parse("u16 read(u16* ptr) { return ptr[1]; }").unwrap();
    let assembly = emit(&program).unwrap();
    assert!(assembly.contains("imul rax, 2"));
    assert!(assembly.contains("movzx eax, WORD PTR [rax]"));
}

#[test]
fn reserves_the_complete_size_of_local_structs() {
    let program = parse(
        "struct Token { char kind; int start; int end; } int main() { struct Token token; return 0; }",
    )
    .unwrap();
    let assembly = emit(&program).unwrap();
    assert!(assembly.contains("sub rsp, 17"));
}

#[test]
fn kernel_intrinsics_lower_to_machine_instructions_on_krumpyos() {
    let program = parse("void idle() { cli(); outb((u16)1016, (u8)65); hlt(); }").unwrap();
    let assembly = emit_for_target(&program, Target::X86_64KrumpyOs).unwrap();
    assert!(assembly.contains("  cli\n"));
    assert!(assembly.contains("  out dx, al\n"));
    assert!(assembly.contains("  hlt\n"));
    assert!(!assembly.contains("call cli"));
    assert!(!assembly.contains(".globl _start"));
}

#[test]
fn kernel_intrinsics_are_rejected_on_hosted_targets() {
    let program = parse("void idle() { hlt(); }").unwrap();
    let error = emit(&program).unwrap_err();
    assert_eq!(
        error.message,
        "intrinsic `hlt` is only available on the x86_64-krumpyos target"
    );
    assert_eq!(
        error.to_string(),
        "code generation error: intrinsic `hlt` is only available on the x86_64-krumpyos target"
    );
}

#[test]
fn print_writes_with_a_system_call_on_linux_only() {
    let program = parse("void main() { print(\"Hi\"); }").unwrap();
    let assembly = emit(&program).unwrap();
    assert!(assembly.contains(".byte 72, 105\n"));
    assert!(assembly.contains("  mov rdx, 2\n  syscall\n"));
    let error = emit_for_target(&program, Target::X86_64KrumpyOs).unwrap_err();
    assert_eq!(error.message, "print is only available on the Linux System V target");
}

#[test]
fn narrowing_casts_truncate_and_widening_casts_are_free() {
    let program = parse("u8 narrow(u64 value) { return (u8)value; }").unwrap();
    let assembly = emit(&program).unwrap();
    assert!(assembly.contains("  pop rax\n  movzx eax, al\n  push rax\n"));
    let program = parse("u64 widen(u8 value) { return (u64)value; }").unwrap();
    let assembly = emit(&program).unwrap();
    assert!(!assembly.contains("movzx eax, al\n  push rax"));
}

#[test]
fn volatile_accesses_are_marked_in_the_assembly() {
    let program = parse("void poke(volatile u16* port) { *port = (u16)1; }").unwrap();
    let assembly = emit(&program).unwrap();
    assert!(assembly.contains("  ; volatile store\n  pop rax\n  pop rdi\n  mov WORD PTR [rdi], ax\n"));
}

#[test]
fn emits_the_exact_text_of_a_small_function() {
    let program = TypedProgram {
        functions: vec![IrFunction {
            name: "seven".to_string(),
            return_type: IrType::Int,
            parameters: vec![],
            locals: vec![Local { name: "x".to_string(), ty: IrType::Int }],
            blocks: vec![BasicBlock {
                id: 0,
                instructions: vec![
                    Instruction::Constant(7),
                    Instruction::StoreLocal { name: "x".to_string(), ty: IrType::Int },
                    Instruction::LoadLocal { name: "x".to_string(), ty: IrType::Int },
                    Instruction::Return { has_value: true },
                ],
            }],
        }],
        structs: vec![],
    };
    let assembly = emit_typed_for_target(&program, Target::X86_64KrumpyOs).unwrap();
    assert_eq!(
        assembly,
        ".intel_syntax noprefix\n.text\n.globl seven\n.type seven, @function\nseven:\n  push rbp\n  mov rbp, rsp\n  sub rsp, 8\n  push 7\n  pop rax\n  mov QWORD PTR [rbp-8], rax\n  mov rax, QWORD PTR [rbp-8]\n  push rax\n  pop rax\n  jmp .Lreturn_0\n  mov rax, 0\n.Lreturn_0:\n  leave\n  ret\n\n"
    );
}

#[test]
fn rejects_unknown_locals_blocks_and_long_calls() {
    let function = |instructions: Vec<Instruction>| TypedProgram {
        functions: vec![IrFunction {
            name: "f".to_string(),
            return_type: IrType::Int,
            parameters: vec![],
            locals: vec![],
            blocks: vec![BasicBlock { id: 0, instructions }],
        }],
        structs: vec![],
    };
    let unknown = function(vec![Instruction::LoadLocal { name: "x".to_string(), ty: IrType::Int }]);
    assert_eq!(emit_typed_for_target(&unknown, Target::X86_64SystemV).unwrap_err().message, "unknown local");
    let jump = function(vec![Instruction::Jump { target: 3 }]);
    assert_eq!(emit_typed_for_target(&jump, Target::X86_64SystemV).unwrap_err().message, "unknown block");
    let call = function(vec![Instruction::Call { name: "g".to_string(), arguments: 7, ty: IrType::Int }]);
    assert_eq!(
        emit_typed_for_target(&call, Target::X86_64SystemV).unwrap_err().message,
        "calls with more than six arguments are not supported"
    );
}

#[test]
fn rejects_more_than_six_parameters() {
    let program = parse("int f(int a, int b, int c, int d, int e, int g, int h) { return a; }").unwrap();
    assert_eq!(emit(&program).unwrap_err().message, "more than six parameters are not supported");
}

#[test]
fn shifts_follow_the_signedness_of_the_left_operand() {
    let program = parse("int f(int a, u64 b) { let x = a >> 1; let y = b >> (u64)1; return x; }").unwrap();
    let assembly = emit(&program).unwrap();
    assert!(assembly.contains("  mov rcx, rdi\n  sar rax, cl\n"));
    assert!(assembly.contains("  mov rcx, rdi\n  shr rax, cl\n"));
}

#[test]
fn labels_of_one_emission_are_distinct() {
    let program = parse(
        "int main(int n) { while (n > 0) { if (n == 2) { print(\"a\"); } n = n - 1; } if (n == 0) { return 1; } return 0; }",
    )
    .unwrap();
    let assembly = emit(&program).unwrap();
    let labels: Vec<&str> = assembly.lines().filter(|line| line.starts_with(".L") && line.ends_with(':')).collect();
    assert!(labels.len() > 3);
    for (i, a) in labels.iter().enumerate() {
        for b in &labels[i + 1..] {
            assert_ne!(a, b);
        }
    }
}
