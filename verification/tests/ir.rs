use k_compiler::ast::BinaryOperator;
use k_compiler::ir::{lower, Instruction, IrType};
use k_compiler::parser::parse;

#[test]
fn lowers_expressions_to_explicit_instructions() {
    let program = parse("int main() { let value = 2 + 3; return value; }").unwrap();
    let ir = lower(&program).unwrap();
    let instructions = &ir.function("main").unwrap().blocks[0].instructions;
    assert!(instructions
        .iter()
        .any(|instruction| matches!(instruction, Instruction::Constant(5))));
    assert_eq!(ir.function("main").unwrap().locals[0].ty, IrType::Int);
}

#[test]
fn folds_ir_constants_after_lowering() {
    let program = parse("int main() { return 2 + 3 * 4; }").unwrap();
    let ir = lower(&program).unwrap();
    let instructions = &ir.function("main").unwrap().blocks[0].instructions;
    assert!(instructions.iter().any(|instruction| matches!(
        instruction,
        Instruction::Constant(14)
    )));
    assert!(!instructions.iter().any(|instruction| matches!(
        instruction,
        Instruction::Binary {
            operator: BinaryOperator::Multiply,
            ..
        }
    )));
}

#[test]
fn lowered_functions_come_in_order_of_name() {
    let program = parse("int zeta() { return 1; } int alpha() { return 2; } int main() { return 0; }").unwrap();
    let ir = lower(&program).unwrap();
    let names: Vec<&str> = ir.functions.iter().map(|f| f.name.as_str()).collect();
    assert_eq!(names, vec!["alpha", "main", "zeta"]);
    assert!(ir.function("missing").is_none());
}

#[test]
fn struct_layouts_pack_fields_in_order() {
    let program = parse("struct Pair { char tag; u16 half; int word; } int main() { return 0; }").unwrap();
    let ir = lower(&program).unwrap();
    let layout = &ir.structs[0];
    assert_eq!(layout.name, "Pair");
    let offsets: Vec<i64> = layout.fields.iter().map(|field| field.offset).collect();
    assert_eq!(offsets, vec![0, 1, 3]);
    assert_eq!(layout.size, 11);
}

#[test]
fn volatile_accesses_are_tagged() {
    let program = parse("u16 peek(volatile u16* port) { *port = (u16)2; return port[1]; }").unwrap();
    let ir = lower(&program).unwrap();
    let instructions = &ir.function("peek").unwrap().blocks[0].instructions;
    assert!(instructions
        .iter()
        .any(|instruction| matches!(instruction, Instruction::Store { volatile: true, .. })));
    assert!(instructions
        .iter()
        .any(|instruction| matches!(instruction, Instruction::Load { volatile: true, .. })));
}

#[test]
fn semantic_errors_stop_lowering() {
    let program = parse("int main() { return missing; }").unwrap();
    let errors = lower(&program).unwrap_err();
    assert_eq!(errors.len(), 1);
}

#[test]
fn lowers_while_loops_into_condition_body_and_exit_blocks() {
    let program = parse("int main() { let i = 0; while (i < 10) { i = i + 1; } return i; }").unwrap();
    let ir = lower(&program).unwrap();
    let main = ir.function("main").unwrap();
    let local = |name: &str| Instruction::LoadLocal { name: name.to_string(), ty: IrType::Int };
    assert_eq!(main.blocks.len(), 4);
    for (position, block) in main.blocks.iter().enumerate() {
        assert_eq!(block.id, position);
    }
    assert_eq!(
        main.blocks[0].instructions,
        vec![
            Instruction::Constant(0),
            Instruction::StoreLocal { name: "i".to_string(), ty: IrType::Int },
            Instruction::Jump { target: 1 },
        ]
    );
    assert_eq!(
        main.blocks[1].instructions,
        vec![
            local("i"),
            Instruction::Constant(10),
            Instruction::Binary { operator: BinaryOperator::Less, ty: IrType::Int },
            Instruction::Branch { then_block: 2, else_block: 3 },
        ]
    );
    assert_eq!(
        main.blocks[2].instructions,
        vec![
            Instruction::AddressLocal {
                name: "i".to_string(),
                ty: IrType::Pointer(Box::new(IrType::Int), false),
            },
            local("i"),
            Instruction::Constant(1),
            Instruction::Binary { operator: BinaryOperator::Add, ty: IrType::Int },
            Instruction::Store { ty: IrType::Int, volatile: false },
            Instruction::Jump { target: 1 },
        ]
    );
    assert_eq!(main.blocks[3].instructions, vec![local("i"), Instruction::Return { has_value: true }]);
}

#[test]
fn lowers_if_else_into_branch_blocks_that_meet_after() {
    let program = parse("int main() { let x = 1; if (x == 1) { x = 2; } else { x = 3; } return x; }").unwrap();
    let ir = lower(&program).unwrap();
    let main = ir.function("main").unwrap();
    assert_eq!(main.blocks.len(), 4);
    assert_eq!(
        main.blocks[0].instructions.last(),
        Some(&Instruction::Branch { then_block: 1, else_block: 2 })
    );
    assert_eq!(main.blocks[1].instructions.last(), Some(&Instruction::Jump { target: 3 }));
    assert_eq!(main.blocks[2].instructions.last(), Some(&Instruction::Jump { target: 3 }));
    assert_eq!(main.blocks[3].instructions.last(), Some(&Instruction::Return { has_value: true }));
}

#[test]
fn blocks_that_cannot_run_are_pruned_and_the_rest_renumbered() {
    let program = parse("int main() { if (1 == 1) { return 1; } else { return 2; } }").unwrap();
    let ir = lower(&program).unwrap();
    let main = ir.function("main").unwrap();
    // The block after the `if` is never reached: both branches return.
    assert_eq!(main.blocks.len(), 3);
    assert_eq!(
        main.blocks[0].instructions.last(),
        Some(&Instruction::Branch { then_block: 1, else_block: 2 })
    );
    assert_eq!(main.blocks[1].instructions, vec![Instruction::Constant(1), Instruction::Return { has_value: true }]);
    assert_eq!(main.blocks[2].instructions, vec![Instruction::Constant(2), Instruction::Return { has_value: true }]);
}

#[test]
fn locals_are_parameters_then_declarations_in_order() {
    let program = parse("int f(int a, char b) { u8 c; let d = a; if (a == 1) { let e = b; } return d; }").unwrap();
    let ir = lower(&program).unwrap();
    let f = ir.function("f").unwrap();
    let names: Vec<&str> = f.locals.iter().map(|local| local.name.as_str()).collect();
    assert_eq!(names, vec!["a", "b", "c", "d", "e"]);
    let types: Vec<&IrType> = f.locals.iter().map(|local| &local.ty).collect();
    assert_eq!(types, vec![&IrType::Int, &IrType::Char, &IrType::U8, &IrType::Int, &IrType::Char]);
    assert_eq!(f.parameters, vec![IrType::Int, IrType::Char]);
}

#[test]
fn nested_struct_fields_take_the_size_of_their_layout() {
    let program = parse("struct A { int x; } struct B { struct A a; char c; } int main() { return 0; }").unwrap();
    let ir = lower(&program).unwrap();
    assert_eq!(ir.structs.len(), 2);
    assert_eq!(ir.structs[1].fields[1].offset, 8);
    assert_eq!(ir.structs[1].size, 9);
}

#[test]
fn lowered_functions_are_well_formed() {
    let program = parse(
        "int main(int n) { let total = 0; while (n > 0) { if (n == 3) { total = total + 1; } else { total = total + 2; } n = n - 1; } return total; }",
    )
    .unwrap();
    let ir = lower(&program).unwrap();
    let function = ir.function("main").unwrap();
    let count = function.blocks.len();
    assert!(count > 0);
    for (index, block) in function.blocks.iter().enumerate() {
        assert_eq!(block.id, index);
        for (position, instruction) in block.instructions.iter().enumerate() {
            match instruction {
                Instruction::Branch { then_block, else_block } => {
                    assert_eq!(position, block.instructions.len() - 1);
                    assert!(*then_block < count && *else_block < count);
                },
                Instruction::Jump { target } => {
                    assert_eq!(position, block.instructions.len() - 1);
                    assert!(*target < count);
                },
                _ => {},
            }
        }
    }
}

#[test]
fn lowered_functions_keep_names_types_and_parameters() {
    let program = parse(
        "void idle() { return; } int add(int a, char* b) { let c = a + 1; return c; }",
    )
    .unwrap();
    let ir = lower(&program).unwrap();
    let names: Vec<&str> = ir.functions.iter().map(|f| f.name.as_str()).collect();
    assert_eq!(names, vec!["add", "idle"]);
    let add = ir.function("add").unwrap();
    assert_eq!(add.parameters.len(), 2);
    assert_eq!(add.parameters[0], IrType::Int);
    assert_eq!(add.locals[0].name, "a");
    assert_eq!(add.locals[0].ty, IrType::Int);
    assert_eq!(add.locals[1].name, "b");
    assert_eq!(add.locals[2].name, "c");
    assert_eq!(add.return_type, IrType::Int);
}
