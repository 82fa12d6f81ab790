use k_compiler::ast::{BinaryOperator, UnaryOperator};
use k_compiler::fold::fold_arithmetic_exec;
use k_compiler::ir::{BasicBlock, Instruction, IrFunction, IrType};
use k_compiler::optimize::{constant_binary, fold_instruction_constants, optimize_function, prune_unreachable_blocks};

fn binary(operator: BinaryOperator) -> Instruction {
    Instruction::Binary { operator, ty: IrType::Int }
}

fn function(blocks: Vec<BasicBlock>) -> IrFunction {
    IrFunction {
        name: "f".to_string(),
        return_type: IrType::Int,
        parameters: vec![],
        locals: vec![],
        blocks,
    }
}

#[test]
fn folds_chains_of_constant_arithmetic() {
    let mut instructions = vec![
        Instruction::Constant(2),
        Instruction::Constant(3),
        Instruction::Constant(4),
        binary(BinaryOperator::Multiply),
        binary(BinaryOperator::Add),
        Instruction::Return { has_value: true },
    ];
    fold_instruction_constants(&mut instructions);
    assert_eq!(
        instructions,
        vec![Instruction::Constant(14), Instruction::Return { has_value: true }]
    );
}

#[test]
fn leaves_division_by_zero_and_shifts_to_run_time() {
    let mut instructions = vec![
        Instruction::Constant(1),
        Instruction::Constant(0),
        binary(BinaryOperator::Divide),
    ];
    fold_instruction_constants(&mut instructions);
    assert_eq!(instructions.len(), 3);
    let mut shifts = vec![
        Instruction::Constant(1),
        Instruction::Constant(4),
        binary(BinaryOperator::ShiftLeft),
    ];
    fold_instruction_constants(&mut shifts);
    assert_eq!(shifts.len(), 3);
}

#[test]
fn constant_operators_follow_machine_arithmetic() {
    assert_eq!(constant_binary(BinaryOperator::Add, i64::MAX, 1), Some(i64::MIN));
    assert_eq!(constant_binary(BinaryOperator::Divide, -7, 2), Some(-3));
    assert_eq!(constant_binary(BinaryOperator::Divide, i64::MIN, -1), None);
    assert_eq!(constant_binary(BinaryOperator::Less, 1, 2), Some(1));
    assert_eq!(constant_binary(BinaryOperator::GreaterEqual, 1, 2), Some(0));
    assert_eq!(constant_binary(BinaryOperator::BitwiseXor, 6, 3), Some(5));
    assert_eq!(constant_binary(BinaryOperator::ShiftRight, 8, 1), None);
    assert_eq!(fold_arithmetic_exec(BinaryOperator::Multiply, 6, 7), Some(42));
}

#[test]
fn folding_keeps_volatile_accesses_in_order() {
    let load = Instruction::Load { ty: IrType::U16, volatile: true };
    let store = Instruction::Store { ty: IrType::U16, volatile: true };
    let mut instructions = vec![
        Instruction::Constant(10),
        Instruction::Constant(20),
        binary(BinaryOperator::Add),
        Instruction::Unary { operator: UnaryOperator::Dereference, ty: IrType::U16, volatile: true },
        load,
        Instruction::Constant(3),
        Instruction::Constant(4),
        binary(BinaryOperator::Add),
        store,
    ];
    fold_instruction_constants(&mut instructions);
    let volatile: Vec<&Instruction> = instructions
        .iter()
        .filter(|instruction| {
            matches!(
                instruction,
                Instruction::Load { volatile: true, .. }
                    | Instruction::Store { volatile: true, .. }
                    | Instruction::Unary { volatile: true, .. }
            )
        })
        .collect();
    assert_eq!(volatile.len(), 3);
    assert!(matches!(volatile[0], Instruction::Unary { .. }));
    assert!(matches!(volatile[1], Instruction::Load { .. }));
    assert!(matches!(volatile[2], Instruction::Store { .. }));
    assert!(!instructions.contains(&Instruction::Constant(10)));
    assert!(instructions.contains(&Instruction::Constant(30)));
    assert!(instructions.contains(&Instruction::Constant(7)));
}

#[test]
fn pruning_drops_unreachable_blocks_and_renumbers_targets() {
    let mut f = function(vec![
        BasicBlock { id: 0, instructions: vec![Instruction::Jump { target: 2 }] },
        BasicBlock { id: 1, instructions: vec![Instruction::Return { has_value: false }] },
        BasicBlock {
            id: 2,
            instructions: vec![Instruction::Constant(1), Instruction::Branch { then_block: 0, else_block: 3 }],
        },
        BasicBlock { id: 3, instructions: vec![Instruction::Constant(2)] },
        BasicBlock { id: 4, instructions: vec![Instruction::Return { has_value: true }] },
    ]);
    prune_unreachable_blocks(&mut f);
    let ids: Vec<usize> = f.blocks.iter().map(|b| b.id).collect();
    assert_eq!(ids, vec![0, 1, 2, 3]);
    assert_eq!(f.blocks[0].instructions, vec![Instruction::Jump { target: 1 }]);
    assert_eq!(
        f.blocks[1].instructions,
        vec![Instruction::Constant(1), Instruction::Branch { then_block: 0, else_block: 2 }]
    );
    assert_eq!(f.blocks[2].instructions, vec![Instruction::Constant(2)]);
    assert_eq!(f.blocks[3].instructions, vec![Instruction::Return { has_value: true }]);
}

#[test]
fn empty_blocks_fall_through_to_the_next_block() {
    let mut f = function(vec![
        BasicBlock { id: 0, instructions: vec![] },
        BasicBlock { id: 1, instructions: vec![Instruction::Return { has_value: false }] },
        BasicBlock { id: 2, instructions: vec![Instruction::Return { has_value: false }] },
    ]);
    prune_unreachable_blocks(&mut f);
    let ids: Vec<usize> = f.blocks.iter().map(|b| b.id).collect();
    assert_eq!(ids, vec![0, 1]);
    assert_eq!(f.blocks[0].instructions, vec![]);
    assert_eq!(f.blocks[1].instructions, vec![Instruction::Return { has_value: false }]);
}

#[test]
fn optimizing_folds_then_prunes() {
    let mut f = function(vec![
        BasicBlock {
            id: 0,
            instructions: vec![
                Instruction::Constant(6),
                Instruction::Constant(7),
                binary(BinaryOperator::Multiply),
                Instruction::Return { has_value: true },
            ],
        },
        BasicBlock { id: 1, instructions: vec![Instruction::Pop] },
    ]);
    optimize_function(&mut f);
    assert_eq!(f.blocks.len(), 1);
    assert_eq!(
        f.blocks[0].instructions,
        vec![Instruction::Constant(42), Instruction::Return { has_value: true }]
    );
}

fn unfolded_code() -> Vec<Instruction> {
    vec![
        Instruction::Constant(2),
        Instruction::Constant(3),
        Instruction::Constant(4),
        binary(BinaryOperator::Multiply),
        binary(BinaryOperator::Add),
        Instruction::Constant(1),
        Instruction::Constant(0),
        binary(BinaryOperator::Divide),
        Instruction::Return { has_value: true },
    ]
}

fn folded_code() -> Vec<Instruction> {
    vec![
        Instruction::Constant(14),
        Instruction::Constant(1),
        Instruction::Constant(0),
        binary(BinaryOperator::Divide),
        Instruction::Return { has_value: true },
    ]
}

fn stack_effect(code: &[Instruction]) -> i64 {
    code.iter()
        .map(|instruction| match instruction {
            Instruction::Constant(_) => 1,
            Instruction::Binary { .. } => -1,
            Instruction::Return { has_value: true } => -1,
            _ => 0,
        })
        .sum()
}

#[test]
fn folding_twice_folds_no_more_and_keeps_the_stack_effect() {
    let mut once = unfolded_code();
    fold_instruction_constants(&mut once);
    assert_eq!(once, folded_code());
    let mut twice = folded_code();
    fold_instruction_constants(&mut twice);
    assert_eq!(twice, folded_code());
    assert_eq!(stack_effect(&once), stack_effect(&unfolded_code()));
}

#[test]
fn folded_code_leaves_only_unfoldable_operations_after_constants() {
    let mut code = unfolded_code();
    fold_instruction_constants(&mut code);
    for index in 2..code.len() {
        if let (Instruction::Constant(left), Instruction::Constant(right), Instruction::Binary { operator, .. }) =
            (&code[index - 2], &code[index - 1], &code[index])
        {
            assert_eq!(constant_binary(*operator, *left, *right), None);
        }
    }
}
