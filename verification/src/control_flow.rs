//! The shape of lowered functions: lowering gives one function for each
//! name among the program's functions, with the source function's name,
//! types and parameters, and every such function has blocks numbered in
//! order, branches and jumps only at the ends of blocks and only to blocks
//! that exist, and no block that control cannot reach from the entry.

use vstd::prelude::*;

use crate::ast::{Block, Expression, Statement};
use crate::ir::{
    BasicBlock, InstructionView, Local, StructLayout, TypedProgram, arguments_code, block_lowering,
    blocks_code, branch_lowering, closed, code_view, emitted, expression_code, function_code,
    instruction_view, lowering_of, lvalue_code, statement_lowering, with_three_blocks,
};
use crate::ir::Instruction;
use crate::optimize::{
    blocks_well_formed, fold_all, fold_step, jumps_well_placed, lemma_pruning_gives_well_formed_blocks,
};
use crate::ast::Program;

verus! {

/// An instruction that passes control to another block.
pub open spec fn is_transfer(instruction: InstructionView) -> bool {
    instruction is Branch || instruction is Jump
}

/// Code that never passes control to another block.
pub open spec fn transfer_free(code: Seq<InstructionView>) -> bool {
    forall|k: int| 0 <= k < code.len() ==> !is_transfer(#[trigger] code[k])
}

/// In the code of some blocks, each branch or jump ends its block and names
/// one of the blocks.
pub open spec fn transfers_placed(code: Seq<Seq<InstructionView>>) -> bool {
    forall|b: int, k: int|
        0 <= b < code.len() && 0 <= k < code[b].len() ==> {
            let instruction = #[trigger] code[b][k];
            &&& is_transfer(instruction) ==> k == code[b].len() - 1
            &&& (instruction matches InstructionView::Branch { then_block, else_block } ==> then_block < code.len()
                && else_block < code.len())
            &&& (instruction matches InstructionView::Jump { target } ==> target < code.len())
        }
}

proof fn lemma_concat_transfer_free(a: Seq<InstructionView>, b: Seq<InstructionView>)
    requires
        transfer_free(a),
        transfer_free(b),
    ensures
        transfer_free(a + b),
{
    assert forall|k: int| 0 <= k < (a + b).len() implies !is_transfer(#[trigger] (a + b)[k]) by {
        if k < a.len() {
            assert((a + b)[k] == a[k]);
        } else {
            assert((a + b)[k] == b[k - a.len()]);
        }
    }
}

// ---------------------------------------------------------------------------
// Expressions compute values only.

proof fn lemma_expression_code_transfer_free(
    program: Program,
    layouts: Seq<StructLayout>,
    locals: Seq<Local>,
    e: Expression,
)
    ensures
        transfer_free(expression_code(program, layouts, locals, e)),
    decreases e, 1int, 0int,
{
    let code = expression_code(program, layouts, locals, e);
    match e {
        Expression::Unary { operator, operand, .. } => {
            lemma_expression_code_transfer_free(program, layouts, locals, *operand);
            lemma_lvalue_code_transfer_free(program, layouts, locals, *operand);
            let inner = expression_code(program, layouts, locals, *operand);
            if operator != crate::ast::UnaryOperator::AddressOf {
                assert forall|k: int| 0 <= k < code.len() implies !is_transfer(#[trigger] code[k]) by {
                    if k < inner.len() {
                        assert(code[k] == inner[k]);
                    }
                }
            }
        },
        Expression::Binary { left, right, .. } => {
            lemma_expression_code_transfer_free(program, layouts, locals, *left);
            lemma_expression_code_transfer_free(program, layouts, locals, *right);
            let l = expression_code(program, layouts, locals, *left);
            let r = expression_code(program, layouts, locals, *right);
            lemma_concat_transfer_free(l, r);
            assert forall|k: int| 0 <= k < code.len() implies !is_transfer(#[trigger] code[k]) by {
                if k < l.len() + r.len() {
                    assert(code[k] == (l + r)[k]);
                }
            }
        },
        Expression::Call { callee, arguments, .. } => {
            lemma_arguments_code_transfer_free(program, layouts, locals, arguments@, arguments@.len() as int);
            let a = arguments_code(program, layouts, locals, arguments@, arguments@.len() as int);
            assert forall|k: int| 0 <= k < code.len() implies !is_transfer(#[trigger] code[k]) by {
                if k < a.len() && code.len() > 1 {
                    assert(code[k] == a[k]);
                }
            }
        },
        Expression::Index { .. } => {
            lemma_lvalue_code_transfer_free(program, layouts, locals, e);
            let inner = lvalue_code(program, layouts, locals, e);
            assert forall|k: int| 0 <= k < code.len() implies !is_transfer(#[trigger] code[k]) by {
                if k < inner.len() {
                    assert(code[k] == inner[k]);
                }
            }
        },
        Expression::Field { .. } => {
            lemma_lvalue_code_transfer_free(program, layouts, locals, e);
            let inner = lvalue_code(program, layouts, locals, e);
            assert forall|k: int| 0 <= k < code.len() implies !is_transfer(#[trigger] code[k]) by {
                if k < inner.len() {
                    assert(code[k] == inner[k]);
                }
            }
        },
        Expression::Cast { operand, .. } => {
            lemma_expression_code_transfer_free(program, layouts, locals, *operand);
            let inner = expression_code(program, layouts, locals, *operand);
            assert forall|k: int| 0 <= k < code.len() implies !is_transfer(#[trigger] code[k]) by {
                if k < inner.len() {
                    assert(code[k] == inner[k]);
                }
            }
        },
        _ => {},
    }
}

proof fn lemma_lvalue_code_transfer_free(program: Program, layouts: Seq<StructLayout>, locals: Seq<Local>, e: Expression)
    ensures
        transfer_free(lvalue_code(program, layouts, locals, e)),
    decreases e, 0int, 0int,
{
    let code = lvalue_code(program, layouts, locals, e);
    match e {
        Expression::Unary { operator, operand, .. } => {
            lemma_expression_code_transfer_free(program, layouts, locals, *operand);
        },
        Expression::Index { base, index, .. } => {
            lemma_expression_code_transfer_free(program, layouts, locals, *base);
            lemma_expression_code_transfer_free(program, layouts, locals, *index);
            let b = expression_code(program, layouts, locals, *base);
            let i = expression_code(program, layouts, locals, *index);
            lemma_concat_transfer_free(b, i);
            assert forall|k: int| 0 <= k < code.len() implies !is_transfer(#[trigger] code[k]) by {
                if k < b.len() + i.len() {
                    assert(code[k] == (b + i)[k]);
                }
            }
        },
        Expression::Field { base, .. } => {
            lemma_expression_code_transfer_free(program, layouts, locals, *base);
            lemma_lvalue_code_transfer_free(program, layouts, locals, *base);
            let b = expression_code(program, layouts, locals, *base);
            let v = lvalue_code(program, layouts, locals, *base);
            assert forall|k: int| 0 <= k < code.len() implies !is_transfer(#[trigger] code[k]) by {
                if k < b.len() && code.len() >= b.len() && code.subrange(0, b.len() as int) == b {
                    assert(code[k] == b[k]);
                } else if k < v.len() && code.len() >= v.len() && code.subrange(0, v.len() as int) == v {
                    assert(code[k] == v[k]);
                }
            }
        },
        _ => {},
    }
}

proof fn lemma_arguments_code_transfer_free(
    program: Program,
    layouts: Seq<StructLayout>,
    locals: Seq<Local>,
    arguments: Seq<Expression>,
    count: int,
)
    ensures
        transfer_free(arguments_code(program, layouts, locals, arguments, count)),
    decreases arguments, 0int, count,
{
    if 0 < count <= arguments.len() {
        lemma_arguments_code_transfer_free(program, layouts, locals, arguments, count - 1);
        lemma_expression_code_transfer_free(program, layouts, locals, arguments[count - 1]);
        lemma_concat_transfer_free(
            arguments_code(program, layouts, locals, arguments, count - 1),
            expression_code(program, layouts, locals, arguments[count - 1]),
        );
    }
}

// ---------------------------------------------------------------------------
// Lowering statements keeps branches and jumps at the ends of blocks.

/// What lowering into block `id` of `code` keeps, given the code `out` it
/// gives and the block `end` where it goes on: blocks are only added at the
/// end, the other blocks keep their code, branches and jumps stay at the
/// ends of blocks and name blocks that exist, and the block where lowering
/// goes on is `id` or a new one, with no branch or jump yet.
pub open spec fn lowering_keeps(code: Seq<Seq<InstructionView>>, id: int, out: Seq<Seq<InstructionView>>, end: int) -> bool {
    &&& out.len() >= code.len()
    &&& forall|k: int| 0 <= k < code.len() && k != id ==> #[trigger] out[k] == code[k]
    &&& transfers_placed(out)
    &&& 0 <= end < out.len()
    &&& transfer_free(out[end])
    &&& (end == id || code.len() <= end)
}

proof fn lemma_emitted(code: Seq<Seq<InstructionView>>, id: int, more: Seq<InstructionView>)
    requires
        transfers_placed(code),
        0 <= id < code.len(),
        transfer_free(code[id]),
        transfer_free(more),
    ensures
        transfers_placed(emitted(code, id, more)),
        transfer_free(emitted(code, id, more)[id]),
        emitted(code, id, more).len() == code.len(),
        forall|k: int| 0 <= k < code.len() && k != id ==> #[trigger] emitted(code, id, more)[k] == code[k],
{
    let out = emitted(code, id, more);
    lemma_concat_transfer_free(code[id], more);
    assert forall|b: int, k: int| 0 <= b < out.len() && 0 <= k < out[b].len() implies {
        let instruction = #[trigger] out[b][k];
        &&& is_transfer(instruction) ==> k == out[b].len() - 1
        &&& (instruction matches InstructionView::Branch { then_block, else_block } ==> then_block < out.len()
            && else_block < out.len())
        &&& (instruction matches InstructionView::Jump { target } ==> target < out.len())
    } by {
        if b != id {
            assert(out[b] == code[b]);
        } else {
            assert(out[b] == code[id] + more);
            assert(!is_transfer(out[b][k]));
        }
    }
}

proof fn lemma_emitted_transfer(code: Seq<Seq<InstructionView>>, id: int, instruction: InstructionView)
    requires
        transfers_placed(code),
        0 <= id < code.len(),
        transfer_free(code[id]),
        instruction matches InstructionView::Branch { then_block, else_block } ==> then_block < code.len()
            && else_block < code.len(),
        instruction matches InstructionView::Jump { target } ==> target < code.len(),
    ensures
        transfers_placed(emitted(code, id, seq![instruction])),
        emitted(code, id, seq![instruction]).len() == code.len(),
        forall|k: int| 0 <= k < code.len() && k != id ==> #[trigger] emitted(code, id, seq![instruction])[k] == code[k],
{
    let out = emitted(code, id, seq![instruction]);
    assert forall|b: int, k: int| 0 <= b < out.len() && 0 <= k < out[b].len() implies {
        let i = #[trigger] out[b][k];
        &&& is_transfer(i) ==> k == out[b].len() - 1
        &&& (i matches InstructionView::Branch { then_block, else_block } ==> then_block < out.len() && else_block
            < out.len())
        &&& (i matches InstructionView::Jump { target } ==> target < out.len())
    } by {
        if b != id {
            assert(out[b] == code[b]);
        } else {
            assert(out[b] == code[id].push(instruction));
            if k < code[id].len() {
                assert(out[b][k] == code[id][k]);
            }
        }
    }
}

proof fn lemma_three_blocks(code: Seq<Seq<InstructionView>>)
    requires
        transfers_placed(code),
    ensures
        transfers_placed(with_three_blocks(code)),
        with_three_blocks(code).len() == code.len() + 3,
        forall|k: int| 0 <= k < code.len() ==> #[trigger] with_three_blocks(code)[k] == code[k],
        with_three_blocks(code)[code.len() as int] == Seq::<InstructionView>::empty(),
        with_three_blocks(code)[code.len() as int + 1] == Seq::<InstructionView>::empty(),
        with_three_blocks(code)[code.len() as int + 2] == Seq::<InstructionView>::empty(),
{
    let out = with_three_blocks(code);
    assert forall|b: int, k: int| 0 <= b < out.len() && 0 <= k < out[b].len() implies {
        let i = #[trigger] out[b][k];
        &&& is_transfer(i) ==> k == out[b].len() - 1
        &&& (i matches InstructionView::Branch { then_block, else_block } ==> then_block < out.len() && else_block
            < out.len())
        &&& (i matches InstructionView::Jump { target } ==> target < out.len())
    } by {
        assert(b < code.len());
        assert(out[b] == code[b]);
    }
}

proof fn lemma_closed(code: Seq<Seq<InstructionView>>, at: int, target: int)
    requires
        transfers_placed(code),
        0 <= at < code.len(),
        transfer_free(code[at]),
        0 <= target < code.len(),
    ensures
        transfers_placed(closed(code, at, target)),
        closed(code, at, target).len() == code.len(),
        forall|k: int| 0 <= k < code.len() && k != at ==> #[trigger] closed(code, at, target)[k] == code[k],
{
    if !crate::ir::ends_block(code[at]) {
        lemma_emitted_transfer(code, at, InstructionView::Jump { target: target as usize });
    }
}

proof fn lemma_statement_lowering(
    program: Program,
    layouts: Seq<StructLayout>,
    locals: Seq<Local>,
    code: Seq<Seq<InstructionView>>,
    id: int,
    s: Statement,
)
    requires
        transfers_placed(code),
        0 <= id < code.len(),
        transfer_free(code[id]),
    ensures
        lowering_keeps(
            code,
            id,
            statement_lowering(program, layouts, locals, code, id, s).0,
            statement_lowering(program, layouts, locals, code, id, s).1,
        ),
    decreases s, 0int,
{
    let result = statement_lowering(program, layouts, locals, code, id, s);
    match s {
        Statement::Declare { .. } => {},
        Statement::Let { name, value, .. } => {
            lemma_expression_code_transfer_free(program, layouts, locals, value);
            let store = match crate::ir::local_type_of(locals, name@) {
                Some(ty) => seq![InstructionView::StoreLocal { name: name@, ty }],
                None => Seq::<InstructionView>::empty(),
            };
            assert(transfer_free(store));
            lemma_concat_transfer_free(expression_code(program, layouts, locals, value), store);
            lemma_emitted(code, id, expression_code(program, layouts, locals, value) + store);
        },
        Statement::Assign { target, value, .. } => {
            lemma_lvalue_code_transfer_free(program, layouts, locals, target);
            lemma_expression_code_transfer_free(program, layouts, locals, value);
            let a = lvalue_code(program, layouts, locals, target);
            let v = expression_code(program, layouts, locals, value);
            let store = seq![
                InstructionView::Store {
                    ty: crate::ir::type_of_expression(program, layouts, locals, target),
                    volatile: crate::ir::volatile_access(program, layouts, locals, target),
                },
            ];
            assert(transfer_free(store));
            lemma_concat_transfer_free(a, v);
            lemma_concat_transfer_free(a + v, store);
            lemma_emitted(code, id, a + v + store);
        },
        Statement::Return { value, .. } => {
            let v = match value {
                Some(v) => expression_code(program, layouts, locals, v),
                None => Seq::<InstructionView>::empty(),
            };
            if let Some(e) = value {
                lemma_expression_code_transfer_free(program, layouts, locals, e);
            }
            let ret = seq![InstructionView::Return { has_value: value is Some }];
            assert(transfer_free(ret));
            lemma_concat_transfer_free(v, ret);
            lemma_emitted(code, id, v + ret);
        },
        Statement::Expression { expression, .. } => {
            lemma_expression_code_transfer_free(program, layouts, locals, expression);
            let pop = seq![InstructionView::Pop];
            assert(transfer_free(pop));
            lemma_concat_transfer_free(expression_code(program, layouts, locals, expression), pop);
            lemma_emitted(code, id, expression_code(program, layouts, locals, expression) + pop);
        },
        Statement::Block(b) => {
            lemma_branch_lowering(program, layouts, locals, code, id, b);
        },
        Statement::If { condition, then_branch, else_branch, .. } => {
            let n = code.len() as int;
            let cond = expression_code(program, layouts, locals, condition);
            lemma_expression_code_transfer_free(program, layouts, locals, condition);
            lemma_emitted(code, id, cond);
            let c0 = emitted(code, id, cond);
            lemma_three_blocks(c0);
            let c1 = with_three_blocks(c0);
            let branch = InstructionView::Branch { then_block: n as usize, else_block: (n + 1) as usize };
            lemma_emitted_transfer(c1, id, branch);
            let c2 = emitted(c1, id, seq![branch]);
            assert(c2[n] == Seq::<InstructionView>::empty());
            assert(c2[n + 1] == Seq::<InstructionView>::empty());
            assert(c2[n + 2] == Seq::<InstructionView>::empty());
            lemma_branch_lowering(program, layouts, locals, c2, n, then_branch);
            let (c3, then_end) = branch_lowering(program, layouts, locals, c2, n, then_branch);
            lemma_closed(c3, then_end, n + 2);
            let c4 = closed(c3, then_end, n + 2);
            assert(c4[n + 1] == c3[n + 1]);
            assert(c4[n + 2] == c3[n + 2]);
            match else_branch {
                Some(other) => {
                    assert(transfer_free(c4[n + 1]));
                    lemma_branch_lowering(program, layouts, locals, c4, n + 1, other);
                    let (c5, else_end) = branch_lowering(program, layouts, locals, c4, n + 1, other);
                    lemma_closed(c5, else_end, n + 2);
                    let c6 = closed(c5, else_end, n + 2);
                    assert(result == (c6, n + 2));
                    assert(c6[n + 2] == c5[n + 2]);
                    assert(c5[n + 2] == c4[n + 2]);
                    assert(transfer_free(c6[n + 2]));
                    assert forall|k: int| 0 <= k < code.len() && k != id implies #[trigger] c6[k] == code[k] by {
                        assert(c6[k] == c5[k]);
                        assert(c5[k] == c4[k]);
                        assert(c4[k] == c3[k]);
                        assert(c3[k] == c2[k]);
                        assert(c2[k] == c1[k]);
                        assert(c1[k] == c0[k]);
                    }
                },
                None => {
                    let jump = InstructionView::Jump { target: (n + 2) as usize };
                    lemma_emitted_transfer(c4, n + 1, jump);
                    let c5 = emitted(c4, n + 1, seq![jump]);
                    assert(result == (c5, n + 2));
                    assert(c5[n + 2] == c4[n + 2]);
                    assert(transfer_free(c5[n + 2]));
                    assert forall|k: int| 0 <= k < code.len() && k != id implies #[trigger] c5[k] == code[k] by {
                        assert(c5[k] == c4[k]);
                        assert(c4[k] == c3[k]);
                        assert(c3[k] == c2[k]);
                        assert(c2[k] == c1[k]);
                        assert(c1[k] == c0[k]);
                    }
                },
            }
        },
        Statement::While { condition, body, .. } => {
            let n = code.len() as int;
            lemma_three_blocks(code);
            let c0 = with_three_blocks(code);
            let jump = InstructionView::Jump { target: n as usize };
            lemma_emitted_transfer(c0, id, jump);
            let c1 = emitted(c0, id, seq![jump]);
            let cond = expression_code(program, layouts, locals, condition);
            lemma_expression_code_transfer_free(program, layouts, locals, condition);
            assert(c1[n] == Seq::<InstructionView>::empty());
            lemma_emitted(c1, n, cond);
            let c2 = emitted(c1, n, cond);
            let branch = InstructionView::Branch { then_block: (n + 1) as usize, else_block: (n + 2) as usize };
            lemma_emitted_transfer(c2, n, branch);
            let c3 = emitted(c2, n, seq![branch]);
            assert(c3[n + 1] == Seq::<InstructionView>::empty());
            lemma_branch_lowering(program, layouts, locals, c3, n + 1, body);
            let (c4, body_end) = branch_lowering(program, layouts, locals, c3, n + 1, body);
            lemma_closed(c4, body_end, n);
            let c5 = closed(c4, body_end, n);
            assert(result == (c5, n + 2));
            assert(c5[n + 2] == c4[n + 2]);
            assert(c4[n + 2] == c3[n + 2]);
            assert(c3[n + 2] == Seq::<InstructionView>::empty());
            assert(transfer_free(c5[n + 2]));
            assert forall|k: int| 0 <= k < code.len() && k != id implies #[trigger] c5[k] == code[k] by {
                assert(c5[k] == c4[k]);
                assert(c4[k] == c3[k]);
                assert(c3[k] == c2[k]);
                assert(c2[k] == c1[k]);
                assert(c1[k] == c0[k]);
            }
        },
    }
}

proof fn lemma_branch_lowering(
    program: Program,
    layouts: Seq<StructLayout>,
    locals: Seq<Local>,
    code: Seq<Seq<InstructionView>>,
    id: int,
    b: Block,
)
    requires
        transfers_placed(code),
        0 <= id < code.len(),
        transfer_free(code[id]),
    ensures
        lowering_keeps(
            code,
            id,
            branch_lowering(program, layouts, locals, code, id, b).0,
            branch_lowering(program, layouts, locals, code, id, b).1,
        ),
    decreases b, 0int,
{
    lemma_block_lowering(program, layouts, locals, code, id, b.statements@, b.statements@.len() as int);
}

proof fn lemma_block_lowering(
    program: Program,
    layouts: Seq<StructLayout>,
    locals: Seq<Local>,
    code: Seq<Seq<InstructionView>>,
    id: int,
    statements: Seq<Statement>,
    count: int,
)
    requires
        transfers_placed(code),
        0 <= id < code.len(),
        transfer_free(code[id]),
    ensures
        lowering_keeps(
            code,
            id,
            block_lowering(program, layouts, locals, code, id, statements, count).0,
            block_lowering(program, layouts, locals, code, id, statements, count).1,
        ),
    decreases statements, count,
{
    if 0 < count <= statements.len() {
        lemma_block_lowering(program, layouts, locals, code, id, statements, count - 1);
        let (before, at) = block_lowering(program, layouts, locals, code, id, statements, count - 1);
        lemma_statement_lowering(program, layouts, locals, before, at, statements[count - 1]);
        let (out, end) = statement_lowering(program, layouts, locals, before, at, statements[count - 1]);
        assert forall|k: int| 0 <= k < code.len() && k != id implies #[trigger] out[k] == code[k] by {
            assert(before[k] == code[k]);
            if k == at {
                assert(false);
            }
        }
    }
}

// ---------------------------------------------------------------------------
// Lowered functions.

proof fn lemma_function_code(program: Program, layouts: Seq<StructLayout>, f: crate::ast::Function)
    ensures
        transfers_placed(function_code(program, layouts, f)),
        function_code(program, layouts, f).len() >= 1,
{
    let start = seq![Seq::<InstructionView>::empty()];
    assert forall|b: int, k: int| 0 <= b < start.len() && 0 <= k < start[b].len() implies {
        let i = #[trigger] start[b][k];
        &&& is_transfer(i) ==> k == start[b].len() - 1
        &&& (i matches InstructionView::Branch { then_block, else_block } ==> then_block < start.len() && else_block
            < start.len())
        &&& (i matches InstructionView::Jump { target } ==> target < start.len())
    } by {
        assert(start[b].len() == 0);
    }
    assert(transfer_free(start[0]));
    lemma_branch_lowering(
        program,
        layouts,
        crate::ir::function_locals(program, layouts, f),
        start,
        0,
        f.body,
    );
}

/// An instruction that passes control to another block.
pub open spec fn transfers(instruction: Instruction) -> bool {
    instruction is Branch || instruction is Jump
}

proof fn lemma_fold_step_from(folded: Seq<Instruction>, instruction: Instruction, k: int)
    requires
        0 <= k < fold_step(folded, instruction).len(),
    ensures
        fold_step(folded, instruction)[k] is Constant || (k < folded.len() && fold_step(folded, instruction)[k]
            == folded[k]) || fold_step(folded, instruction)[k] == instruction,
{
    let n = folded.len();
    let out = fold_step(folded, instruction);
    if k < n && k < out.len() - 1 {
        assert(out[k] == folded[k]);
    }
}

proof fn lemma_fold_transfer_free(instructions: Seq<Instruction>)
    requires
        forall|k: int| 0 <= k < instructions.len() ==> !transfers(#[trigger] instructions[k]),
    ensures
        forall|k: int| 0 <= k < fold_all(instructions).len() ==> !transfers(#[trigger] fold_all(instructions)[k]),
    decreases instructions.len(),
{
    if instructions.len() > 0 {
        let earlier = instructions.drop_last();
        assert forall|k: int| 0 <= k < earlier.len() implies !transfers(#[trigger] earlier[k]) by {
            assert(earlier[k] == instructions[k]);
        }
        lemma_fold_transfer_free(earlier);
        let folded = fold_all(earlier);
        assert(fold_all(instructions) == fold_step(folded, instructions.last()));
        assert forall|k: int| 0 <= k < fold_all(instructions).len() implies !transfers(
            #[trigger] fold_all(instructions)[k],
        ) by {
            lemma_fold_step_from(folded, instructions.last(), k);
        }
    }
}

/// Folding keeps a branch or jump at the end of the code, and adds none.
proof fn lemma_fold_keeps_transfers(instructions: Seq<Instruction>)
    requires
        forall|k: int| 0 <= k < instructions.len() && transfers(#[trigger] instructions[k]) ==> k == instructions.len() - 1,
    ensures
        forall|k: int|
            0 <= k < fold_all(instructions).len() && transfers(#[trigger] fold_all(instructions)[k]) ==> k
                == fold_all(instructions).len() - 1 && fold_all(instructions)[k] == instructions.last(),
{
    if instructions.len() > 0 {
        let earlier = instructions.drop_last();
        let last = instructions.last();
        assert forall|k: int| 0 <= k < earlier.len() implies !transfers(#[trigger] earlier[k]) by {
            assert(earlier[k] == instructions[k]);
        }
        lemma_fold_transfer_free(earlier);
        let folded = fold_all(earlier);
        assert(fold_all(instructions) == fold_step(folded, last));
        assert forall|k: int|
            0 <= k < fold_all(instructions).len() && transfers(#[trigger] fold_all(instructions)[k]) implies k
                == fold_all(instructions).len() - 1 && fold_all(instructions)[k] == last by {
            lemma_fold_step_from(folded, last, k);
            if transfers(last) {
                assert(fold_step(folded, last) == folded.push(last));
            }
        }
    }
}

/// The blocks of lowered code, folded, keep branches and jumps in place.
proof fn lemma_folded_blocks(code: Seq<Seq<InstructionView>>, lowered: Seq<BasicBlock>, folded: Seq<BasicBlock>)
    requires
        blocks_code(lowered) == code,
        transfers_placed(code),
        folded.len() == lowered.len(),
        forall|b: int|
            0 <= b < folded.len() ==> (#[trigger] folded[b]).instructions@ == fold_all(lowered[b].instructions@),
    ensures
        jumps_well_placed(folded),
{
    assert(lowered.len() == code.len());
    assert forall|b: int, k: int| 0 <= b < folded.len() && 0 <= k < folded[b].instructions@.len() implies {
        let instruction = #[trigger] folded[b].instructions@[k];
        &&& (instruction is Branch || instruction is Jump) ==> k == folded[b].instructions@.len() - 1
        &&& (instruction matches Instruction::Branch { then_block, else_block } ==> then_block < folded.len()
            && else_block < folded.len())
        &&& (instruction matches Instruction::Jump { target } ==> target < folded.len())
    } by {
        let x = lowered[b].instructions@;
        assert(code[b] == code_view(x));
        assert forall|q: int| 0 <= q < x.len() && transfers(#[trigger] x[q]) implies q == x.len() - 1 by {
            assert(code[b][q] == instruction_view(x[q]));
        }
        lemma_fold_keeps_transfers(x);
        let instruction = folded[b].instructions@[k];
        if transfers(instruction) {
            let q = x.len() - 1;
            assert(instruction == x[q]);
            assert(code[b][q] == instruction_view(x[q]));
        }
    }
}

/// A compiled function has a well-formed body.
proof fn lemma_compiled_function_well_formed(
    program: Program,
    layouts: Seq<StructLayout>,
    f: crate::ast::Function,
    ir: crate::ir::IrFunction,
)
    requires
        crate::ir::compiled_function(program, layouts, f, ir),
    ensures
        blocks_well_formed(ir.blocks@),
{
    reveal(crate::ir::compiled_function);
    let (lowered, folded, remap) = choose|lowered: Seq<BasicBlock>, folded: Seq<BasicBlock>, remap: Seq<usize>|
        #[trigger] crate::ir::compiled_blocks(program, layouts, f, lowered, folded, remap, ir.blocks@);
    assert(crate::ir::compiled_blocks(program, layouts, f, lowered, folded, remap, ir.blocks@));
    lemma_function_code(program, layouts, f);
    lemma_folded_blocks(function_code(program, layouts, f), lowered, folded);
    assert(lowered.len() == function_code(program, layouts, f).len());
    lemma_pruning_gives_well_formed_blocks(folded, ir.blocks@, remap);
}

/// Every function that lowering produces has a well-formed body: blocks
/// numbered in order from the entry, branches and jumps only at the ends of
/// blocks and only to blocks that exist, and every block reachable from
/// the entry.
pub proof fn lemma_lowered_functions_well_formed(program: Program, typed: TypedProgram)
    requires
        lowering_of(program, Ok(typed)),
    ensures
        forall|i: int| 0 <= i < typed.functions@.len() ==> blocks_well_formed(#[trigger] typed.functions@[i].blocks@),
{
    let source = choose|source: Program|
        {
            &&& #[trigger] crate::fold::folds_program(program, source)
            &&& crate::ir::layouts_from(source.structs@, source.structs@.len() as int, typed.structs@)
            &&& crate::ir::functions_compiled(source, typed.structs@, source.functions@, typed.functions@)
        };
    assert forall|i: int| 0 <= i < typed.functions@.len() implies blocks_well_formed(
        #[trigger] typed.functions@[i].blocks@,
    ) by {
        let ir = typed.functions@[i];
        let j = choose|j: int|
            #[trigger] crate::ir::last_named(source.functions@, ir.name@, j) && crate::ir::compiled_function(
                source,
                typed.structs@,
                source.functions@[j],
                ir,
            );
        lemma_compiled_function_well_formed(source, typed.structs@, source.functions@[j], ir);
    }
}

// ---------------------------------------------------------------------------
// Names, types and locals.

proof fn lemma_statement_locals_extend(
    program: Program,
    layouts: Seq<StructLayout>,
    locals: Seq<Local>,
    s: Statement,
)
    ensures
        crate::ir::statement_locals(program, layouts, locals, s).len() >= locals.len(),
        forall|k: int|
            0 <= k < locals.len() ==> #[trigger] crate::ir::statement_locals(program, layouts, locals, s)[k]
                == locals[k],
    decreases s, 0int,
{
    match s {
        Statement::If { then_branch, else_branch, .. } => {
            lemma_branch_locals_extend(program, layouts, locals, then_branch);
            if let Some(other) = else_branch {
                let after_then = crate::ir::branch_locals(program, layouts, locals, then_branch);
                lemma_branch_locals_extend(program, layouts, after_then, other);
            }
        },
        Statement::While { body, .. } => {
            lemma_branch_locals_extend(program, layouts, locals, body);
        },
        Statement::Block(b) => {
            lemma_branch_locals_extend(program, layouts, locals, b);
        },
        _ => {},
    }
}

proof fn lemma_branch_locals_extend(program: Program, layouts: Seq<StructLayout>, locals: Seq<Local>, b: Block)
    ensures
        crate::ir::branch_locals(program, layouts, locals, b).len() >= locals.len(),
        forall|k: int|
            0 <= k < locals.len() ==> #[trigger] crate::ir::branch_locals(program, layouts, locals, b)[k] == locals[k],
    decreases b, 0int,
{
    lemma_block_locals_extend(program, layouts, locals, b.statements@, b.statements@.len() as int);
}

proof fn lemma_block_locals_extend(
    program: Program,
    layouts: Seq<StructLayout>,
    locals: Seq<Local>,
    statements: Seq<Statement>,
    count: int,
)
    ensures
        crate::ir::block_locals(program, layouts, locals, statements, count).len() >= locals.len(),
        forall|k: int|
            0 <= k < locals.len() ==> #[trigger] crate::ir::block_locals(program, layouts, locals, statements, count)[k]
                == locals[k],
    decreases statements, count,
{
    if 0 < count <= statements.len() {
        lemma_block_locals_extend(program, layouts, locals, statements, count - 1);
        let before = crate::ir::block_locals(program, layouts, locals, statements, count - 1);
        lemma_statement_locals_extend(program, layouts, before, statements[count - 1]);
    }
}

/// A lowered function keeps what its source function declares: its name,
/// its return and parameter types (as IR types), and its locals begin with
/// its parameters, in order.
pub open spec fn lowered_from(source: crate::ast::Function, f: crate::ir::IrFunction) -> bool {
    &&& f.name@ == source.name@
    &&& f.return_type == crate::ir::ir_type_of(source.return_type)
    &&& f.parameters@ == source.parameters@.map_values(|p: crate::ast::Parameter| crate::ir::ir_type_of(p.ty))
    &&& f.locals@.len() >= source.parameters@.len()
    &&& forall|k: int|
        0 <= k < source.parameters@.len() ==> #[trigger] f.locals@[k] == (Local {
            name: source.parameters@[k].name,
            ty: crate::ir::ir_type_of(source.parameters@[k].ty),
        })
}

proof fn lemma_compiled_from(
    source: Program,
    layouts: Seq<StructLayout>,
    g: crate::ast::Function,
    f: crate::ast::Function,
    ir: crate::ir::IrFunction,
)
    requires
        crate::fold::folds_function(g, f),
        crate::ir::compiled_function(source, layouts, f, ir),
    ensures
        lowered_from(g, ir),
{
    reveal(crate::ir::compiled_function);
    let parameters = f.parameters@.map_values(
        |p: crate::ast::Parameter| Local { name: p.name, ty: crate::ir::ir_type_of(p.ty) },
    );
    lemma_branch_locals_extend(source, layouts, parameters, f.body);
    assert(ir.locals@ == crate::ir::function_locals(source, layouts, f));
    assert forall|k: int| 0 <= k < g.parameters@.len() implies #[trigger] ir.locals@[k] == (Local {
        name: g.parameters@[k].name,
        ty: crate::ir::ir_type_of(g.parameters@[k].ty),
    }) by {
        assert(ir.locals@[k] == parameters[k]);
    }
}

/// The lowered functions `typed` are those of `functions`: each is lowered
/// from the last function with its name and keeps that function's name,
/// types and parameters, and every name among `functions` has one.
pub open spec fn lowered_functions_from(functions: Seq<crate::ast::Function>, typed: Seq<crate::ir::IrFunction>) -> bool {
    &&& forall|i: int|
        #![trigger typed[i]]
        0 <= i < typed.len() ==> exists|j: int|
            #[trigger] crate::ir::last_named(functions, typed[i].name@, j) && lowered_from(functions[j], typed[i])
    &&& forall|j: int|
        #![trigger functions[j]]
        0 <= j < functions.len() ==> exists|i: int|
            0 <= i < typed.len() && #[trigger] crate::ir::has_name(typed[i], functions[j].name@)
}

/// The lowered functions keep the names, types and parameters of the
/// functions they are compiled from.
proof fn lemma_compiled_functions_shape(
    program: Program,
    source: Program,
    layouts: Seq<StructLayout>,
    typed: Seq<crate::ir::IrFunction>,
)
    requires
        program.functions@.len() == source.functions@.len(),
        forall|k: int|
            0 <= k < source.functions@.len() ==> crate::fold::folds_function(
                program.functions@[k],
                #[trigger] source.functions@[k],
            ),
        crate::ir::functions_compiled(source, layouts, source.functions@, typed),
    ensures
        lowered_functions_from(program.functions@, typed),
{
    let functions = source.functions@;
    assert forall|i: int|
        #![trigger typed[i]]
        0 <= i < typed.len() implies exists|j: int|
        #[trigger] crate::ir::last_named(program.functions@, typed[i].name@, j) && lowered_from(
            program.functions@[j],
            typed[i],
        ) by {
        let ir = typed[i];
        let j = choose|j: int|
            #[trigger] crate::ir::last_named(functions, ir.name@, j) && crate::ir::compiled_function(
                source,
                layouts,
                functions[j],
                ir,
            );
        assert(crate::fold::folds_function(program.functions@[j], functions[j]));
        assert forall|k: int| j < k < program.functions@.len() implies #[trigger] program.functions@[k].name@
            != ir.name@ by {
            assert(crate::fold::folds_function(program.functions@[k], functions[k]));
        }
        assert(crate::ir::last_named(program.functions@, ir.name@, j));
        lemma_compiled_from(source, layouts, program.functions@[j], functions[j], ir);
    }
    assert forall|j: int|
        #![trigger program.functions@[j]]
        0 <= j < program.functions@.len() implies exists|i: int|
        0 <= i < typed.len() && #[trigger] crate::ir::has_name(typed[i], program.functions@[j].name@) by {
        assert(crate::fold::folds_function(program.functions@[j], functions[j]));
        assert(functions[j] == functions[j]);
    }
}

/// What lowering gives: the functions of the program, lowered (see
/// [`lowered_functions_from`]), in order of name, each with a well-formed
/// body.
pub proof fn lemma_lowered_program_shape(program: Program, typed: TypedProgram)
    requires
        lowering_of(program, Ok(typed)),
    ensures
        crate::ir::sorted_by_name(typed.functions@),
        lowered_functions_from(program.functions@, typed.functions@),
        forall|i: int| 0 <= i < typed.functions@.len() ==> blocks_well_formed(#[trigger] typed.functions@[i].blocks@),
{
    let source = choose|source: Program|
        {
            &&& #[trigger] crate::fold::folds_program(program, source)
            &&& crate::ir::layouts_from(source.structs@, source.structs@.len() as int, typed.structs@)
            &&& crate::ir::functions_compiled(source, typed.structs@, source.functions@, typed.functions@)
        };
    lemma_compiled_functions_shape(program, source, typed.structs@, typed.functions@);
    lemma_lowered_functions_well_formed(program, typed);
}

} // verus!
