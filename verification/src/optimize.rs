//! Target-independent IR optimization: constant instruction folding and
//! unreachable basic-block pruning.
//!
//! Neither pass merges, reorders or removes a memory access: folding only
//! replaces constants and the arithmetic on them, and pruning only drops
//! blocks that can never run.

use vstd::prelude::*;

use crate::ast::BinaryOperator;
use crate::fold::truncating_div;
use crate::ir::{BasicBlock, Instruction, IrFunction, IrType};

verus! {

/// The value of an operator applied to two constants, when the folder
/// computes it: arithmetic wraps around as the machine's does, division
/// needs a non-zero divisor and a quotient that fits, comparisons give 1 or
/// 0, and shifts are left to run time.
pub open spec fn constant_value(operator: BinaryOperator, left: i64, right: i64) -> Option<i64> {
    match operator {
        BinaryOperator::Add => Some(left.wrapping_add(right)),
        BinaryOperator::Subtract => Some(left.wrapping_sub(right)),
        BinaryOperator::Multiply => Some(left.wrapping_mul(right)),
        BinaryOperator::Divide => if right != 0 && !(left == i64::MIN && right == -1) {
            Some(truncating_div(left as int, right as int) as i64)
        } else {
            None
        },
        BinaryOperator::Equal => Some(if left == right { 1i64 } else { 0i64 }),
        BinaryOperator::NotEqual => Some(if left != right { 1i64 } else { 0i64 }),
        BinaryOperator::Less => Some(if left < right { 1i64 } else { 0i64 }),
        BinaryOperator::LessEqual => Some(if left <= right { 1i64 } else { 0i64 }),
        BinaryOperator::Greater => Some(if left > right { 1i64 } else { 0i64 }),
        BinaryOperator::GreaterEqual => Some(if left >= right { 1i64 } else { 0i64 }),
        BinaryOperator::BitwiseAnd => Some(left & right),
        BinaryOperator::BitwiseOr => Some(left | right),
        BinaryOperator::BitwiseXor => Some(left ^ right),
        BinaryOperator::ShiftLeft | BinaryOperator::ShiftRight => None,
    }
}

pub fn constant_binary(operator: BinaryOperator, left: i64, right: i64) -> (r: Option<i64>)
    ensures
        r == constant_value(operator, left, right),
{
    match operator {
        BinaryOperator::Add => Some(left.wrapping_add(right)),
        BinaryOperator::Subtract => Some(left.wrapping_sub(right)),
        BinaryOperator::Multiply => Some(left.wrapping_mul(right)),
        BinaryOperator::Divide => {
            if right != 0 && !(left == i64::MIN && right == -1) {
                crate::fold::fold_arithmetic_exec(BinaryOperator::Divide, left, right)
            } else {
                None
            }
        },
        BinaryOperator::Equal => Some(if left == right { 1 } else { 0 }),
        BinaryOperator::NotEqual => Some(if left != right { 1 } else { 0 }),
        BinaryOperator::Less => Some(if left < right { 1 } else { 0 }),
        BinaryOperator::LessEqual => Some(if left <= right { 1 } else { 0 }),
        BinaryOperator::Greater => Some(if left > right { 1 } else { 0 }),
        BinaryOperator::GreaterEqual => Some(if left >= right { 1 } else { 0 }),
        BinaryOperator::BitwiseAnd => Some(left & right),
        BinaryOperator::BitwiseOr => Some(left | right),
        BinaryOperator::BitwiseXor => Some(left ^ right),
        BinaryOperator::ShiftLeft | BinaryOperator::ShiftRight => None,
    }
}

/// The value an instruction pushes when it is a constant.
pub open spec fn constant_of(instruction: Instruction) -> i64 {
    match instruction {
        Instruction::Constant(v) => v,
        _ => 0,
    }
}

/// One step of constant folding: appending an instruction to already folded
/// code. A binary operation right after two constants is replaced by the
/// constant of its value, when [`constant_value`] gives one.
pub open spec fn fold_step(folded: Seq<Instruction>, instruction: Instruction) -> Seq<Instruction> {
    let n = folded.len();
    match instruction {
        Instruction::Binary { operator, .. } => if n >= 2 && folded[n - 2] is Constant
            && folded[n - 1] is Constant {
            match constant_value(operator, constant_of(folded[n - 2]), constant_of(folded[n - 1])) {
                Some(v) => folded.subrange(0, n - 2).push(Instruction::Constant(v)),
                None => folded.push(instruction),
            }
        } else {
            folded.push(instruction)
        },
        _ => folded.push(instruction),
    }
}

/// Constant folding of an instruction sequence, left to right.
pub open spec fn fold_all(instructions: Seq<Instruction>) -> Seq<Instruction>
    decreases instructions.len(),
{
    if instructions.len() == 0 {
        Seq::empty()
    } else {
        fold_step(fold_all(instructions.drop_last()), instructions.last())
    }
}

/// Folds constant instruction sequences in place.
pub fn fold_instruction_constants(instructions: &mut Vec<Instruction>)
    ensures
        final(instructions)@ == fold_all(old(instructions)@),
        fully_folded(final(instructions)@),
{
    let mut source: Vec<Instruction> = Vec::new();
    std::mem::swap(&mut source, instructions);
    let ghost original = source@;
    // Take the instructions from the back so that each is moved, not copied.
    let mut pending: Vec<Instruction> = Vec::new();
    while source.len() > 0
        invariant
            original == source@ + pending@.reverse(),
        decreases source@.len(),
    {
        let instruction = source.pop().unwrap();
        pending.push(instruction);
        proof {
            assert(source@ + pending@.reverse() =~= original);
        }
    }
    assert(pending@.reverse() =~= original);
    let mut folded: Vec<Instruction> = Vec::new();
    let ghost done: Seq<Instruction> = Seq::empty();
    while pending.len() > 0
        invariant
            original == done + pending@.reverse(),
            folded@ == fold_all(done),
        decreases pending@.len(),
    {
        let instruction = pending.pop().unwrap();
        proof {
            assert(done.push(instruction) + pending@.reverse() =~= original);
            assert(done.push(instruction).drop_last() =~= done);
        }
        let n = folded.len();
        let foldable = match &instruction {
            Instruction::Binary { .. } => n >= 2 && match (&folded[n - 2], &folded[n - 1]) {
                (Instruction::Constant(_), Instruction::Constant(_)) => true,
                _ => false,
            },
            _ => false,
        };
        if foldable {
            let right = match folded.pop().unwrap() {
                Instruction::Constant(v) => v,
                _ => 0,
            };
            let left = match folded.pop().unwrap() {
                Instruction::Constant(v) => v,
                _ => 0,
            };
            let operator = match &instruction {
                Instruction::Binary { operator, .. } => *operator,
                _ => BinaryOperator::Add,
            };
            match constant_binary(operator, left, right) {
                Some(value) => {
                    folded.push(Instruction::Constant(value));
                },
                None => {
                    folded.push(Instruction::Constant(left));
                    folded.push(Instruction::Constant(right));
                    folded.push(instruction);
                },
            }
        } else {
            folded.push(instruction);
        }
        proof {
            done = done.push(instruction);
            assert(folded@ =~= fold_all(done));
        }
    }
    assert(done =~= original);
    proof {
        lemma_fold_all_fully_folded(original);
    }
    *instructions = folded;
}

// ---------------------------------------------------------------------------
// What folding keeps.

/// The net change in stack height of running `instructions` in order, where
/// each instruction changes it by `effect`.
pub open spec fn stack_effect(instructions: Seq<Instruction>, effect: spec_fn(Instruction) -> int) -> int
    decreases instructions.len(),
{
    if instructions.len() == 0 {
        0
    } else {
        stack_effect(instructions.drop_last(), effect) + effect(instructions.last())
    }
}

proof fn lemma_stack_effect_push(instructions: Seq<Instruction>, instruction: Instruction, effect: spec_fn(Instruction) -> int)
    ensures
        stack_effect(instructions.push(instruction), effect) == stack_effect(instructions, effect) + effect(instruction),
{
    assert(instructions.push(instruction).drop_last() =~= instructions);
}

/// Folding leaves the net stack effect of code unchanged, for any stack
/// effect of the instructions under which a constant pushes one value and
/// a binary operation takes two and pushes one.
pub proof fn lemma_folding_keeps_stack_effect(instructions: Seq<Instruction>, effect: spec_fn(Instruction) -> int)
    requires
        forall|v: i64| #[trigger] effect(Instruction::Constant(v)) == 1,
        forall|operator: BinaryOperator, ty: IrType| #[trigger] effect(Instruction::Binary { operator, ty }) == -1,
    ensures
        stack_effect(fold_all(instructions), effect) == stack_effect(instructions, effect),
    decreases instructions.len(),
{
    if instructions.len() > 0 {
        let earlier = instructions.drop_last();
        let last = instructions.last();
        lemma_folding_keeps_stack_effect(earlier, effect);
        let folded = fold_all(earlier);
        let n = folded.len();
        lemma_stack_effect_push(folded, last, effect);
        if let Instruction::Binary { operator, ty } = last {
            if n >= 2 && folded[n - 2] is Constant && folded[n - 1] is Constant {
                if let Some(v) = constant_value(operator, constant_of(folded[n - 2]), constant_of(folded[n - 1])) {
                    let kept = folded.subrange(0, n - 2);
                    lemma_stack_effect_push(kept, Instruction::Constant(v), effect);
                    assert(folded.drop_last() =~= kept.push(folded[n - 2]));
                    assert(folded =~= folded.drop_last().push(folded[n - 1]));
                    lemma_stack_effect_push(kept, folded[n - 2], effect);
                    lemma_stack_effect_push(folded.drop_last(), folded[n - 1], effect);
                    assert(effect(folded[n - 2]) == 1 && effect(folded[n - 1]) == 1) by {
                        assert(folded[n - 2] == Instruction::Constant(constant_of(folded[n - 2])));
                        assert(folded[n - 1] == Instruction::Constant(constant_of(folded[n - 1])));
                    }
                    assert(effect(Instruction::Binary { operator, ty }) == -1);
                }
            }
        }
    }
}

/// Code in which no binary operation that directly follows two constants
/// could be folded: each such operation is one [`constant_value`] (the
/// value [`constant_binary`] computes) gives no value for.
pub open spec fn fully_folded(instructions: Seq<Instruction>) -> bool {
    forall|i: int|
        2 <= i < instructions.len() && (#[trigger] instructions[i]) is Binary && instructions[i - 2] is Constant
            && instructions[i - 1] is Constant ==> constant_value(
            instructions[i]->Binary_operator,
            constant_of(instructions[i - 2]),
            constant_of(instructions[i - 1]),
        ) is None
}

/// Folding leaves nothing foldable: in folded code, a binary operation
/// directly after two constants is one whose value folding does not compute.
pub proof fn lemma_fold_all_fully_folded(instructions: Seq<Instruction>)
    ensures
        fully_folded(fold_all(instructions)),
    decreases instructions.len(),
{
    if instructions.len() > 0 {
        let earlier = instructions.drop_last();
        let last = instructions.last();
        lemma_fold_all_fully_folded(earlier);
        let folded = fold_all(earlier);
        let n = folded.len();
        let result = fold_all(instructions);
        assert(result == fold_step(folded, last));
        assert forall|i: int|
            2 <= i < result.len() && (#[trigger] result[i]) is Binary && result[i - 2] is Constant && result[i - 1] is Constant
            implies constant_value(result[i]->Binary_operator, constant_of(result[i - 2]), constant_of(result[i - 1])) is None by {
            if i < result.len() - 1 {
                assert(result[i] == folded[i] && result[i - 1] == folded[i - 1] && result[i - 2] == folded[i - 2]);
            } else if i < n {
                assert(result[i] == folded[i] && result[i - 1] == folded[i - 1] && result[i - 2] == folded[i - 2]);
            }
        }
    }
}

proof fn lemma_fully_folded_is_fixed(instructions: Seq<Instruction>)
    requires
        fully_folded(instructions),
    ensures
        fold_all(instructions) == instructions,
    decreases instructions.len(),
{
    if instructions.len() > 0 {
        let earlier = instructions.drop_last();
        assert forall|i: int|
            2 <= i < earlier.len() && (#[trigger] earlier[i]) is Binary && earlier[i - 2] is Constant && earlier[i - 1] is Constant
            implies constant_value(earlier[i]->Binary_operator, constant_of(earlier[i - 2]), constant_of(earlier[i - 1])) is None by {
            assert(earlier[i] == instructions[i]);
        }
        lemma_fully_folded_is_fixed(earlier);
        let n = instructions.len() - 1;
        if n >= 2 && instructions[n] is Binary {
            assert(instructions[n] == instructions.last());
        }
        assert(earlier.push(instructions.last()) =~= instructions);
    }
}

/// Folding twice folds no more than folding once.
pub proof fn lemma_folding_is_idempotent(instructions: Seq<Instruction>)
    ensures
        fold_all(fold_all(instructions)) == fold_all(instructions),
{
    lemma_fold_all_fully_folded(instructions);
    lemma_fully_folded_is_fixed(fold_all(instructions));
}

// ---------------------------------------------------------------------------
// Unreachable blocks.

/// The blocks control can pass to from block `id`: the targets of a final
/// branch or jump, none after a return, and otherwise the next block, into
/// which the code falls through. An empty block falls through as well.
pub open spec fn successors(blocks: Seq<BasicBlock>, id: int) -> Seq<int> {
    let instructions = blocks[id].instructions@;
    let fall_through = if id + 1 < blocks.len() {
        seq![id + 1]
    } else {
        Seq::empty()
    };
    if instructions.len() == 0 {
        fall_through
    } else {
        match instructions.last() {
            Instruction::Branch { then_block, else_block } => seq![then_block as int, else_block as int],
            Instruction::Jump { target } => seq![target as int],
            Instruction::Return { .. } => Seq::empty(),
            _ => fall_through,
        }
    }
}

/// A walk through the control-flow graph from the entry block.
pub open spec fn is_path(blocks: Seq<BasicBlock>, path: Seq<int>) -> bool {
    &&& path.len() >= 1
    &&& path[0] == 0
    &&& forall|k: int|
        0 <= k < path.len() - 1 ==> 0 <= #[trigger] path[k] < blocks.len() && successors(
            blocks,
            path[k],
        ).contains(path[k + 1])
}

/// Whether control can reach block `id` from the entry block.
pub open spec fn reachable_block(blocks: Seq<BasicBlock>, id: int) -> bool {
    &&& 0 <= id < blocks.len()
    &&& exists|path: Seq<int>| is_path(blocks, path) && path.last() == id
}

/// A block target after renumbering.
pub open spec fn renumbered(target: usize, remap: Seq<usize>) -> usize {
    if target < remap.len() {
        remap[target as int]
    } else {
        target
    }
}

/// An instruction whose block targets are renumbered.
pub open spec fn retarget(instruction: Instruction, remap: Seq<usize>) -> Instruction {
    match instruction {
        Instruction::Branch { then_block, else_block } => Instruction::Branch {
            then_block: renumbered(then_block, remap),
            else_block: renumbered(else_block, remap),
        },
        Instruction::Jump { target } => Instruction::Jump { target: renumbered(target, remap) },
        _ => instruction,
    }
}

/// `after` keeps exactly the reachable blocks of `before`, in their order,
/// numbered from zero: block `i` of `before` becomes block `remap[i]`, with
/// its targets renumbered, and an unreachable block is dropped and mapped to
/// `usize::MAX`.
pub open spec fn pruned(before: Seq<BasicBlock>, after: Seq<BasicBlock>, remap: Seq<usize>) -> bool {
    &&& remap.len() == before.len()
    &&& forall|i: int|
        0 <= i < before.len() ==> (reachable_block(before, i) <==> #[trigger] remap[i] < after.len())
    &&& forall|i: int|
        0 <= i < before.len() && !reachable_block(before, i) ==> #[trigger] remap[i] == usize::MAX
    &&& forall|i: int, j: int|
        0 <= i < j < before.len() && remap[i] < after.len() && remap[j] < after.len() ==> #[trigger] remap[i]
            < #[trigger] remap[j]
    &&& forall|k: int|
        0 <= k < after.len() ==> (#[trigger] after[k]).id == k && exists|i: int|
            0 <= i < before.len() && #[trigger] remap[i] == k
    &&& forall|i: int|
        0 <= i < before.len() && #[trigger] remap[i] < after.len() ==> {
            let block = after[remap[i] as int];
            &&& block.id == remap[i]
            &&& block.instructions@ == before[i].instructions@.map_values(
                |instruction: Instruction| retarget(instruction, remap),
            )
        }
}

spec fn count_unmarked(marks: Seq<bool>) -> nat
    decreases marks.len(),
{
    if marks.len() == 0 {
        0
    } else {
        count_unmarked(marks.drop_last()) + if marks.last() {
            0nat
        } else {
            1nat
        }
    }
}

proof fn lemma_mark_decreases(marks: Seq<bool>, i: int)
    requires
        0 <= i < marks.len(),
        !marks[i],
    ensures
        count_unmarked(marks.update(i, true)) + 1 == count_unmarked(marks),
    decreases marks.len(),
{
    if i < marks.len() - 1 {
        assert(marks.update(i, true).drop_last() =~= marks.drop_last().update(i, true));
        lemma_mark_decreases(marks.drop_last(), i);
    } else {
        assert(marks.update(i, true).drop_last() =~= marks.drop_last());
    }
}

/// A set of blocks that holds the entry and every in-range successor of its
/// members holds every reachable block.
proof fn lemma_closed_holds_reachable(blocks: Seq<BasicBlock>, marks: Seq<bool>, path: Seq<int>)
    requires
        marks.len() == blocks.len(),
        blocks.len() > 0 ==> marks[0],
        forall|m: int, k: int|
            0 <= m < blocks.len() && #[trigger] marks[m] && 0 <= k < successors(blocks, m).len() && 0
                <= successors(blocks, m)[k] < blocks.len() ==> marks[#[trigger] successors(blocks, m)[k]],
        is_path(blocks, path),
        0 <= path.last() < blocks.len(),
    ensures
        marks[path.last()],
    decreases path.len(),
{
    if path.len() > 1 {
        let shorter = path.drop_last();
        assert(is_path(blocks, shorter)) by {
            assert forall|k: int| 0 <= k < shorter.len() - 1 implies 0 <= #[trigger] shorter[k]
                < blocks.len() && successors(blocks, shorter[k]).contains(shorter[k + 1]) by {
                assert(shorter[k] == path[k] && shorter[k + 1] == path[k + 1]);
            }
        }
        let m = path[path.len() - 2];
        assert(0 <= m < blocks.len() && successors(blocks, m).contains(path.last()));
        lemma_closed_holds_reachable(blocks, marks, shorter);
        let k = choose|k: int| 0 <= k < successors(blocks, m).len() && successors(blocks, m)[k] == path.last();
        assert(marks[successors(blocks, m)[k]]);
    }
}

/// The successors of a block, computed.
fn successor_list(blocks: &Vec<BasicBlock>, id: usize) -> (r: Vec<usize>)
    requires
        id < blocks@.len(),
    ensures
        r@.map_values(|t: usize| t as int) == successors(blocks@, id as int),
        r@.len() <= 2,
{
    let instructions = &blocks[id].instructions;
    let mut r: Vec<usize> = Vec::new();
    if instructions.len() == 0 {
        if id < blocks.len() - 1 {
            r.push(id + 1);
        }
        assert(r@.map_values(|t: usize| t as int) =~= successors(blocks@, id as int));
        return r;
    }
    match &instructions[instructions.len() - 1] {
        Instruction::Branch { then_block, else_block } => {
            r.push(*then_block);
            r.push(*else_block);
        },
        Instruction::Jump { target } => {
            r.push(*target);
        },
        Instruction::Return { .. } => {},
        _ => {
            if id < blocks.len() - 1 {
                r.push(id + 1);
            }
        },
    }
    assert(r@.map_values(|t: usize| t as int) =~= successors(blocks@, id as int));
    r
}

/// Every marked block is reachable.
spec fn marks_sound(blocks: Seq<BasicBlock>, marks: Seq<bool>) -> bool {
    forall|i: int| 0 <= i < blocks.len() && #[trigger] marks[i] ==> reachable_block(blocks, i)
}

/// Every pending block is the entry or a successor of a marked block.
spec fn pending_sound(blocks: Seq<BasicBlock>, marks: Seq<bool>, pending: Seq<usize>) -> bool {
    forall|k: int|
        0 <= k < pending.len() ==> #[trigger] pending[k] == 0 || exists|m: int|
            0 <= m < blocks.len() && marks[m] && #[trigger] successors(blocks, m).contains(
                pending[k] as int,
            )
}

/// Every in-range successor of a marked block is marked or pending, and so
/// is the entry.
spec fn closed_or_pending(blocks: Seq<BasicBlock>, marks: Seq<bool>, pending: Seq<usize>) -> bool {
    &&& blocks.len() > 0 ==> marks[0] || pending.contains(0)
    &&& forall|m: int, k: int|
        0 <= m < blocks.len() && #[trigger] marks[m] && 0 <= k < successors(blocks, m).len() && 0
            <= successors(blocks, m)[k] < blocks.len() ==> marks[#[trigger] successors(blocks, m)[k]]
            || pending.contains(successors(blocks, m)[k] as usize)
}

proof fn lemma_skip(blocks: Seq<BasicBlock>, marks: Seq<bool>, pending: Seq<usize>)
    requires
        blocks.len() <= usize::MAX,
        marks.len() == blocks.len(),
        pending.len() > 0,
        pending.last() >= blocks.len() || marks[pending.last() as int],
        pending_sound(blocks, marks, pending),
        closed_or_pending(blocks, marks, pending),
    ensures
        pending_sound(blocks, marks, pending.drop_last()),
        closed_or_pending(blocks, marks, pending.drop_last()),
{
    let rest = pending.drop_last();
    assert forall|k: int| 0 <= k < rest.len() implies #[trigger] rest[k] == 0 || exists|m: int|
        0 <= m < blocks.len() && marks[m] && #[trigger] successors(blocks, m).contains(rest[k] as int) by {
        assert(rest[k] == pending[k]);
    }
    assert forall|m: int, k: int|
        0 <= m < blocks.len() && #[trigger] marks[m] && 0 <= k < successors(blocks, m).len() && 0
            <= successors(blocks, m)[k] < blocks.len() implies marks[#[trigger] successors(blocks, m)[k]]
            || rest.contains(successors(blocks, m)[k] as usize) by {
        let s = successors(blocks, m)[k];
        if !marks[s] {
            let w = choose|w: int| 0 <= w < pending.len() && pending[w] == s as usize;
            if w == pending.len() - 1 {
                assert(pending[w] == pending.last());
                assert(pending.last() as int == s);
                assert(false);
            }
            assert(rest[w] == pending[w]);
        }
    }
    if blocks.len() > 0 && !marks[0] {
        let w = choose|w: int| 0 <= w < pending.len() && pending[w] == 0;
        if w == pending.len() - 1 {
            assert(pending[w] == pending.last());
            assert(false);
        }
        assert(rest[w] == pending[w]);
    }
}

/// Marking a pending block keeps every marked block reachable.
proof fn lemma_mark_reachable(blocks: Seq<BasicBlock>, marks: Seq<bool>, pending: Seq<usize>)
    requires
        blocks.len() <= usize::MAX,
        marks.len() == blocks.len(),
        pending.len() > 0,
        pending.last() < blocks.len(),
        marks_sound(blocks, marks),
        pending_sound(blocks, marks, pending),
    ensures
        marks_sound(blocks, marks.update(pending.last() as int, true)),
{
    let id = pending.last() as int;
    let n = pending.len() - 1;
    assert(reachable_block(blocks, id)) by {
        if id != 0 {
            assert(pending[n] == id);
            let m = choose|m: int| 0 <= m < blocks.len() && marks[m] && successors(blocks, m).contains(id);
            assert(reachable_block(blocks, m));
            let path = choose|path: Seq<int>| is_path(blocks, path) && path.last() == m;
            let longer = path.push(id);
            assert forall|j: int| 0 <= j < longer.len() - 1 implies 0 <= #[trigger] longer[j] < blocks.len()
                && successors(blocks, longer[j]).contains(longer[j + 1]) by {
                if j < path.len() - 1 {
                    assert(longer[j] == path[j] && longer[j + 1] == path[j + 1]);
                } else {
                    assert(longer[j] == m && longer[j + 1] == id);
                }
            }
            assert(is_path(blocks, longer) && longer.last() == id);
        } else {
            let path = seq![0int];
            assert(is_path(blocks, path));
            assert(path.last() == id);
        }
    }
    let marked = marks.update(id, true);
    assert forall|i: int| 0 <= i < blocks.len() && #[trigger] marked[i] implies reachable_block(blocks, i) by {
        if i != id {
            assert(marks[i]);
        }
    }
}

/// After marking a pending block and adding its successors, every pending
/// block is still the entry or a successor of a marked block.
proof fn lemma_mark_pending(
    blocks: Seq<BasicBlock>,
    marks: Seq<bool>,
    pending: Seq<usize>,
    next: Seq<usize>,
)
    requires
        blocks.len() <= usize::MAX,
        marks.len() == blocks.len(),
        pending.len() > 0,
        pending.last() < blocks.len(),
        next.map_values(|t: usize| t as int) == successors(blocks, pending.last() as int),
        pending_sound(blocks, marks, pending),
    ensures
        pending_sound(blocks, marks.update(pending.last() as int, true), pending.drop_last() + next),
{
    let id = pending.last() as int;
    let marked = marks.update(id, true);
    let rest = pending.drop_last() + next;
    let n = pending.len() - 1;
    assert forall|k: int| 0 <= k < rest.len() implies #[trigger] rest[k] == 0 || exists|m: int|
        0 <= m < blocks.len() && marked[m] && #[trigger] successors(blocks, m).contains(rest[k] as int) by {
        if k < n {
            assert(rest[k] == pending[k]);
            if pending[k] != 0 {
                let m = choose|m: int|
                    0 <= m < blocks.len() && marks[m] && successors(blocks, m).contains(pending[k] as int);
                assert(marked[m]);
            }
        } else {
            let q = k - n;
            assert(rest[k] == next[q]);
            assert(next.map_values(|t: usize| t as int)[q] == next[q] as int);
            assert(successors(blocks, id)[q] == rest[k] as int);
            assert(successors(blocks, id).contains(rest[k] as int));
            assert(marked[id]);
        }
    }
}

/// After marking a pending block and adding its successors, the successors
/// of marked blocks are still marked or pending.
proof fn lemma_mark_closed(
    blocks: Seq<BasicBlock>,
    marks: Seq<bool>,
    pending: Seq<usize>,
    next: Seq<usize>,
)
    requires
        blocks.len() <= usize::MAX,
        marks.len() == blocks.len(),
        pending.len() > 0,
        pending.last() < blocks.len(),
        next.map_values(|t: usize| t as int) == successors(blocks, pending.last() as int),
        closed_or_pending(blocks, marks, pending),
    ensures
        closed_or_pending(blocks, marks.update(pending.last() as int, true), pending.drop_last() + next),
{
    let id = pending.last() as int;
    let marked = marks.update(id, true);
    let rest = pending.drop_last() + next;
    let n = pending.len() - 1;
    assert forall|m: int, k: int|
        0 <= m < blocks.len() && #[trigger] marked[m] && 0 <= k < successors(blocks, m).len() && 0
            <= successors(blocks, m)[k] < blocks.len() implies marked[#[trigger] successors(blocks, m)[k]]
            || rest.contains(successors(blocks, m)[k] as usize) by {
        let s = successors(blocks, m)[k];
        if m == id {
            assert(next.map_values(|t: usize| t as int)[k] == next[k] as int);
            assert(rest[n + k] == s as usize);
        } else {
            assert(marks[m]);
            if !marks[s] && s != id {
                let w = choose|w: int| 0 <= w < pending.len() && pending[w] == s as usize;
                if w == n {
                    assert(pending[w] == pending.last());
                    assert(false);
                }
                assert(rest[w] == pending[w]);
            }
        }
    }
    if blocks.len() > 0 && !marked[0] {
        let w = choose|w: int| 0 <= w < pending.len() && pending[w] == 0;
        if w == n {
            assert(pending[w] == pending.last());
            assert(false);
        }
        assert(rest[w] == pending[w]);
    }
}

/// Marks the blocks control can reach from the entry block.
fn reachable_marks(blocks: &Vec<BasicBlock>) -> (marks: Vec<bool>)
    ensures
        marks@.len() == blocks@.len(),
        forall|i: int| 0 <= i < blocks@.len() ==> (#[trigger] marks@[i] <==> reachable_block(blocks@, i)),
{
    let n = blocks.len();
    let mut marks: Vec<bool> = Vec::new();
    while marks.len() < n
        invariant
            marks@.len() <= n,
            forall|i: int| 0 <= i < marks@.len() ==> !marks@[i],
        decreases n - marks@.len(),
    {
        marks.push(false);
    }
    let mut pending: Vec<usize> = vec![0];
    assert(pending@.contains(0)) by {
        assert(pending@[0] == 0);
    }
    while pending.len() > 0
        invariant
            n == blocks@.len(),
            marks@.len() == n,
            marks_sound(blocks@, marks@),
            pending_sound(blocks@, marks@, pending@),
            closed_or_pending(blocks@, marks@, pending@),
        decreases 3 * count_unmarked(marks@) + pending@.len(),
    {
        let ghost old_pending = pending@;
        let ghost old_marks = marks@;
        let id = pending.pop().unwrap();
        assert(old_pending.drop_last() == pending@);
        if id < n && !marks[id] {
            proof {
                lemma_mark_decreases(marks@, id as int);
            }
            marks.set(id, true);
            let next = successor_list(blocks, id);
            proof {
                lemma_mark_reachable(blocks@, old_marks, old_pending);
                lemma_mark_pending(blocks@, old_marks, old_pending, next@);
                lemma_mark_closed(blocks@, old_marks, old_pending, next@);
            }
            let ghost start = pending@;
            let mut j: usize = 0;
            while j < next.len()
                invariant
                    j <= next@.len(),
                    pending@ == start + next@.subrange(0, j as int),
                decreases next@.len() - j,
            {
                pending.push(next[j]);
                j = j + 1;
                assert(pending@ =~= start + next@.subrange(0, j as int));
            }
            assert(next@.subrange(0, next@.len() as int) =~= next@);
        } else {
            proof {
                lemma_skip(blocks@, marks@, old_pending);
            }
        }
    }
    proof {
        assert forall|i: int| 0 <= i < n && reachable_block(blocks@, i) implies #[trigger] marks@[i] by {
            let path = choose|path: Seq<int>| is_path(blocks@, path) && path.last() == i;
            lemma_closed_holds_reachable(blocks@, marks@, path);
        }
    }
    marks
}

fn renumber(target: usize, remap: &Vec<usize>) -> (r: usize)
    ensures
        r == renumbered(target, remap@),
{
    if target < remap.len() {
        remap[target]
    } else {
        target
    }
}

/// Drops the blocks control cannot reach from the entry block and numbers
/// the others from zero, in their order, renumbering branch and jump targets.
pub fn prune_unreachable_blocks(function: &mut IrFunction)
    ensures
        final(function).name == old(function).name,
        final(function).return_type == old(function).return_type,
        final(function).parameters == old(function).parameters,
        final(function).locals == old(function).locals,
        exists|remap: Seq<usize>| pruned(old(function).blocks@, final(function).blocks@, remap),
{
    let marks = reachable_marks(&function.blocks);
    let mut source: Vec<BasicBlock> = Vec::new();
    std::mem::swap(&mut source, &mut function.blocks);
    let ghost original = source@;
    let n = source.len();
    let mut remap: Vec<usize> = Vec::new();
    while remap.len() < n
        invariant
            remap@.len() <= n,
            forall|i: int| 0 <= i < remap@.len() ==> remap@[i] == usize::MAX,
        decreases n - remap@.len(),
    {
        remap.push(usize::MAX);
    }
    let mut kept: Vec<BasicBlock> = Vec::new();
    let ghost mut origin: Seq<int> = Seq::empty();
    let mut i: usize = 0;
    while i < n
        invariant
            n == original.len(),
            source@.len() == n,
            marks@.len() == n,
            remap@.len() == n,
            forall|k: int| 0 <= k < n ==> (#[trigger] marks@[k] <==> reachable_block(original, k)),
            forall|k: int| i <= k < n ==> #[trigger] source@[k] == original[k],
            forall|k: int| i <= k < n ==> #[trigger] remap@[k] == usize::MAX,
            i <= n,
            kept@.len() <= i,
            forall|k: int| 0 <= k < i && !marks@[k] ==> #[trigger] remap@[k] == usize::MAX,
            forall|k: int|
                0 <= k < i && #[trigger] marks@[k] ==> remap@[k] < kept@.len() && kept@[remap@[k] as int]
                    == original[k],
            forall|a: int, b: int|
                0 <= a < b < i && marks@[a] && marks@[b] ==> #[trigger] remap@[a] < #[trigger] remap@[b],
            origin.len() == kept@.len(),
            forall|q: int|
                0 <= q < kept@.len() ==> 0 <= #[trigger] origin[q] < i && marks@[origin[q]] && remap@[origin[q]] == q,
        decreases n - i,
    {
        if marks[i] {
            let mut block = BasicBlock { id: 0, instructions: Vec::new() };
            std::mem::swap(&mut block, &mut source[i]);
            let ghost old_remap = remap@;
            let ghost old_kept = kept@;
            remap.set(i, kept.len());
            kept.push(block);
            proof {
                origin = origin.push(i as int);
            }
        }
        i = i + 1;
    }
    let ghost gathered = kept@;
    let mut j: usize = 0;
    while j < kept.len()
        invariant
            kept@.len() == gathered.len(),
            forall|q: int| j <= q < kept@.len() ==> #[trigger] kept@[q] == gathered[q],
            forall|q: int|
                0 <= q < j ==> (#[trigger] kept@[q]).id == q && kept@[q].instructions@
                    == gathered[q].instructions@.map_values(|instruction: Instruction| retarget(instruction, remap@)),
        decreases kept@.len() - j,
    {
        let mut block = BasicBlock { id: 0, instructions: Vec::new() };
        std::mem::swap(&mut block, &mut kept[j]);
        let ghost before = block.instructions@;
        let mut k: usize = 0;
        while k < block.instructions.len()
            invariant
                block.instructions@.len() == before.len(),
                forall|x: int| k <= x < before.len() ==> #[trigger] block.instructions@[x] == before[x],
                forall|x: int|
                    0 <= x < k ==> #[trigger] block.instructions@[x] == retarget(before[x], remap@),
            decreases before.len() - k,
        {
            let replacement = match &block.instructions[k] {
                Instruction::Branch { then_block, else_block } => Some(
                    Instruction::Branch {
                        then_block: renumber(*then_block, &remap),
                        else_block: renumber(*else_block, &remap),
                    },
                ),
                Instruction::Jump { target } => Some(Instruction::Jump { target: renumber(*target, &remap) }),
                _ => None,
            };
            match replacement {
                Some(instruction) => {
                    block.instructions.set(k, instruction);
                },
                None => {},
            }
            k = k + 1;
        }
        assert(block.instructions@ =~= before.map_values(|instruction: Instruction| retarget(instruction, remap@)));
        block.id = j;
        kept.set(j, block);
        j = j + 1;
    }
    function.blocks = kept;
    proof {
        let after = function.blocks@;
        assert forall|a: int| 0 <= a < n implies (reachable_block(original, a) <==> #[trigger] remap@[a]
            < after.len()) by {
            if !marks@[a] {
                assert(remap@[a] == usize::MAX);
            }
        }
        assert forall|a: int| 0 <= a < n && #[trigger] remap@[a] < after.len() implies {
            let block = after[remap@[a] as int];
            &&& block.id == remap@[a]
            &&& block.instructions@ == original[a].instructions@.map_values(
                |instruction: Instruction| retarget(instruction, remap@),
            )
        } by {
            assert(marks@[a]);
            assert(gathered[remap@[a] as int] == original[a]);
        }
        assert forall|q: int| 0 <= q < after.len() implies (#[trigger] after[q]).id == q && exists|a: int|
            0 <= a < original.len() && #[trigger] remap@[a] == q by {
            assert(after.len() == gathered.len());
            assert(0 <= origin[q] < n);
            assert(remap@[origin[q]] == q);
        }
        assert(pruned(original, after, remap@));
    }
}

/// Runs the optimization passes on one function: constant folding in every
/// block, then pruning of unreachable blocks.
pub fn optimize_function(function: &mut IrFunction)
    ensures
        final(function).name == old(function).name,
        final(function).return_type == old(function).return_type,
        final(function).parameters == old(function).parameters,
        final(function).locals == old(function).locals,
        exists|folded: Seq<BasicBlock>, remap: Seq<usize>|
            {
                &&& folded.len() == old(function).blocks@.len()
                &&& forall|i: int|
                    0 <= i < folded.len() ==> (#[trigger] folded[i]).id == old(function).blocks@[i].id
                        && folded[i].instructions@ == fold_all(old(function).blocks@[i].instructions@)
                &&& pruned(folded, final(function).blocks@, remap)
            },
{
    let ghost original = function.blocks@;
    let mut i: usize = 0;
    while i < function.blocks.len()
        invariant
            function.blocks@.len() == original.len(),
            function.name == old(function).name,
            function.return_type == old(function).return_type,
            function.parameters == old(function).parameters,
            function.locals == old(function).locals,
            forall|k: int| i <= k < original.len() ==> #[trigger] function.blocks@[k] == original[k],
            forall|k: int|
                0 <= k < i ==> (#[trigger] function.blocks@[k]).id == original[k].id
                    && function.blocks@[k].instructions@ == fold_all(original[k].instructions@),
        decreases original.len() - i,
    {
        let mut block = BasicBlock { id: 0, instructions: Vec::new() };
        std::mem::swap(&mut block, &mut function.blocks[i]);
        fold_instruction_constants(&mut block.instructions);
        function.blocks.set(i, block);
        i = i + 1;
    }
    let ghost folded = function.blocks@;
    prune_unreachable_blocks(function);
    proof {
        let remap = choose|remap: Seq<usize>| pruned(folded, function.blocks@, remap);
        assert(pruned(folded, function.blocks@, remap));
    }
}

// ---------------------------------------------------------------------------
// The shape of pruned code.

/// Branches and jumps end their blocks and name blocks that exist.
pub open spec fn jumps_well_placed(blocks: Seq<BasicBlock>) -> bool {
    forall|b: int, k: int|
        0 <= b < blocks.len() && 0 <= k < blocks[b].instructions@.len() ==> {
            let instruction = #[trigger] blocks[b].instructions@[k];
            &&& (instruction is Branch || instruction is Jump) ==> k == blocks[b].instructions@.len() - 1
            &&& (instruction matches Instruction::Branch { then_block, else_block } ==> then_block < blocks.len()
                && else_block < blocks.len())
            &&& (instruction matches Instruction::Jump { target } ==> target < blocks.len())
        }
}

/// A body that control runs through from its entry: it has blocks, block
/// `i` is numbered `i`, branches and jumps end their blocks and name blocks
/// that exist, and every block can be reached from the entry.
pub open spec fn blocks_well_formed(blocks: Seq<BasicBlock>) -> bool {
    &&& blocks.len() > 0
    &&& forall|i: int| 0 <= i < blocks.len() ==> (#[trigger] blocks[i]).id == i
    &&& jumps_well_placed(blocks)
    &&& forall|i: int| 0 <= i < blocks.len() ==> #[trigger] reachable_block(blocks, i)
}

proof fn lemma_path_extends(blocks: Seq<BasicBlock>, path: Seq<int>, next: int)
    requires
        is_path(blocks, path),
        0 <= path.last() < blocks.len(),
        successors(blocks, path.last()).contains(next),
    ensures
        is_path(blocks, path.push(next)),
{
    let longer = path.push(next);
    assert forall|k: int| 0 <= k < longer.len() - 1 implies 0 <= #[trigger] longer[k] < blocks.len()
        && successors(blocks, longer[k]).contains(longer[k + 1]) by {
        if k < path.len() - 1 {
            assert(longer[k] == path[k] && longer[k + 1] == path[k + 1]);
        } else {
            assert(longer[k] == path.last() && longer[k + 1] == next);
        }
    }
}

proof fn lemma_path_shortens(blocks: Seq<BasicBlock>, path: Seq<int>)
    requires
        is_path(blocks, path),
        path.len() > 1,
    ensures
        is_path(blocks, path.drop_last()),
        0 <= path.drop_last().last() < blocks.len(),
        successors(blocks, path.drop_last().last()).contains(path.last()),
{
    let shorter = path.drop_last();
    assert forall|k: int| 0 <= k < shorter.len() - 1 implies 0 <= #[trigger] shorter[k] < blocks.len()
        && successors(blocks, shorter[k]).contains(shorter[k + 1]) by {
        assert(shorter[k] == path[k] && shorter[k + 1] == path[k + 1]);
    }
    assert(shorter.last() == path[path.len() - 2]);
}

/// Pruning keeps the entry block first.
proof fn lemma_pruned_entry(before: Seq<BasicBlock>, after: Seq<BasicBlock>, remap: Seq<usize>)
    requires
        pruned(before, after, remap),
        before.len() > 0,
    ensures
        reachable_block(before, 0),
        remap[0] == 0,
        after.len() > 0,
{
    let entry = seq![0int];
    assert(is_path(before, entry));
    assert(entry.last() == 0);
    assert(reachable_block(before, 0));
    assert(remap[0] < after.len());
    assert(after[0].id == 0);
    if remap[0] != 0 {
        let i = choose|i: int| 0 <= i < before.len() && #[trigger] remap[i] == 0;
        assert(remap[i] < after.len());
        assert(i != 0);
        assert(remap[0] < remap[i]);
    }
}

/// Two neighbouring blocks that are both kept stay neighbours.
proof fn lemma_pruned_neighbours(before: Seq<BasicBlock>, after: Seq<BasicBlock>, remap: Seq<usize>, m: int)
    requires
        pruned(before, after, remap),
        0 <= m,
        m + 1 < before.len(),
        remap[m] < after.len(),
        remap[m + 1] < after.len(),
    ensures
        remap[m + 1] == remap[m] + 1,
{
    assert(remap[m] < remap[m + 1]);
    if remap[m + 1] > remap[m] + 1 {
        let k = remap[m] + 1;
        assert(0 <= k < after.len());
        assert(after[k].id == k);
        let i = choose|i: int| 0 <= i < before.len() && #[trigger] remap[i] == k;
        assert(remap[i] < after.len());
        if i < m {
            assert(remap[i] < remap[m]);
        } else if i > m + 1 {
            assert(remap[m + 1] < remap[i]);
        }
    }
}

/// An edge between kept blocks is an edge between their new numbers.
proof fn lemma_pruned_edge(before: Seq<BasicBlock>, after: Seq<BasicBlock>, remap: Seq<usize>, m: int, next: int)
    requires
        pruned(before, after, remap),
        jumps_well_placed(before),
        0 <= m < before.len(),
        remap[m] < after.len(),
        0 <= next < before.len(),
        remap[next] < after.len(),
        successors(before, m).contains(next),
    ensures
        successors(after, remap[m] as int).contains(remap[next] as int),
{
    let code = before[m].instructions@;
    let moved = after[remap[m] as int];
    assert(moved.instructions@ == code.map_values(|instruction: Instruction| retarget(instruction, remap)));
    if code.len() == 0 {
        assert(next == m + 1);
        lemma_pruned_neighbours(before, after, remap, m);
        assert(moved.instructions@.len() == 0);
        assert(successors(after, remap[m] as int) =~= seq![remap[m] + 1]);
        assert(successors(after, remap[m] as int)[0] == remap[next] as int);
    } else {
        let n = code.len() - 1;
        let last = code[n];
        assert(moved.instructions@.last() == retarget(last, remap));
        assert(code.last() == last);
        assert(before[m].instructions@[n] == last);
        match last {
            Instruction::Branch { then_block, else_block } => {
                assert(then_block < before.len() && else_block < before.len());
                assert(successors(after, remap[m] as int) =~= seq![
                    remap[then_block as int] as int,
                    remap[else_block as int] as int,
                ]);
                if next == then_block {
                    assert(successors(after, remap[m] as int)[0] == remap[next] as int);
                } else {
                    assert(successors(before, m) =~= seq![then_block as int, else_block as int]);
                    assert(next == else_block);
                    assert(successors(after, remap[m] as int)[1] == remap[next] as int);
                }
            },
            Instruction::Jump { target } => {
                assert(target < before.len());
                assert(successors(before, m) =~= seq![target as int]);
                assert(successors(after, remap[m] as int) =~= seq![remap[target as int] as int]);
                assert(successors(after, remap[m] as int)[0] == remap[next] as int);
            },
            Instruction::Return { .. } => {
                assert(successors(before, m) =~= Seq::<int>::empty());
            },
            _ => {
                assert(retarget(last, remap) == last);
                assert(successors(before, m) =~= seq![m + 1]);
                assert(next == m + 1);
                lemma_pruned_neighbours(before, after, remap, m);
                assert(successors(after, remap[m] as int) =~= seq![remap[m] + 1]);
                assert(successors(after, remap[m] as int)[0] == remap[next] as int);
            },
        }
    }
}

/// A block reachable before pruning is reachable, under its new number,
/// after it.
proof fn lemma_pruned_reachable(before: Seq<BasicBlock>, after: Seq<BasicBlock>, remap: Seq<usize>, path: Seq<int>)
    requires
        pruned(before, after, remap),
        jumps_well_placed(before),
        before.len() > 0,
        is_path(before, path),
        0 <= path.last() < before.len(),
    ensures
        reachable_block(before, path.last()),
        remap[path.last()] < after.len(),
        reachable_block(after, remap[path.last()] as int),
    decreases path.len(),
{
    lemma_pruned_entry(before, after, remap);
    assert(reachable_block(before, path.last()));
    if path.len() == 1 {
        assert(path.last() == 0);
        assert(is_path(after, seq![0int]));
    } else {
        lemma_path_shortens(before, path);
        let shorter = path.drop_last();
        let m = shorter.last();
        lemma_pruned_reachable(before, after, remap, shorter);
        let q = choose|q: Seq<int>| is_path(after, q) && q.last() == remap[m] as int;
        lemma_pruned_edge(before, after, remap, m, path.last());
        lemma_path_extends(after, q, remap[path.last()] as int);
        assert(q.push(remap[path.last()] as int).last() == remap[path.last()] as int);
    }
}

/// Pruning gives a well-formed body: its blocks are numbered in order,
/// branches and jumps end their blocks and name kept blocks, and every
/// block can be reached from the entry. What it needs of the code before
/// pruning is only that branches and jumps end their blocks and name
/// blocks that exist.
pub proof fn lemma_pruning_gives_well_formed_blocks(before: Seq<BasicBlock>, after: Seq<BasicBlock>, remap: Seq<usize>)
    requires
        pruned(before, after, remap),
        before.len() > 0,
        jumps_well_placed(before),
    ensures
        blocks_well_formed(after),
{
    lemma_pruned_entry(before, after, remap);
    assert forall|k: int| 0 <= k < after.len() implies #[trigger] reachable_block(after, k) by {
        let i = choose|i: int| 0 <= i < before.len() && #[trigger] remap[i] == k;
        assert(after[k].id == k);
        assert(remap[i] < after.len());
        assert(reachable_block(before, i));
        let path = choose|path: Seq<int>| is_path(before, path) && path.last() == i;
        lemma_pruned_reachable(before, after, remap, path);
    }
    assert forall|b: int, k: int| 0 <= b < after.len() && 0 <= k < after[b].instructions@.len() implies {
        let instruction = #[trigger] after[b].instructions@[k];
        &&& (instruction is Branch || instruction is Jump) ==> k == after[b].instructions@.len() - 1
        &&& (instruction matches Instruction::Branch { then_block, else_block } ==> then_block < after.len()
            && else_block < after.len())
        &&& (instruction matches Instruction::Jump { target } ==> target < after.len())
    } by {
        assert(after[b].id == b);
        let i = choose|i: int| 0 <= i < before.len() && #[trigger] remap[i] == b;
        assert(remap[i] < after.len());
        assert(reachable_block(before, i));
        let code = before[i].instructions@;
        assert(after[b].instructions@ == code.map_values(|instruction: Instruction| retarget(instruction, remap)));
        let original = code[k];
        assert(before[i].instructions@[k] == original);
        assert(after[b].instructions@[k] == retarget(original, remap));
        let path = choose|path: Seq<int>| is_path(before, path) && path.last() == i;
        match original {
            Instruction::Branch { then_block, else_block } => {
                assert(k == code.len() - 1);
                assert(code.last() == original);
                assert(successors(before, i) =~= seq![then_block as int, else_block as int]);
                assert(successors(before, i)[0] == then_block as int);
                assert(successors(before, i)[1] == else_block as int);
                lemma_path_extends(before, path, then_block as int);
                lemma_path_extends(before, path, else_block as int);
                lemma_pruned_reachable(before, after, remap, path.push(then_block as int));
                lemma_pruned_reachable(before, after, remap, path.push(else_block as int));
                assert(path.push(then_block as int).last() == then_block as int);
                assert(path.push(else_block as int).last() == else_block as int);
            },
            Instruction::Jump { target } => {
                assert(k == code.len() - 1);
                assert(code.last() == original);
                assert(successors(before, i) =~= seq![target as int]);
                assert(successors(before, i)[0] == target as int);
                lemma_path_extends(before, path, target as int);
                lemma_pruned_reachable(before, after, remap, path.push(target as int));
                assert(path.push(target as int).last() == target as int);
            },
            _ => {},
        }
    }
}

// ---------------------------------------------------------------------------
// Volatile accesses.

/// Whether an instruction reads or writes memory through a `volatile`
/// pointer.
pub open spec fn is_volatile_access(instruction: Instruction) -> bool {
    match instruction {
        Instruction::Load { volatile, .. } => volatile,
        Instruction::Store { volatile, .. } => volatile,
        Instruction::Unary { volatile, .. } => volatile,
        _ => false,
    }
}

/// The volatile accesses of an instruction sequence, in order.
pub open spec fn volatile_accesses(instructions: Seq<Instruction>) -> Seq<Instruction>
    decreases instructions.len(),
{
    if instructions.len() == 0 {
        Seq::empty()
    } else {
        let earlier = volatile_accesses(instructions.drop_last());
        if is_volatile_access(instructions.last()) {
            earlier.push(instructions.last())
        } else {
            earlier
        }
    }
}

proof fn lemma_volatile_accesses_push(instructions: Seq<Instruction>, instruction: Instruction)
    ensures
        volatile_accesses(instructions.push(instruction)) == if is_volatile_access(instruction) {
            volatile_accesses(instructions).push(instruction)
        } else {
            volatile_accesses(instructions)
        },
{
    assert(instructions.push(instruction).drop_last() =~= instructions);
}

/// Constant folding never merges, reorders or drops a volatile access: the
/// volatile accesses of the folded code are those of the original, in the
/// same order.
pub proof fn lemma_folding_keeps_volatile_accesses(instructions: Seq<Instruction>)
    ensures
        volatile_accesses(fold_all(instructions)) == volatile_accesses(instructions),
    decreases instructions.len(),
{
    if instructions.len() > 0 {
        let earlier = instructions.drop_last();
        let last = instructions.last();
        lemma_folding_keeps_volatile_accesses(earlier);
        let folded = fold_all(earlier);
        let n = folded.len();
        lemma_volatile_accesses_push(folded, last);
        match last {
            Instruction::Binary { operator, .. } => {
                if n >= 2 && folded[n - 2] is Constant && folded[n - 1] is Constant {
                    match constant_value(operator, constant_of(folded[n - 2]), constant_of(folded[n - 1])) {
                        Some(v) => {
                            let kept = folded.subrange(0, n - 2);
                            lemma_volatile_accesses_push(kept, Instruction::Constant(v));
                            assert(folded.drop_last().drop_last() =~= kept);
                            assert(folded.drop_last().last() == folded[n - 2]);
                            assert(folded.last() == folded[n - 1]);
                            assert(volatile_accesses(folded) == volatile_accesses(folded.drop_last()));
                            assert(volatile_accesses(folded.drop_last()) == volatile_accesses(kept));
                            assert(fold_all(instructions) == kept.push(Instruction::Constant(v)));
                        },
                        None => {},
                    }
                }
            },
            _ => {},
        }
    }
}

/// Renumbering block targets leaves the volatile accesses untouched.
proof fn lemma_retarget_keeps_volatile_accesses(instructions: Seq<Instruction>, remap: Seq<usize>)
    ensures
        volatile_accesses(instructions.map_values(|instruction: Instruction| retarget(instruction, remap)))
            == volatile_accesses(instructions),
    decreases instructions.len(),
{
    if instructions.len() > 0 {
        let earlier = instructions.drop_last();
        lemma_retarget_keeps_volatile_accesses(earlier, remap);
        let mapped = instructions.map_values(|instruction: Instruction| retarget(instruction, remap));
        assert(mapped.drop_last() =~= earlier.map_values(
            |instruction: Instruction| retarget(instruction, remap),
        ));
    }
}

/// The optimizer never merges, reorders or drops a volatile access of a
/// reachable block: each block that survives optimization performs the
/// volatile accesses of its original, in the same order.
pub proof fn lemma_optimization_keeps_volatile_accesses(
    before: Seq<BasicBlock>,
    folded: Seq<BasicBlock>,
    after: Seq<BasicBlock>,
    remap: Seq<usize>,
    i: int,
)
    requires
        folded.len() == before.len(),
        forall|k: int|
            0 <= k < folded.len() ==> (#[trigger] folded[k]).instructions@ == fold_all(before[k].instructions@),
        pruned(folded, after, remap),
        0 <= i < before.len(),
        reachable_block(folded, i),
    ensures
        remap[i] < after.len(),
        volatile_accesses(after[remap[i] as int].instructions@) == volatile_accesses(before[i].instructions@),
{
    assert(remap[i] < after.len());
    lemma_retarget_keeps_volatile_accesses(folded[i].instructions@, remap);
    lemma_folding_keeps_volatile_accesses(before[i].instructions@);
}

} // verus!
