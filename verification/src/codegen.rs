//! x86-64 code generation from K's typed IR.
//!
//! The backend walks the virtual stack machine of the IR and emits Intel
//! syntax assembly: every value lives in a 64-bit stack slot, locals live
//! below `rbp`, and fixed-width memory accesses pick their operand size from
//! the IR type. The text emitted for each instruction is stated below as a
//! spec function, and every emitting function is proved to produce exactly
//! that text.

use vstd::prelude::*;

use crate::ast::{BinaryOperator, Program, UnaryOperator, copy_bytes, copy_string};
use crate::ir::{BasicBlock, Instruction, IrFunction, IrType, Local, StructLayout, TypedProgram, lower, lowering_of, sorted_by_name};
use crate::sema::{SemanticError, report, semantic_report};
use crate::target::Target;
use crate::text::{decimal, lemma_decimal_injective, signed_decimal, str_equal, text, push_decimal, push_signed_decimal};

verus! {

/// A code generation failure, such as a construct the backend cannot lower
/// on the selected target.
#[derive(Clone, Debug, PartialEq, Eq)]
pub struct CodegenError {
    pub message: String,
}

impl CodegenError {
    /// The diagnostic text: `code generation error: message`.
    pub fn to_string(&self) -> (r: String)
        ensures
            r@ == "code generation error: "@ + self.message@,
    {
        let mut out = text("code generation error: ");
        out.append(self.message.as_str());
        out
    }
}

// ---------------------------------------------------------------------------
// Operand sizes.

/// The size keyword of a memory operand of this type.
pub open spec fn width_name(ty: IrType) -> Seq<char> {
    match ty {
        IrType::Char | IrType::U8 | IrType::Bool => "BYTE"@,
        IrType::U16 => "WORD"@,
        IrType::U32 | IrType::I32 => "DWORD"@,
        _ => "QWORD"@,
    }
}

/// The register a load of this type writes.
pub open spec fn load_register(ty: IrType) -> Seq<char> {
    match ty {
        IrType::Char | IrType::U8 | IrType::Bool | IrType::U16 | IrType::U32 => "eax"@,
        _ => "rax"@,
    }
}

/// The register a store of this type reads.
pub open spec fn store_register(ty: IrType) -> Seq<char> {
    match ty {
        IrType::Char | IrType::U8 | IrType::Bool => "al"@,
        IrType::U16 => "ax"@,
        IrType::U32 | IrType::I32 => "eax"@,
        _ => "rax"@,
    }
}

/// The instruction a load of this type uses: narrow unsigned values are zero
/// extended, `i32` is sign extended.
pub open spec fn load_mnemonic(ty: IrType) -> Seq<char> {
    match ty {
        IrType::Char | IrType::U8 | IrType::Bool | IrType::U16 => "movzx"@,
        IrType::I32 => "movsxd"@,
        _ => "mov"@,
    }
}

/// Loads a value of type `ty` from `address` and pushes it.
pub open spec fn load_text(address: Seq<char>, ty: IrType) -> Seq<char> {
    "  "@ + load_mnemonic(ty) + " "@ + load_register(ty) + ", "@ + width_name(ty) + " PTR "@ + address
        + "\n  push rax\n"@
}

/// Stores the value in `rax` as a value of type `ty` at `address`.
pub open spec fn store_text(address: Seq<char>, ty: IrType) -> Seq<char> {
    "  mov "@ + width_name(ty) + " PTR "@ + address + ", "@ + store_register(ty) + "\n"@
}

/// The memory operand of a stack slot.
pub open spec fn slot_address(offset: int) -> Seq<char> {
    "[rbp-"@ + signed_decimal(offset) + "]"@
}

/// The bytes a value of this type takes in a cast: narrow types by width,
/// everything else a machine word.
pub open spec fn cast_width(ty: IrType) -> int {
    match ty {
        IrType::Char | IrType::U8 | IrType::Bool => 1,
        IrType::U16 => 2,
        IrType::U32 | IrType::I32 => 4,
        _ => 8,
    }
}

/// The instruction that truncates `rax` to a narrow type and extends it back
/// to a machine word.
pub open spec fn truncation(ty: IrType) -> Seq<char> {
    match ty {
        IrType::U16 => "movzx eax, ax"@,
        IrType::U32 => "mov eax, eax"@,
        IrType::I32 => "movsxd rax, eax"@,
        _ => "movzx eax, al"@,
    }
}

/// Whether right shifts of this type keep the sign.
pub open spec fn is_signed(ty: IrType) -> bool {
    match ty {
        IrType::Int | IrType::I32 | IrType::I64 => true,
        _ => false,
    }
}

/// The argument registers of the System V calling convention.
pub open spec fn argument_register(index: int) -> Seq<char> {
    if index == 0 {
        "rdi"@
    } else if index == 1 {
        "rsi"@
    } else if index == 2 {
        "rdx"@
    } else if index == 3 {
        "rcx"@
    } else if index == 4 {
        "r8"@
    } else {
        "r9"@
    }
}

/// Pops the top `count` stack values into the first `count` argument
/// registers, the last argument first.
pub open spec fn pop_arguments(count: nat) -> Seq<char>
    decreases count,
{
    if count == 0 {
        Seq::empty()
    } else {
        "  pop "@ + argument_register(count - 1) + "\n"@ + pop_arguments((count - 1) as nat)
    }
}

/// The comparison condition code of an operator.
pub open spec fn condition_code(operator: BinaryOperator) -> Seq<char> {
    match operator {
        BinaryOperator::Equal => "e"@,
        BinaryOperator::NotEqual => "ne"@,
        BinaryOperator::Less => "l"@,
        BinaryOperator::LessEqual => "le"@,
        BinaryOperator::Greater => "g"@,
        _ => "ge"@,
    }
}

/// Combines `rax` (left) and `rdi` (right) into `rax`.
pub open spec fn binary_text(operator: BinaryOperator, ty: IrType) -> Seq<char> {
    match operator {
        BinaryOperator::Add => "  add rax, rdi\n"@,
        BinaryOperator::Subtract => "  sub rax, rdi\n"@,
        BinaryOperator::Multiply => "  imul rax, rdi\n"@,
        BinaryOperator::Divide => "  cqo\n  idiv rdi\n"@,
        BinaryOperator::BitwiseAnd => "  and rax, rdi\n"@,
        BinaryOperator::BitwiseOr => "  or rax, rdi\n"@,
        BinaryOperator::BitwiseXor => "  xor rax, rdi\n"@,
        BinaryOperator::ShiftLeft => "  mov rcx, rdi\n  shl rax, cl\n"@,
        BinaryOperator::ShiftRight => if is_signed(ty) {
            "  mov rcx, rdi\n  sar rax, cl\n"@
        } else {
            "  mov rcx, rdi\n  shr rax, cl\n"@
        },
        _ => "  cmp rax, rdi\n  set"@ + condition_code(operator) + " al\n  movzx rax, al\n"@,
    }
}

/// The machine instructions of a kernel intrinsic, run after its arguments
/// were popped into the argument registers; the result is left in `rax`.
pub open spec fn intrinsic_code(name: Seq<char>) -> Option<Seq<char>> {
    if name == "outb"@ {
        Some("  mov rdx, rdi\n  mov rax, rsi\n  out dx, al\n"@)
    } else if name == "inb"@ {
        Some("  mov rdx, rdi\n  xor eax, eax\n  in al, dx\n"@)
    } else if name == "cli"@ {
        Some("  cli\n"@)
    } else if name == "sti"@ {
        Some("  sti\n"@)
    } else if name == "hlt"@ {
        Some("  hlt\n"@)
    } else if name == "pause"@ {
        Some("  pause\n"@)
    } else if name == "read_cr0"@ {
        Some("  mov rax, cr0\n"@)
    } else if name == "write_cr0"@ {
        Some("  mov cr0, rdi\n"@)
    } else if name == "read_cr2"@ {
        Some("  mov rax, cr2\n"@)
    } else if name == "read_cr3"@ {
        Some("  mov rax, cr3\n"@)
    } else if name == "write_cr3"@ {
        Some("  mov cr3, rdi\n"@)
    } else if name == "read_cr4"@ {
        Some("  mov rax, cr4\n"@)
    } else if name == "write_cr4"@ {
        Some("  mov cr4, rdi\n"@)
    } else if name == "lidt"@ {
        Some("  lidt [rdi]\n"@)
    } else if name == "sidt"@ {
        Some("  sidt [rdi]\n"@)
    } else if name == "invlpg"@ {
        Some("  invlpg [rdi]\n"@)
    } else if name == "rdmsr"@ {
        Some("  mov rcx, rdi\n  rdmsr\n  shl rdx, 32\n  or rax, rdx\n"@)
    } else if name == "wrmsr"@ {
        Some("  mov rcx, rdi\n  mov rax, rsi\n  mov rdx, rsi\n  shr rdx, 32\n  wrmsr\n"@)
    } else {
        None
    }
}

// ---------------------------------------------------------------------------
// Stack frames.

/// The size of the struct layout with this name (the last one, if named
/// twice).
pub open spec fn layout_size(structs: Seq<StructLayout>, name: Seq<char>) -> Option<i64>
    decreases structs.len(),
{
    if structs.len() == 0 {
        None
    } else if structs.last().name@ == name {
        Some(structs.last().size)
    } else {
        layout_size(structs.drop_last(), name)
    }
}

/// The bytes a local of this type takes in the frame: a struct its layout's
/// size, anything else one machine word.
pub open spec fn slot_size(ty: IrType, structs: Seq<StructLayout>) -> int {
    match ty {
        IrType::Struct(name) => match layout_size(structs, name@) {
            Some(size) => size as int,
            None => 8,
        },
        _ => 8,
    }
}

/// The bytes the locals take together; local `k` ends `frame_size` of the
/// first `k + 1` locals below `rbp`.
pub open spec fn frame_size(locals: Seq<Local>, structs: Seq<StructLayout>) -> int
    decreases locals.len(),
{
    if locals.len() == 0 {
        0
    } else {
        frame_size(locals.drop_last(), structs) + slot_size(locals.last().ty, structs)
    }
}

/// Every partial frame size is a 64-bit value.
pub open spec fn frame_fits(locals: Seq<Local>, structs: Seq<StructLayout>) -> bool {
    forall|k: int|
        0 <= k <= locals.len() ==> i64::MIN <= #[trigger] frame_size(locals.take(k), structs)
            <= i64::MAX
}

/// The offset below `rbp` of the local with this name (the last one, if
/// named twice).
pub open spec fn slot_of(locals: Seq<Local>, structs: Seq<StructLayout>, name: Seq<char>) -> Option<int>
    decreases locals.len(),
{
    if locals.len() == 0 {
        None
    } else if locals.last().name@ == name {
        Some(frame_size(locals, structs))
    } else {
        slot_of(locals.drop_last(), structs, name)
    }
}

// ---------------------------------------------------------------------------
// Labels.

/// The label with this prefix and number.
pub open spec fn label_text(prefix: Seq<char>, number: nat) -> Seq<char> {
    ".L"@ + prefix + "_"@ + decimal(number)
}

/// Labels name one prefix and one number each: two labels whose prefixes
/// hold no underscore are the same only when their prefixes and their
/// numbers are. So labels numbered from one counter that only grows are
/// pairwise distinct.
pub proof fn lemma_labels_differ(p1: Seq<char>, k1: nat, p2: Seq<char>, k2: nat)
    requires
        !p1.contains('_'),
        !p2.contains('_'),
    ensures
        label_text(p1, k1) == label_text(p2, k2) <==> p1 == p2 && k1 == k2,
{
    reveal_strlit(".L");
    reveal_strlit("_");
    let a = label_text(p1, k1);
    let b = label_text(p2, k2);
    lemma_decimal_injective(k1, k2);
    if a == b {
        assert(a[2 + p1.len() as int] == '_');
        assert(b[2 + p2.len() as int] == '_');
        if p1.len() < p2.len() {
            assert(b[2 + p1.len() as int] == p2[p1.len() as int]);
            assert(p2.contains(p2[p1.len() as int]));
        } else if p2.len() < p1.len() {
            assert(a[2 + p2.len() as int] == p1[p2.len() as int]);
            assert(p1.contains(p1[p2.len() as int]));
        }
        assert(p1 =~= a.subrange(2, 2 + p1.len() as int));
        assert(p2 =~= b.subrange(2, 2 + p2.len() as int));
        assert(decimal(k1) =~= a.subrange(3 + p1.len() as int, a.len() as int));
        assert(decimal(k2) =~= b.subrange(3 + p2.len() as int, b.len() as int));
    }
}

/// The number of blocks that get a label of their own (all but block zero,
/// which is labelled with the function's name).
pub open spec fn numbered_blocks(blocks: Seq<BasicBlock>) -> nat
    decreases blocks.len(),
{
    if blocks.len() == 0 {
        0
    } else {
        numbered_blocks(blocks.drop_last()) + if blocks.last().id == 0 {
            0nat
        } else {
            1nat
        }
    }
}

/// The labels of the blocks, in order, numbering from `first`.
pub open spec fn block_labels(name: Seq<char>, blocks: Seq<BasicBlock>, first: nat) -> Seq<Seq<char>>
    decreases blocks.len(),
{
    if blocks.len() == 0 {
        Seq::empty()
    } else {
        let earlier = blocks.drop_last();
        block_labels(name, earlier, first).push(
            if blocks.last().id == 0 {
                name
            } else {
                label_text("block"@, first + numbered_blocks(earlier))
            },
        )
    }
}

proof fn lemma_numbered_blocks_grow(blocks: Seq<BasicBlock>, i: int, j: int)
    requires
        0 <= i <= j <= blocks.len(),
    ensures
        numbered_blocks(blocks.take(i)) <= numbered_blocks(blocks.take(j)),
        i < j && blocks[i].id != 0 ==> numbered_blocks(blocks.take(i)) < numbered_blocks(blocks.take(j)),
    decreases j - i,
{
    if i < j {
        lemma_numbered_blocks_grow(blocks, i + 1, j);
        assert(blocks.take(i + 1).drop_last() =~= blocks.take(i));
        assert(blocks.take(i + 1).last() == blocks[i]);
    }
}

proof fn lemma_block_labels_shape(name: Seq<char>, blocks: Seq<BasicBlock>, first: nat)
    ensures
        block_labels(name, blocks, first).len() == blocks.len(),
        forall|i: int|
            0 <= i < blocks.len() ==> #[trigger] block_labels(name, blocks, first)[i] == if blocks[i].id == 0 {
                name
            } else {
                label_text("block"@, first + numbered_blocks(blocks.take(i)))
            },
    decreases blocks.len(),
{
    if blocks.len() > 0 {
        let earlier = blocks.drop_last();
        lemma_block_labels_shape(name, earlier, first);
        assert forall|i: int| 0 <= i < blocks.len() implies #[trigger] block_labels(name, blocks, first)[i] == if blocks[i].id == 0 {
            name
        } else {
            label_text("block"@, first + numbered_blocks(blocks.take(i)))
        } by {
            if i < earlier.len() {
                assert(blocks.take(i) =~= earlier.take(i));
                assert(blocks[i] == earlier[i]);
            } else {
                assert(blocks.take(i) =~= earlier);
            }
        }
    }
}

/// Within one function the blocks' labels are distinct: the entry block
/// takes the function's name, which is no local label, and every other
/// block a number of its own.
pub proof fn lemma_block_labels_distinct(name: Seq<char>, blocks: Seq<BasicBlock>, first: nat)
    requires
        forall|i: int| 0 <= i < blocks.len() ==> (#[trigger] blocks[i]).id == i,
        name.len() == 0 || name[0] != '.',
    ensures
        forall|i: int, j: int|
            0 <= i < j < blocks.len() ==> #[trigger] block_labels(name, blocks, first)[i] != #[trigger] block_labels(
                name,
                blocks,
                first,
            )[j],
{
    reveal_strlit(".L");
    reveal_strlit("block");
    lemma_block_labels_shape(name, blocks, first);
    assert forall|i: int, j: int| 0 <= i < j < blocks.len() implies #[trigger] block_labels(name, blocks, first)[i]
        != #[trigger] block_labels(name, blocks, first)[j] by {
        let labels = block_labels(name, blocks, first);
        assert(blocks[j].id == j && j != 0);
        let lj = label_text("block"@, first + numbered_blocks(blocks.take(j)));
        assert(labels[j] == lj);
        assert(lj[0] == '.');
        if i == 0 {
            assert(blocks[i].id == 0);
            assert(labels[i] == name);
            if name.len() == 0 {
                assert(lj.len() > 0);
            }
        } else {
            assert(blocks[i].id == i);
            lemma_numbered_blocks_grow(blocks, i, j);
            assert(!"block"@.contains('_'));
            lemma_labels_differ(
                "block"@,
                first + numbered_blocks(blocks.take(i)),
                "block"@,
                first + numbered_blocks(blocks.take(j)),
            );
        }
    }
}

/// Whether an instruction takes a label of its own (for its string data).
pub open spec fn takes_label(instruction: Instruction) -> bool {
    instruction is StringLiteral || instruction is PrintString
}

/// The labels a sequence of instructions takes.
pub open spec fn instruction_labels(instructions: Seq<Instruction>) -> nat
    decreases instructions.len(),
{
    if instructions.len() == 0 {
        0
    } else {
        instruction_labels(instructions.drop_last()) + if takes_label(instructions.last()) {
            1nat
        } else {
            0nat
        }
    }
}

/// The labels the instructions of a sequence of blocks take.
pub open spec fn block_instruction_labels(blocks: Seq<BasicBlock>) -> nat
    decreases blocks.len(),
{
    if blocks.len() == 0 {
        0
    } else {
        block_instruction_labels(blocks.drop_last()) + instruction_labels(blocks.last().instructions@)
    }
}

/// The labels a function takes: its return label, its numbered blocks and
/// its strings.
pub open spec fn function_labels(function: IrFunction) -> nat {
    1 + numbered_blocks(function.blocks@) + block_instruction_labels(function.blocks@)
}

/// The labels a sequence of functions takes.
pub open spec fn functions_labels(functions: Seq<IrFunction>) -> nat
    decreases functions.len(),
{
    if functions.len() == 0 {
        0
    } else {
        functions_labels(functions.drop_last()) + function_labels(functions.last())
    }
}

// ---------------------------------------------------------------------------
// Emission.

/// What the text of an instruction depends on besides the instruction.
pub struct Context {
    pub locals: Seq<Local>,
    pub structs: Seq<StructLayout>,
    pub labels: Seq<Seq<char>>,
    pub return_label: Seq<char>,
    pub target: Target,
    pub defined: Seq<Seq<char>>,
}

/// Code and data emitted for a piece of the program.
pub struct Emission {
    pub code: Seq<char>,
    pub data: Seq<char>,
}

/// The decimal list of a `.byte` directive.
pub open spec fn byte_list(bytes: Seq<u8>) -> Seq<char>
    decreases bytes.len(),
{
    if bytes.len() == 0 {
        Seq::empty()
    } else if bytes.len() == 1 {
        decimal(bytes[0] as nat)
    } else {
        byte_list(bytes.drop_last()) + ", "@ + decimal(bytes.last() as nat)
    }
}

/// The `.rodata` entry of labelled bytes.
pub open spec fn data_entry(label: Seq<char>, bytes: Seq<u8>) -> Seq<char> {
    label + ":\n  .byte "@ + byte_list(bytes) + "\n"@
}

/// A comment that marks a volatile access.
pub open spec fn volatile_note(volatile: bool, note: Seq<char>) -> Seq<char> {
    if volatile {
        note
    } else {
        Seq::empty()
    }
}

/// Code alone.
pub open spec fn code(text: Seq<char>) -> Result<Emission, Seq<char>> {
    Ok(Emission { code: text, data: Seq::empty() })
}

/// What one instruction emits, `number` being the next free label number;
/// or the message of the error that stops code generation.
pub open spec fn instruction_emission(instruction: Instruction, context: Context, number: nat) -> Result<
    Emission,
    Seq<char>,
> {
    match instruction {
        Instruction::Constant(value) => code("  push "@ + signed_decimal(value as int) + "\n"@),
        Instruction::StringLiteral(bytes) => if number < usize::MAX {
            let label = label_text("string"@, number);
            Ok(
                Emission {
                    code: "  lea rax, "@ + label + "[rip]\n  push rax\n"@,
                    data: data_entry(label, bytes@.push(0u8)),
                },
            )
        } else {
            Err("too many labels"@)
        },
        Instruction::PrintString(bytes) => if context.target != Target::X86_64SystemV {
            Err("print is only available on the Linux System V target"@)
        } else if number < usize::MAX {
            let label = label_text("string"@, number);
            Ok(
                Emission {
                    code: "  mov rax, 1\n  mov rdi, 1\n  lea rsi, "@ + label + "[rip]\n  mov rdx, "@
                        + decimal(bytes@.len()) + "\n  syscall\n  push rax\n"@,
                    data: data_entry(label, bytes@),
                },
            )
        } else {
            Err("too many labels"@)
        },
        Instruction::LoadLocal { name, ty } => match slot_of(context.locals, context.structs, name@) {
            Some(slot) => code(load_text(slot_address(slot), ty)),
            None => Err("unknown local"@),
        },
        Instruction::StoreLocal { name, ty } => match slot_of(context.locals, context.structs, name@) {
            Some(slot) => code("  pop rax\n"@ + store_text(slot_address(slot), ty)),
            None => Err("unknown local"@),
        },
        Instruction::AddressLocal { name, .. } => match slot_of(context.locals, context.structs, name@) {
            Some(slot) => code("  lea rax, "@ + slot_address(slot) + "\n  push rax\n"@),
            None => Err("unknown local"@),
        },
        Instruction::FieldAddress { offset, .. } => code(
            if offset == 0 {
                "  pop rax\n  push rax\n"@
            } else {
                "  pop rax\n  add rax, "@ + signed_decimal(offset as int) + "\n  push rax\n"@
            },
        ),
        Instruction::Load { ty, volatile } => code(
            volatile_note(volatile, "  ; volatile load\n"@) + "  pop rax\n"@ + load_text("[rax]"@, ty),
        ),
        Instruction::Store { ty, volatile } => code(
            volatile_note(volatile, "  ; volatile store\n"@) + "  pop rax\n  pop rdi\n"@ + store_text(
                "[rdi]"@,
                ty,
            ),
        ),
        Instruction::Scale { bytes } => code(
            "  pop rax\n  imul rax, "@ + signed_decimal(bytes as int) + "\n  push rax\n"@,
        ),
        Instruction::Cast { from, to } => code(
            if cast_width(to) < cast_width(from) {
                "  pop rax\n  "@ + truncation(to) + "\n  push rax\n"@
            } else {
                Seq::empty()
            },
        ),
        Instruction::Unary { operator, ty, volatile } => match operator {
            UnaryOperator::Negate => code("  pop rax\n  neg rax\n  push rax\n"@),
            UnaryOperator::BitwiseNot => code("  pop rax\n  not rax\n  push rax\n"@),
            UnaryOperator::Dereference => code(
                volatile_note(volatile, "  ; volatile load\n"@) + "  pop rax\n"@ + load_text("[rax]"@, ty),
            ),
            UnaryOperator::AddressOf => Err("address-of must be lowered as an address"@),
        },
        Instruction::Binary { operator, ty } => code(
            "  pop rdi\n  pop rax\n"@ + binary_text(operator, ty) + "  push rax\n"@,
        ),
        Instruction::Call { name, arguments, .. } => match intrinsic_code(name@) {
            Some(body) if !context.defined.contains(name@) => if context.target
                != Target::X86_64KrumpyOs {
                Err("intrinsic `"@ + name@ + "` is only available on the x86_64-krumpyos target"@)
            } else if arguments > 6 {
                Err("calls with more than six arguments are not supported"@)
            } else {
                code(pop_arguments(arguments as nat) + body + "  push rax\n"@)
            },
            _ => if arguments > 6 {
                Err("calls with more than six arguments are not supported"@)
            } else {
                code(pop_arguments(arguments as nat) + "  call "@ + name@ + "\n  push rax\n"@)
            },
        },
        Instruction::Pop => code("  add rsp, 8\n"@),
        Instruction::Branch { then_block, else_block } => if then_block < context.labels.len()
            && else_block < context.labels.len() {
            code(
                "  pop rax\n  test rax, rax\n  jne "@ + context.labels[then_block as int] + "\n  jmp "@
                    + context.labels[else_block as int] + "\n"@,
            )
        } else {
            Err("unknown block"@)
        },
        Instruction::Jump { target } => if target < context.labels.len() {
            code("  jmp "@ + context.labels[target as int] + "\n"@)
        } else {
            Err("unknown block"@)
        },
        Instruction::Return { has_value } => code(
            (if has_value {
                "  pop rax\n"@
            } else {
                Seq::empty()
            }) + "  jmp "@ + context.return_label + "\n"@,
        ),
    }
}

/// Joins two emissions; the first error wins.
pub open spec fn followed_by(first: Result<Emission, Seq<char>>, second: Result<Emission, Seq<char>>) -> Result<
    Emission,
    Seq<char>,
> {
    match first {
        Err(message) => Err(message),
        Ok(a) => match second {
            Err(message) => Err(message),
            Ok(b) => Ok(Emission { code: a.code + b.code, data: a.data + b.data }),
        },
    }
}

/// What a sequence of instructions emits, numbering labels from `number`.
pub open spec fn instructions_emission(instructions: Seq<Instruction>, context: Context, number: nat) -> Result<
    Emission,
    Seq<char>,
>
    decreases instructions.len(),
{
    if instructions.len() == 0 {
        Ok(Emission { code: Seq::empty(), data: Seq::empty() })
    } else {
        let earlier = instructions.drop_last();
        followed_by(
            instructions_emission(earlier, context, number),
            instruction_emission(instructions.last(), context, number + instruction_labels(earlier)),
        )
    }
}

/// What a block emits: its label (unless it is the entry block) and its
/// instructions.
pub open spec fn block_emission(block: BasicBlock, context: Context, number: nat) -> Result<Emission, Seq<char>> {
    if block.id == 0 {
        instructions_emission(block.instructions@, context, number)
    } else if block.id < context.labels.len() {
        followed_by(
            code(context.labels[block.id as int] + ":\n"@),
            instructions_emission(block.instructions@, context, number),
        )
    } else {
        Err("unknown block"@)
    }
}

/// What a sequence of blocks emits, numbering string labels from `number`.
pub open spec fn blocks_emission(blocks: Seq<BasicBlock>, context: Context, number: nat) -> Result<
    Emission,
    Seq<char>,
>
    decreases blocks.len(),
{
    if blocks.len() == 0 {
        Ok(Emission { code: Seq::empty(), data: Seq::empty() })
    } else {
        let earlier = blocks.drop_last();
        followed_by(
            blocks_emission(earlier, context, number),
            block_emission(blocks.last(), context, number + block_instruction_labels(earlier)),
        )
    }
}

/// The code that stores the incoming register arguments into the slots of
/// the first parameters' locals.
pub open spec fn parameter_stores(function: IrFunction, structs: Seq<StructLayout>, count: nat) -> Result<
    Emission,
    Seq<char>,
>
    decreases count,
{
    if count == 0 {
        Ok(Emission { code: Seq::empty(), data: Seq::empty() })
    } else {
        let index = count - 1;
        followed_by(
            parameter_stores(function, structs, index as nat),
            if index >= function.locals@.len() {
                Err("missing parameter local"@)
            } else if index >= 6 {
                Err("more than six parameters are not supported"@)
            } else {
                let local = function.locals@[index];
                let slot = slot_of(function.locals@, structs, local.name@).unwrap();
                code("  mov rax, "@ + argument_register(index) + "\n"@ + store_text(slot_address(slot), local.ty))
            },
        )
    }
}

/// The label context of a function.
pub open spec fn function_context(
    function: IrFunction,
    structs: Seq<StructLayout>,
    target: Target,
    defined: Seq<Seq<char>>,
    number: nat,
) -> Context {
    Context {
        locals: function.locals@,
        structs,
        labels: block_labels(function.name@, function.blocks@, number + 1),
        return_label: label_text("return"@, number),
        target,
        defined,
    }
}

/// The prologue of a function: its symbol, frame set-up and reservation.
pub open spec fn prologue(name: Seq<char>, frame: int) -> Seq<char> {
    ".globl "@ + name + "\n.type "@ + name + ", @function\n"@ + name + ":\n  push rbp\n  mov rbp, rsp\n"@
        + if frame != 0 {
        "  sub rsp, "@ + signed_decimal(frame) + "\n"@
    } else {
        Seq::empty()
    }
}

/// The epilogue of a function: falling off the end returns zero.
pub open spec fn epilogue(return_label: Seq<char>) -> Seq<char> {
    "  mov rax, 0\n"@ + return_label + ":\n  leave\n  ret\n\n"@
}

/// What a function emits, numbering its labels from `number`.
pub open spec fn function_emission(
    function: IrFunction,
    structs: Seq<StructLayout>,
    target: Target,
    defined: Seq<Seq<char>>,
    number: nat,
) -> Result<Emission, Seq<char>> {
    let context = function_context(function, structs, target, defined, number);
    if !frame_fits(function.locals@, structs) {
        Err("stack frame is too large"@)
    } else if number + 1 + numbered_blocks(function.blocks@) > usize::MAX {
        Err("too many labels"@)
    } else {
        followed_by(
            followed_by(
                code(prologue(function.name@, frame_size(function.locals@, structs))),
                parameter_stores(function, structs, function.parameters@.len()),
            ),
            followed_by(
                blocks_emission(function.blocks@, context, number + 1 + numbered_blocks(function.blocks@)),
                code(epilogue(context.return_label)),
            ),
        )
    }
}

/// The names of the program's functions.
pub open spec fn function_names(functions: Seq<IrFunction>) -> Seq<Seq<char>> {
    functions.map_values(|function: IrFunction| function.name@)
}

/// What a sequence of functions emits, numbering labels from zero.
pub open spec fn functions_emission(
    functions: Seq<IrFunction>,
    structs: Seq<StructLayout>,
    target: Target,
    defined: Seq<Seq<char>>,
) -> Result<Emission, Seq<char>>
    decreases functions.len(),
{
    if functions.len() == 0 {
        Ok(Emission { code: Seq::empty(), data: Seq::empty() })
    } else {
        let earlier = functions.drop_last();
        followed_by(
            functions_emission(earlier, structs, target, defined),
            function_emission(functions.last(), structs, target, defined, functions_labels(earlier)),
        )
    }
}

/// The Linux entry point: calls `main` and exits with its result.
pub open spec fn start_wrapper() -> Seq<char> {
    ".globl _start\n.type _start, @function\n_start:\n  call main\n  mov rdi, rax\n  mov rax, 60\n  syscall\n\n"@
}

/// The assembly of a whole program: the text section with every function,
/// the Linux entry point when the target is hosted and the program has a
/// `main`, then the read-only data, if there is any.
pub open spec fn program_assembly(program: TypedProgram, target: Target) -> Result<Seq<char>, Seq<char>> {
    match functions_emission(program.functions@, program.structs@, target, function_names(program.functions@)) {
        Err(message) => Err(message),
        Ok(emission) => {
            let text = ".intel_syntax noprefix\n.text\n"@ + emission.code + if target == Target::X86_64SystemV
                && function_names(program.functions@).contains("main"@) {
                start_wrapper()
            } else {
                Seq::empty()
            };
            Ok(
                if emission.data.len() == 0 {
                    text
                } else {
                    text + "\n.section .rodata\n"@ + emission.data
                },
            )
        },
    }
}

// ---------------------------------------------------------------------------
// Emitting text.

fn width_str(ty: &IrType) -> (r: &'static str)
    ensures
        r@ == width_name(*ty),
{
    match ty {
        IrType::Char | IrType::U8 | IrType::Bool => "BYTE",
        IrType::U16 => "WORD",
        IrType::U32 | IrType::I32 => "DWORD",
        _ => "QWORD",
    }
}

fn load_register_str(ty: &IrType) -> (r: &'static str)
    ensures
        r@ == load_register(*ty),
{
    match ty {
        IrType::Char | IrType::U8 | IrType::Bool | IrType::U16 | IrType::U32 => "eax",
        _ => "rax",
    }
}

fn store_register_str(ty: &IrType) -> (r: &'static str)
    ensures
        r@ == store_register(*ty),
{
    match ty {
        IrType::Char | IrType::U8 | IrType::Bool => "al",
        IrType::U16 => "ax",
        IrType::U32 | IrType::I32 => "eax",
        _ => "rax",
    }
}

fn load_mnemonic_str(ty: &IrType) -> (r: &'static str)
    ensures
        r@ == load_mnemonic(*ty),
{
    match ty {
        IrType::Char | IrType::U8 | IrType::Bool | IrType::U16 => "movzx",
        IrType::I32 => "movsxd",
        _ => "mov",
    }
}

/// Appends the load of a value of type `ty` from `address`.
pub fn push_load(out: &mut String, address: &str, ty: &IrType)
    ensures
        final(out)@ == old(out)@ + load_text(address@, *ty),
{
    let ghost before = out@;
    out.append("  ");
    out.append(load_mnemonic_str(ty));
    out.append(" ");
    out.append(load_register_str(ty));
    out.append(", ");
    out.append(width_str(ty));
    out.append(" PTR ");
    out.append(address);
    out.append("\n  push rax\n");
    assert(out@ =~= before + load_text(address@, *ty));
}

/// Appends the store of `rax` as a value of type `ty` at `address`.
pub fn push_store(out: &mut String, address: &str, ty: &IrType)
    ensures
        final(out)@ == old(out)@ + store_text(address@, *ty),
{
    let ghost before = out@;
    out.append("  mov ");
    out.append(width_str(ty));
    out.append(" PTR ");
    out.append(address);
    out.append(", ");
    out.append(store_register_str(ty));
    out.append("\n");
    assert(out@ =~= before + store_text(address@, *ty));
}

fn slot_address_string(offset: i64) -> (r: String)
    ensures
        r@ == slot_address(offset as int),
{
    let mut out = text("[rbp-");
    push_signed_decimal(&mut out, offset);
    out.append("]");
    out
}

fn label_string(prefix: &str, number: usize) -> (r: String)
    ensures
        r@ == label_text(prefix@, number as nat),
{
    let mut out = text(".L");
    out.append(prefix);
    out.append("_");
    push_decimal(&mut out, number as u64);
    out
}

fn register_str(index: usize) -> (r: &'static str)
    ensures
        r@ == argument_register(index as int),
{
    if index == 0 {
        "rdi"
    } else if index == 1 {
        "rsi"
    } else if index == 2 {
        "rdx"
    } else if index == 3 {
        "rcx"
    } else if index == 4 {
        "r8"
    } else {
        "r9"
    }
}

fn push_pops(out: &mut String, count: usize)
    ensures
        final(out)@ == old(out)@ + pop_arguments(count as nat),
    decreases count,
{
    if count > 0 {
        let ghost before = out@;
        out.append("  pop ");
        out.append(register_str(count - 1));
        out.append("\n");
        push_pops(out, count - 1);
        assert(out@ =~= before + pop_arguments(count as nat));
    } else {
        assert(out@ =~= old(out)@ + pop_arguments(count as nat));
    }
}

fn condition_str(operator: BinaryOperator) -> (r: &'static str)
    ensures
        r@ == condition_code(operator),
{
    match operator {
        BinaryOperator::Equal => "e",
        BinaryOperator::NotEqual => "ne",
        BinaryOperator::Less => "l",
        BinaryOperator::LessEqual => "le",
        BinaryOperator::Greater => "g",
        _ => "ge",
    }
}

fn push_binary(out: &mut String, operator: BinaryOperator, ty: &IrType)
    ensures
        final(out)@ == old(out)@ + binary_text(operator, *ty),
{
    let ghost before = out@;
    match operator {
        BinaryOperator::Add => out.append("  add rax, rdi\n"),
        BinaryOperator::Subtract => out.append("  sub rax, rdi\n"),
        BinaryOperator::Multiply => out.append("  imul rax, rdi\n"),
        BinaryOperator::Divide => out.append("  cqo\n  idiv rdi\n"),
        BinaryOperator::BitwiseAnd => out.append("  and rax, rdi\n"),
        BinaryOperator::BitwiseOr => out.append("  or rax, rdi\n"),
        BinaryOperator::BitwiseXor => out.append("  xor rax, rdi\n"),
        BinaryOperator::ShiftLeft => out.append("  mov rcx, rdi\n  shl rax, cl\n"),
        BinaryOperator::ShiftRight => {
            let signed = match ty {
                IrType::Int | IrType::I32 | IrType::I64 => true,
                _ => false,
            };
            if signed {
                out.append("  mov rcx, rdi\n  sar rax, cl\n");
            } else {
                out.append("  mov rcx, rdi\n  shr rax, cl\n");
            }
        },
        _ => {
            out.append("  cmp rax, rdi\n  set");
            out.append(condition_str(operator));
            out.append(" al\n  movzx rax, al\n");
        },
    }
    assert(out@ =~= before + binary_text(operator, *ty));
}

fn intrinsic_str(name: &str) -> (r: Option<&'static str>)
    ensures
        r is None <==> intrinsic_code(name@) is None,
        r matches Some(body) ==> intrinsic_code(name@) == Some(body@),
{
    if str_equal(name, "outb") {
        Some("  mov rdx, rdi\n  mov rax, rsi\n  out dx, al\n")
    } else if str_equal(name, "inb") {
        Some("  mov rdx, rdi\n  xor eax, eax\n  in al, dx\n")
    } else if str_equal(name, "cli") {
        Some("  cli\n")
    } else if str_equal(name, "sti") {
        Some("  sti\n")
    } else if str_equal(name, "hlt") {
        Some("  hlt\n")
    } else if str_equal(name, "pause") {
        Some("  pause\n")
    } else if str_equal(name, "read_cr0") {
        Some("  mov rax, cr0\n")
    } else if str_equal(name, "write_cr0") {
        Some("  mov cr0, rdi\n")
    } else if str_equal(name, "read_cr2") {
        Some("  mov rax, cr2\n")
    } else if str_equal(name, "read_cr3") {
        Some("  mov rax, cr3\n")
    } else if str_equal(name, "write_cr3") {
        Some("  mov cr3, rdi\n")
    } else if str_equal(name, "read_cr4") {
        Some("  mov rax, cr4\n")
    } else if str_equal(name, "write_cr4") {
        Some("  mov cr4, rdi\n")
    } else if str_equal(name, "lidt") {
        Some("  lidt [rdi]\n")
    } else if str_equal(name, "sidt") {
        Some("  sidt [rdi]\n")
    } else if str_equal(name, "invlpg") {
        Some("  invlpg [rdi]\n")
    } else if str_equal(name, "rdmsr") {
        Some("  mov rcx, rdi\n  rdmsr\n  shl rdx, 32\n  or rax, rdx\n")
    } else if str_equal(name, "wrmsr") {
        Some("  mov rcx, rdi\n  mov rax, rsi\n  mov rdx, rsi\n  shr rdx, 32\n  wrmsr\n")
    } else {
        None
    }
}

/// Appends the decimal list of a `.byte` directive.
fn push_byte_list(out: &mut String, bytes: &Vec<u8>)
    ensures
        final(out)@ == old(out)@ + byte_list(bytes@),
{
    let ghost before = out@;
    let mut i: usize = 0;
    while i < bytes.len()
        invariant
            i <= bytes@.len(),
            out@ == before + byte_list(bytes@.take(i as int)),
        decreases bytes@.len() - i,
    {
        let ghost prefix = bytes@.take(i as int);
        if i != 0 {
            out.append(", ");
        }
        push_decimal(out, bytes[i] as u64);
        proof {
            let next = bytes@.take(i + 1);
            assert(next.drop_last() =~= prefix);
            assert(next.last() == bytes@[i as int]);
            if i == 0 {
                assert(byte_list(next) == decimal(bytes@[0] as nat));
            }
            assert(out@ =~= before + byte_list(next));
        }
        i = i + 1;
    }
    assert(bytes@.take(bytes@.len() as int) =~= bytes@);
}

// ---------------------------------------------------------------------------
// Frames.

fn layout_size_exec(structs: &Vec<StructLayout>, name: &str) -> (r: Option<i64>)
    ensures
        r == layout_size(structs@, name@),
{
    let mut i = structs.len();
    assert(structs@.take(i as int) =~= structs@);
    while i > 0
        invariant
            i <= structs@.len(),
            layout_size(structs@, name@) == layout_size(structs@.take(i as int), name@),
        decreases i,
    {
        let ghost prefix = structs@.take(i as int);
        assert(prefix.last() == structs@[i - 1]);
        assert(prefix.drop_last() =~= structs@.take(i - 1));
        if str_equal(structs[i - 1].name.as_str(), name) {
            return Some(structs[i - 1].size);
        }
        i = i - 1;
    }
    assert(structs@.take(0) =~= Seq::<StructLayout>::empty());
    None
}

fn slot_size_exec(ty: &IrType, structs: &Vec<StructLayout>) -> (r: i64)
    ensures
        r == slot_size(*ty, structs@),
{
    match ty {
        IrType::Struct(name) => match layout_size_exec(structs, name.as_str()) {
            Some(size) => size,
            None => 8,
        },
        _ => 8,
    }
}

/// The end offset of each local's slot below `rbp`, when every partial frame
/// size fits in 64 bits.
fn frame_offsets(locals: &Vec<Local>, structs: &Vec<StructLayout>) -> (r: Option<Vec<i64>>)
    ensures
        r is Some <==> frame_fits(locals@, structs@),
        r matches Some(offsets) ==> offsets@.len() == locals@.len() && forall|k: int|
            0 <= k < locals@.len() ==> #[trigger] offsets@[k] == frame_size(locals@.take(k + 1), structs@),
{
    let mut offsets: Vec<i64> = Vec::new();
    let mut total: i64 = 0;
    let mut i: usize = 0;
    assert(locals@.take(0) =~= Seq::<Local>::empty());
    while i < locals.len()
        invariant
            i <= locals@.len(),
            offsets@.len() == i,
            total == frame_size(locals@.take(i as int), structs@),
            forall|k: int| 0 <= k <= i ==> i64::MIN <= #[trigger] frame_size(locals@.take(k), structs@) <= i64::MAX,
            forall|k: int| 0 <= k < i ==> #[trigger] offsets@[k] == frame_size(locals@.take(k + 1), structs@),
        decreases locals@.len() - i,
    {
        let size = slot_size_exec(&locals[i].ty, structs);
        proof {
            let next = locals@.take(i + 1);
            assert(next.drop_last() =~= locals@.take(i as int));
            assert(next.last() == locals@[i as int]);
        }
        match total.checked_add(size) {
            Some(next_total) => {
                total = next_total;
                offsets.push(total);
            },
            None => {
                proof {
                    let k = i + 1;
                    assert(frame_size(locals@.take(k), structs@) == total + size);
                    assert(!(i64::MIN <= frame_size(locals@.take(k), structs@) <= i64::MAX));
                }
                return None;
            },
        }
        i = i + 1;
    }
    assert(locals@.take(locals@.len() as int) =~= locals@);
    Some(offsets)
}

/// The slot of the local with this name (the last one, if named twice).
fn lookup_slot(locals: &Vec<Local>, offsets: &Vec<i64>, structs: &Vec<StructLayout>, name: &str) -> (r: Option<i64>)
    requires
        offsets@.len() == locals@.len(),
        forall|k: int| 0 <= k < locals@.len() ==> #[trigger] offsets@[k] == frame_size(locals@.take(k + 1), structs@),
    ensures
        match slot_of(locals@, structs@, name@) {
            Some(slot) => r == Some(slot as i64) && slot == r.unwrap() as int,
            None => r is None,
        },
{
    let mut i = locals.len();
    assert(locals@.take(i as int) =~= locals@);
    while i > 0
        invariant
            i <= locals@.len(),
            offsets@.len() == locals@.len(),
            forall|k: int| 0 <= k < locals@.len() ==> #[trigger] offsets@[k] == frame_size(locals@.take(k + 1), structs@),
            slot_of(locals@, structs@, name@) == slot_of(locals@.take(i as int), structs@, name@),
        decreases i,
    {
        let ghost prefix = locals@.take(i as int);
        assert(prefix.last() == locals@[i - 1]);
        assert(prefix.drop_last() =~= locals@.take(i - 1));
        if str_equal(locals[i - 1].name.as_str(), name) {
            assert(offsets@[i - 1] == frame_size(prefix, structs@));
            return Some(offsets[i - 1]);
        }
        i = i - 1;
    }
    assert(locals@.take(0) =~= Seq::<Local>::empty());
    None
}

// ---------------------------------------------------------------------------
// Errors stop emission.

proof fn lemma_instructions_error_persists(
    instructions: Seq<Instruction>,
    context: Context,
    number: nat,
    k: int,
)
    requires
        0 <= k <= instructions.len(),
        instructions_emission(instructions.take(k), context, number) is Err,
    ensures
        instructions_emission(instructions, context, number) == instructions_emission(
            instructions.take(k),
            context,
            number,
        ),
    decreases instructions.len() - k,
{
    if k < instructions.len() {
        assert(instructions.take(k + 1).drop_last() =~= instructions.take(k));
        lemma_instructions_error_persists(instructions, context, number, k + 1);
    } else {
        assert(instructions.take(k) =~= instructions);
    }
}

proof fn lemma_blocks_error_persists(blocks: Seq<BasicBlock>, context: Context, number: nat, k: int)
    requires
        0 <= k <= blocks.len(),
        blocks_emission(blocks.take(k), context, number) is Err,
    ensures
        blocks_emission(blocks, context, number) == blocks_emission(blocks.take(k), context, number),
    decreases blocks.len() - k,
{
    if k < blocks.len() {
        assert(blocks.take(k + 1).drop_last() =~= blocks.take(k));
        lemma_blocks_error_persists(blocks, context, number, k + 1);
    } else {
        assert(blocks.take(k) =~= blocks);
    }
}

proof fn lemma_parameters_error_persists(function: IrFunction, structs: Seq<StructLayout>, count: nat, k: nat)
    requires
        k <= count,
        parameter_stores(function, structs, k) is Err,
    ensures
        parameter_stores(function, structs, count) == parameter_stores(function, structs, k),
    decreases count - k,
{
    if k < count {
        lemma_parameters_error_persists(function, structs, count, k + 1);
    }
}

proof fn lemma_functions_error_persists(
    functions: Seq<IrFunction>,
    structs: Seq<StructLayout>,
    target: Target,
    defined: Seq<Seq<char>>,
    k: int,
)
    requires
        0 <= k <= functions.len(),
        functions_emission(functions.take(k), structs, target, defined) is Err,
    ensures
        functions_emission(functions, structs, target, defined) == functions_emission(
            functions.take(k),
            structs,
            target,
            defined,
        ),
    decreases functions.len() - k,
{
    if k < functions.len() {
        assert(functions.take(k + 1).drop_last() =~= functions.take(k));
        lemma_functions_error_persists(functions, structs, target, defined, k + 1);
    } else {
        assert(functions.take(k) =~= functions);
    }
}

proof fn lemma_parameter_stores_code_only(function: IrFunction, structs: Seq<StructLayout>, count: nat)
    ensures
        parameter_stores(function, structs, count) matches Ok(e) ==> e.data.len() == 0,
    decreases count,
{
    if count > 0 {
        lemma_parameter_stores_code_only(function, structs, (count - 1) as nat);
    }
}

proof fn lemma_numbered_prefix(blocks: Seq<BasicBlock>, i: int)
    requires
        0 <= i <= blocks.len(),
    ensures
        numbered_blocks(blocks.take(i)) <= numbered_blocks(blocks),
    decreases blocks.len() - i,
{
    if i < blocks.len() {
        assert(blocks.take(i + 1).drop_last() =~= blocks.take(i));
        lemma_numbered_prefix(blocks, i + 1);
    } else {
        assert(blocks.take(i) =~= blocks);
    }
}

/// The local at `k` has a slot.
proof fn lemma_slot_of_local(locals: Seq<Local>, structs: Seq<StructLayout>, k: int)
    requires
        0 <= k < locals.len(),
    ensures
        slot_of(locals, structs, locals[k].name@) is Some,
    decreases locals.len(),
{
    if locals.last().name@ != locals[k].name@ {
        assert(k < locals.len() - 1);
        assert(locals.drop_last()[k] == locals[k]);
        lemma_slot_of_local(locals.drop_last(), structs, k);
    }
}

// ---------------------------------------------------------------------------
// The generator.

/// The context of an instruction, from the generator's state.
pub open spec fn context_of(
    locals: Seq<Local>,
    structs: Seq<StructLayout>,
    labels: Seq<String>,
    return_label: Seq<char>,
    target: Target,
    functions: Seq<IrFunction>,
) -> Context {
    Context {
        locals,
        structs,
        labels: labels.map_values(|label: String| label@),
        return_label,
        target,
        defined: function_names(functions),
    }
}

/// The generator's texts grew by an emission, or it failed with the
/// emission's message.
pub open spec fn emitted(
    code_before: Seq<char>,
    data_before: Seq<char>,
    code_after: Seq<char>,
    data_after: Seq<char>,
    emission: Result<Emission, Seq<char>>,
    r: Result<(), CodegenError>,
) -> bool {
    match emission {
        Ok(e) => r is Ok && code_after == code_before + e.code && data_after == data_before + e.data,
        Err(message) => r matches Err(error) && error.message@ == message,
    }
}

fn error(message: &str) -> (r: CodegenError)
    ensures
        r.message@ == message@,
{
    CodegenError { message: text(message) }
}

/// The number of blocks that get a label of their own.
fn numbered_count(blocks: &Vec<BasicBlock>) -> (r: usize)
    ensures
        r == numbered_blocks(blocks@),
{
    let mut count: usize = 0;
    let mut i: usize = 0;
    assert(blocks@.take(0) =~= Seq::<BasicBlock>::empty());
    while i < blocks.len()
        invariant
            i <= blocks@.len(),
            count == numbered_blocks(blocks@.take(i as int)),
            count <= i,
        decreases blocks@.len() - i,
    {
        assert(blocks@.take(i + 1).drop_last() =~= blocks@.take(i as int));
        if blocks[i].id != 0 {
            count = count + 1;
        }
        i = i + 1;
    }
    assert(blocks@.take(blocks@.len() as int) =~= blocks@);
    count
}

/// Appends a function's prologue.
fn push_prologue(out: &mut String, name: &str, frame: i64)
    ensures
        final(out)@ == old(out)@ + prologue(name@, frame as int),
{
    let ghost before = out@;
    out.append(".globl ");
    out.append(name);
    out.append("\n.type ");
    out.append(name);
    out.append(", @function\n");
    out.append(name);
    out.append(":\n  push rbp\n  mov rbp, rsp\n");
    if frame != 0 {
        out.append("  sub rsp, ");
        push_signed_decimal(out, frame);
        out.append("\n");
    }
    assert(out@ =~= before + prologue(name@, frame as int));
}

fn is_defined(functions: &Vec<IrFunction>, name: &str) -> (r: bool)
    ensures
        r == function_names(functions@).contains(name@),
{
    let mut i: usize = 0;
    while i < functions.len()
        invariant
            i <= functions@.len(),
            forall|k: int| 0 <= k < i ==> functions@[k].name@ != name@,
        decreases functions@.len() - i,
    {
        if str_equal(functions[i].name.as_str(), name) {
            assert(function_names(functions@)[i as int] == name@);
            return true;
        }
        i = i + 1;
    }
    proof {
        if function_names(functions@).contains(name@) {
            let k = choose|k: int| 0 <= k < functions@.len() && function_names(functions@)[k] == name@;
            assert(functions@[k].name@ == name@);
        }
    }
    false
}

struct Generator<'a> {
    output: String,
    rodata: String,
    label: usize,
    target: Target,
    structs: &'a Vec<StructLayout>,
    functions: &'a Vec<IrFunction>,
}

impl<'a> Generator<'a> {
    /// Appends labelled bytes to the read-only data.
    fn push_data(&mut self, label: &String, bytes: &Vec<u8>)
        ensures
            final(self).rodata@ == old(self).rodata@ + data_entry(label@, bytes@),
            final(self).output == old(self).output,
            final(self).label == old(self).label,
            final(self).target == old(self).target,
            final(self).structs == old(self).structs,
            final(self).functions == old(self).functions,
    {
        let ghost before = self.rodata@;
        self.rodata.append(label.as_str());
        self.rodata.append(":\n  .byte ");
        push_byte_list(&mut self.rodata, bytes);
        self.rodata.append("\n");
        assert(self.rodata@ =~= before + data_entry(label@, bytes@));
    }

    /// Stores the register arguments into the slots of the parameters.
    fn parameters(&mut self, function: &IrFunction, offsets: &Vec<i64>) -> (r: Result<(), CodegenError>)
        requires
            offsets@.len() == function.locals@.len(),
            forall|k: int|
                0 <= k < function.locals@.len() ==> #[trigger] offsets@[k] == frame_size(
                    function.locals@.take(k + 1),
                    old(self).structs@,
                ),
        ensures
            final(self).target == old(self).target,
            final(self).structs == old(self).structs,
            final(self).functions == old(self).functions,
            final(self).label == old(self).label,
            emitted(
                old(self).output@,
                old(self).rodata@,
                final(self).output@,
                final(self).rodata@,
                parameter_stores(*function, old(self).structs@, function.parameters@.len()),
                r,
            ),
    {
        let ghost structs = self.structs@;
        let ghost code_params = self.output@;
        proof {
            lemma_parameter_stores_code_only(*function, structs, function.parameters@.len());
        }
        let mut index: usize = 0;
        while index < function.parameters.len()
            invariant
                index <= function.parameters@.len(),
                offsets@.len() == function.locals@.len(),
                forall|k: int|
                    0 <= k < function.locals@.len() ==> #[trigger] offsets@[k] == frame_size(
                        function.locals@.take(k + 1),
                        self.structs@,
                    ),
                structs == self.structs@,
                code_params == old(self).output@,
                self.target == old(self).target,
                self.structs == old(self).structs,
                self.functions == old(self).functions,
                self.label == old(self).label,
                self.rodata@ == old(self).rodata@,
                parameter_stores(*function, structs, index as nat) is Ok,
                self.output@ == code_params + parameter_stores(*function, structs, index as nat)->Ok_0.code,
            decreases function.parameters@.len() - index,
        {
            if index >= function.locals.len() {
                proof {
                    lemma_parameters_error_persists(*function, structs, function.parameters@.len(), (index + 1) as nat);
                }
                return Err(error("missing parameter local"));
            }
            if index >= 6 {
                proof {
                    lemma_parameters_error_persists(*function, structs, function.parameters@.len(), (index + 1) as nat);
                }
                return Err(error("more than six parameters are not supported"));
            }
            self.output.append("  mov rax, ");
            self.output.append(register_str(index));
            self.output.append("\n");
            let local = &function.locals[index];
            proof {
                lemma_slot_of_local(function.locals@, structs, index as int);
            }
            let slot = match lookup_slot(&function.locals, offsets, self.structs, local.name.as_str()) {
                Some(slot) => slot,
                None => 0,
            };
            let address = slot_address_string(slot);
            push_store(&mut self.output, address.as_str(), &local.ty);
            proof {
                assert(self.output@ =~= code_params + parameter_stores(*function, structs, (index + 1) as nat)->Ok_0.code);
            }
            index = index + 1;
        }
        proof {
            assert(self.rodata@ =~= old(self).rodata@ + parameter_stores(*function, structs, function.parameters@.len())->Ok_0.data);
        }
        Ok(())
    }

    /// Labels the blocks of a function, taking a number for each block but
    /// the entry block.
    fn block_label_list(&mut self, function: &IrFunction) -> (labels: Vec<String>)
        requires
            old(self).label + numbered_blocks(function.blocks@) <= usize::MAX,
        ensures
            final(self).target == old(self).target,
            final(self).structs == old(self).structs,
            final(self).functions == old(self).functions,
            final(self).output == old(self).output,
            final(self).rodata == old(self).rodata,
            final(self).label == old(self).label + numbered_blocks(function.blocks@),
            labels@.map_values(|label: String| label@) == block_labels(
                function.name@,
                function.blocks@,
                old(self).label as nat,
            ),
    {
        let ghost first = self.label as nat;
        let mut labels: Vec<String> = Vec::new();
        let mut b: usize = 0;
        assert(function.blocks@.take(0) =~= Seq::<BasicBlock>::empty());
        assert(labels@.map_values(|label: String| label@) =~= Seq::<Seq<char>>::empty());
        while b < function.blocks.len()
            invariant
                b <= function.blocks@.len(),
                first == old(self).label,
                first + numbered_blocks(function.blocks@) <= usize::MAX,
                self.label == first + numbered_blocks(function.blocks@.take(b as int)),
                labels@.map_values(|label: String| label@) == block_labels(
                    function.name@,
                    function.blocks@.take(b as int),
                    first,
                ),
                self.target == old(self).target,
                self.structs == old(self).structs,
                self.functions == old(self).functions,
                self.output == old(self).output,
                self.rodata == old(self).rodata,
            decreases function.blocks@.len() - b,
        {
            let ghost prefix = function.blocks@.take(b as int);
            let ghost next = function.blocks@.take(b + 1);
            proof {
                assert(next.drop_last() =~= prefix);
                assert(next.last() == function.blocks@[b as int]);
                lemma_numbered_prefix(function.blocks@, b + 1);
            }
            if function.blocks[b].id == 0 {
                labels.push(copy_string(&function.name));
            } else {
                labels.push(label_string("block", self.label));
                self.label = self.label + 1;
            }
            proof {
                assert(labels@.map_values(|label: String| label@) =~= block_labels(function.name@, next, first));
            }
            b = b + 1;
        }
        assert(function.blocks@.take(function.blocks@.len() as int) =~= function.blocks@);
        labels
    }

    /// Emits one function.
    fn function(&mut self, function: &IrFunction) -> (r: Result<(), CodegenError>)
        ensures
            final(self).target == old(self).target,
            final(self).structs == old(self).structs,
            final(self).functions == old(self).functions,
            emitted(
                old(self).output@,
                old(self).rodata@,
                final(self).output@,
                final(self).rodata@,
                function_emission(
                    *function,
                    old(self).structs@,
                    old(self).target,
                    function_names(old(self).functions@),
                    old(self).label as nat,
                ),
                r,
            ),
            r is Ok ==> final(self).label == old(self).label + function_labels(*function),
    {
        let ghost number = self.label as nat;
        let ghost code_before = self.output@;
        let ghost data_before = self.rodata@;
        let ghost structs = self.structs@;
        let offsets = match frame_offsets(&function.locals, self.structs) {
            Some(offsets) => offsets,
            None => {
                return Err(error("stack frame is too large"));
            },
        };
        let count = numbered_count(&function.blocks);
        if count >= usize::MAX - self.label {
            return Err(error("too many labels"));
        }
        let return_label = label_string("return", self.label);
        self.label = self.label + 1;
        // Prologue.
        let frame: i64 = if function.locals.len() == 0 {
            0
        } else {
            offsets[function.locals.len() - 1]
        };
        proof {
            if function.locals@.len() > 0 {
                assert(function.locals@.take(function.locals@.len() as int) =~= function.locals@);
            }
            assert(frame == frame_size(function.locals@, structs));
        }
        push_prologue(&mut self.output, function.name.as_str(), frame);
        // Parameters arrive in registers and are stored to their slots.
        let ghost code_params = self.output@;
        let stored = self.parameters(function, &offsets);
        match stored {
            Ok(()) => {},
            Err(e) => {
                return Err(e);
            },
        }
        proof {
            lemma_parameter_stores_code_only(*function, structs, function.parameters@.len());
        }
        let ghost code_body = self.output@;
        let ghost data_body = self.rodata@;
        let body = self.function_body(function, &offsets, &return_label);
        match body {
            Ok(()) => {},
            Err(e) => {
                return Err(e);
            },
        }
        proof {
            let context = function_context(*function, structs, self.target, function_names(self.functions@), number);
            let params = parameter_stores(*function, structs, function.parameters@.len())->Ok_0;
            let rest = followed_by(
                blocks_emission(function.blocks@, context, (number + 1 + numbered_blocks(function.blocks@)) as nat),
                code(epilogue(context.return_label)),
            )->Ok_0;
            let head = prologue(function.name@, frame_size(function.locals@, structs)) + params.code;
            assert(self.output@ =~= code_before + (head + rest.code));
            assert(self.rodata@ =~= data_before + ((Seq::<char>::empty() + params.data) + rest.data));
        }
        Ok(())
    }

    /// Emits a function's blocks, each with its label, and its epilogue.
    fn function_body(&mut self, function: &IrFunction, offsets: &Vec<i64>, return_label: &String) -> (r: Result<(), CodegenError>)
        requires
            offsets@.len() == function.locals@.len(),
            forall|k: int|
                0 <= k < function.locals@.len() ==> #[trigger] offsets@[k] == frame_size(
                    function.locals@.take(k + 1),
                    old(self).structs@,
                ),
            old(self).label + numbered_blocks(function.blocks@) <= usize::MAX,
        ensures
            final(self).target == old(self).target,
            final(self).structs == old(self).structs,
            final(self).functions == old(self).functions,
            emitted(
                old(self).output@,
                old(self).rodata@,
                final(self).output@,
                final(self).rodata@,
                followed_by(
                    blocks_emission(
                        function.blocks@,
                        Context {
                            locals: function.locals@,
                            structs: old(self).structs@,
                            labels: block_labels(function.name@, function.blocks@, old(self).label as nat),
                            return_label: return_label@,
                            target: old(self).target,
                            defined: function_names(old(self).functions@),
                        },
                        (old(self).label + numbered_blocks(function.blocks@)) as nat,
                    ),
                    code(epilogue(return_label@)),
                ),
                r,
            ),
            r is Ok ==> final(self).label == old(self).label + numbered_blocks(function.blocks@)
                + block_instruction_labels(function.blocks@),
    {
        let ghost code_before = self.output@;
        let ghost data_before = self.rodata@;
        let labels = self.block_label_list(function);
        let ghost context = context_of(
            function.locals@,
            self.structs@,
            labels@,
            return_label@,
            self.target,
            self.functions@,
        );
        let result = self.blocks(&function.locals, offsets, &labels, return_label, &function.blocks);
        match result {
            Ok(()) => {},
            Err(e) => {
                return Err(e);
            },
        }
        self.output.append("  mov rax, 0\n");
        self.output.append(return_label.as_str());
        self.output.append(":\n  leave\n  ret\n\n");
        proof {
            let body = blocks_emission(function.blocks@, context, (old(self).label + numbered_blocks(function.blocks@)) as nat)->Ok_0;
            assert(self.output@ =~= code_before + (body.code + epilogue(return_label@)));
            assert(self.rodata@ =~= data_before + (body.data + Seq::<char>::empty()));
        }
        Ok(())
    }

    /// Emits one block: its label, unless it is the entry block, then its
    /// instructions.
    fn block(
        &mut self,
        locals: &Vec<Local>,
        offsets: &Vec<i64>,
        labels: &Vec<String>,
        return_label: &String,
        block: &BasicBlock,
    ) -> (r: Result<(), CodegenError>)
        requires
            offsets@.len() == locals@.len(),
            forall|k: int|
                0 <= k < locals@.len() ==> #[trigger] offsets@[k] == frame_size(locals@.take(k + 1), old(self).structs@),
        ensures
            final(self).target == old(self).target,
            final(self).structs == old(self).structs,
            final(self).functions == old(self).functions,
            emitted(
                old(self).output@,
                old(self).rodata@,
                final(self).output@,
                final(self).rodata@,
                block_emission(
                    *block,
                    context_of(locals@, old(self).structs@, labels@, return_label@, old(self).target, old(self).functions@),
                    old(self).label as nat,
                ),
                r,
            ),
            r is Ok ==> final(self).label == old(self).label + instruction_labels(block.instructions@),
    {
        let ghost context = context_of(
            locals@,
            self.structs@,
            labels@,
            return_label@,
            self.target,
            self.functions@,
        );
        let ghost code_before = self.output@;
        if block.id != 0 {
            if block.id >= labels.len() {
                return Err(error("unknown block"));
            }
            self.output.append(labels[block.id].as_str());
            self.output.append(":\n");
            assert(context.labels[block.id as int] == labels@[block.id as int]@);
        }
        let ghost data_before = self.rodata@;
        let result = self.instructions(locals, offsets, labels, return_label, &block.instructions);
        proof {
            if result is Ok && block.id != 0 {
                let e = instructions_emission(block.instructions@, context, old(self).label as nat)->Ok_0;
                assert(self.output@ =~= code_before + ((context.labels[block.id as int] + ":\n"@) + e.code));
                assert(self.rodata@ =~= data_before + (Seq::<char>::empty() + e.data));
            }
        }
        result
    }

    /// Emits a function's blocks.
    fn blocks(
        &mut self,
        locals: &Vec<Local>,
        offsets: &Vec<i64>,
        labels: &Vec<String>,
        return_label: &String,
        blocks: &Vec<BasicBlock>,
    ) -> (r: Result<(), CodegenError>)
        requires
            offsets@.len() == locals@.len(),
            forall|k: int|
                0 <= k < locals@.len() ==> #[trigger] offsets@[k] == frame_size(locals@.take(k + 1), old(self).structs@),
        ensures
            final(self).target == old(self).target,
            final(self).structs == old(self).structs,
            final(self).functions == old(self).functions,
            emitted(
                old(self).output@,
                old(self).rodata@,
                final(self).output@,
                final(self).rodata@,
                blocks_emission(
                    blocks@,
                    context_of(locals@, old(self).structs@, labels@, return_label@, old(self).target, old(self).functions@),
                    old(self).label as nat,
                ),
                r,
            ),
            r is Ok ==> final(self).label == old(self).label + block_instruction_labels(blocks@),
    {
        let ghost context = context_of(
            locals@,
            self.structs@,
            labels@,
            return_label@,
            self.target,
            self.functions@,
        );
        let ghost first = self.label as nat;
        let ghost code_before = self.output@;
        let ghost data_before = self.rodata@;
        let mut i: usize = 0;
        assert(blocks@.take(0) =~= Seq::<BasicBlock>::empty());
        while i < blocks.len()
            invariant
                i <= blocks@.len(),
                offsets@.len() == locals@.len(),
                forall|k: int|
                    0 <= k < locals@.len() ==> #[trigger] offsets@[k] == frame_size(locals@.take(k + 1), self.structs@),
                self.target == old(self).target,
                self.structs == old(self).structs,
                self.functions == old(self).functions,
                context == context_of(locals@, self.structs@, labels@, return_label@, self.target, self.functions@),
                first == old(self).label as nat,
                code_before == old(self).output@,
                data_before == old(self).rodata@,
                blocks_emission(blocks@.take(i as int), context, first) is Ok,
                self.output@ == code_before + blocks_emission(blocks@.take(i as int), context, first)->Ok_0.code,
                self.rodata@ == data_before + blocks_emission(blocks@.take(i as int), context, first)->Ok_0.data,
                self.label == first + block_instruction_labels(blocks@.take(i as int)),
            decreases blocks@.len() - i,
        {
            let ghost prefix = blocks@.take(i as int);
            let ghost next = blocks@.take(i + 1);
            proof {
                assert(next.drop_last() =~= prefix);
                assert(next.last() == blocks@[i as int]);
            }
            let result = self.block(locals, offsets, labels, return_label, &blocks[i]);
            match result {
                Ok(()) => {},
                Err(e) => {
                    proof {
                        lemma_blocks_error_persists(blocks@, context, first, i + 1);
                    }
                    return Err(e);
                },
            }
            proof {
                assert(self.output@ =~= code_before + blocks_emission(next, context, first)->Ok_0.code);
                assert(self.rodata@ =~= data_before + blocks_emission(next, context, first)->Ok_0.data);
            }
            i = i + 1;
        }
        assert(blocks@.take(blocks@.len() as int) =~= blocks@);
        Ok(())
    }

    /// Emits a sequence of instructions.
    fn instructions(
        &mut self,
        locals: &Vec<Local>,
        offsets: &Vec<i64>,
        labels: &Vec<String>,
        return_label: &String,
        instructions: &Vec<Instruction>,
    ) -> (r: Result<(), CodegenError>)
        requires
            offsets@.len() == locals@.len(),
            forall|k: int|
                0 <= k < locals@.len() ==> #[trigger] offsets@[k] == frame_size(locals@.take(k + 1), old(self).structs@),
        ensures
            final(self).target == old(self).target,
            final(self).structs == old(self).structs,
            final(self).functions == old(self).functions,
            emitted(
                old(self).output@,
                old(self).rodata@,
                final(self).output@,
                final(self).rodata@,
                instructions_emission(
                    instructions@,
                    context_of(locals@, old(self).structs@, labels@, return_label@, old(self).target, old(self).functions@),
                    old(self).label as nat,
                ),
                r,
            ),
            r is Ok ==> final(self).label == old(self).label + instruction_labels(instructions@),
    {
        let ghost context = context_of(
            locals@,
            self.structs@,
            labels@,
            return_label@,
            self.target,
            self.functions@,
        );
        let ghost first = self.label as nat;
        let ghost code_before = self.output@;
        let ghost data_before = self.rodata@;
        let mut i: usize = 0;
        assert(instructions@.take(0) =~= Seq::<Instruction>::empty());
        while i < instructions.len()
            invariant
                i <= instructions@.len(),
                offsets@.len() == locals@.len(),
                forall|k: int|
                    0 <= k < locals@.len() ==> #[trigger] offsets@[k] == frame_size(locals@.take(k + 1), self.structs@),
                self.target == old(self).target,
                self.structs == old(self).structs,
                self.functions == old(self).functions,
                context == context_of(locals@, self.structs@, labels@, return_label@, self.target, self.functions@),
                first == old(self).label as nat,
                code_before == old(self).output@,
                data_before == old(self).rodata@,
                instructions_emission(instructions@.take(i as int), context, first) is Ok,
                self.output@ == code_before + instructions_emission(instructions@.take(i as int), context, first)->Ok_0.code,
                self.rodata@ == data_before + instructions_emission(instructions@.take(i as int), context, first)->Ok_0.data,
                self.label == first + instruction_labels(instructions@.take(i as int)),
            decreases instructions@.len() - i,
        {
            let ghost prefix = instructions@.take(i as int);
            let ghost next = instructions@.take(i + 1);
            proof {
                assert(next.drop_last() =~= prefix);
                assert(next.last() == instructions@[i as int]);
            }
            let ghost number = self.label as nat;
            let result = self.instruction(locals, offsets, labels, return_label, &instructions[i]);
            match result {
                Ok(()) => {},
                Err(e) => {
                    proof {
                        assert(number == first + instruction_labels(prefix));
                        assert(instruction_emission(instructions@[i as int], context, number) is Err);
                        assert(instructions_emission(next, context, first) == instruction_emission(
                            instructions@[i as int],
                            context,
                            number,
                        ));
                        lemma_instructions_error_persists(instructions@, context, first, i + 1);
                    }
                    return Err(e);
                },
            }
            proof {
                assert(self.output@ =~= code_before + instructions_emission(next, context, first)->Ok_0.code);
                assert(self.rodata@ =~= data_before + instructions_emission(next, context, first)->Ok_0.data);
            }
            i = i + 1;
        }
        assert(instructions@.take(instructions@.len() as int) =~= instructions@);
        Ok(())
    }

    /// Emits one instruction.
    fn instruction(
        &mut self,
        locals: &Vec<Local>,
        offsets: &Vec<i64>,
        labels: &Vec<String>,
        return_label: &String,
        instruction: &Instruction,
    ) -> (r: Result<(), CodegenError>)
        requires
            offsets@.len() == locals@.len(),
            forall|k: int|
                0 <= k < locals@.len() ==> #[trigger] offsets@[k] == frame_size(locals@.take(k + 1), old(self).structs@),
        ensures
            final(self).target == old(self).target,
            final(self).structs == old(self).structs,
            final(self).functions == old(self).functions,
            emitted(
                old(self).output@,
                old(self).rodata@,
                final(self).output@,
                final(self).rodata@,
                instruction_emission(
                    *instruction,
                    context_of(locals@, old(self).structs@, labels@, return_label@, old(self).target, old(self).functions@),
                    old(self).label as nat,
                ),
                r,
            ),
            r is Ok ==> final(self).label == old(self).label + if takes_label(*instruction) {
                1int
            } else {
                0int
            },
    {
        let ghost context = context_of(
            locals@,
            self.structs@,
            labels@,
            return_label@,
            self.target,
            self.functions@,
        );
        let ghost expected = instruction_emission(*instruction, context, self.label as nat);
        let ghost before = self.output@;
        let ghost data_before = self.rodata@;
        match instruction {
            Instruction::Constant(value) => {
                self.output.append("  push ");
                push_signed_decimal(&mut self.output, *value);
                self.output.append("\n");
            },
            Instruction::StringLiteral(bytes) => {
                if self.label == usize::MAX {
                    return Err(error("too many labels"));
                }
                let label = label_string("string", self.label);
                self.label = self.label + 1;
                let mut terminated = copy_bytes(bytes);
                terminated.push(0u8);
                self.push_data(&label, &terminated);
                self.output.append("  lea rax, ");
                self.output.append(label.as_str());
                self.output.append("[rip]\n  push rax\n");
            },
            Instruction::PrintString(bytes) => {
                if self.target != Target::X86_64SystemV {
                    return Err(error("print is only available on the Linux System V target"));
                }
                if self.label == usize::MAX {
                    return Err(error("too many labels"));
                }
                let label = label_string("string", self.label);
                self.label = self.label + 1;
                self.push_data(&label, bytes);
                self.output.append("  mov rax, 1\n  mov rdi, 1\n  lea rsi, ");
                self.output.append(label.as_str());
                self.output.append("[rip]\n  mov rdx, ");
                push_decimal(&mut self.output, bytes.len() as u64);
                self.output.append("\n  syscall\n  push rax\n");
            },
            Instruction::LoadLocal { name, ty } => {
                match lookup_slot(locals, offsets, self.structs, name.as_str()) {
                    Some(slot) => {
                        let address = slot_address_string(slot);
                        push_load(&mut self.output, address.as_str(), ty);
                    },
                    None => {
                        return Err(error("unknown local"));
                    },
                }
            },
            Instruction::StoreLocal { name, ty } => {
                match lookup_slot(locals, offsets, self.structs, name.as_str()) {
                    Some(slot) => {
                        let address = slot_address_string(slot);
                        self.output.append("  pop rax\n");
                        push_store(&mut self.output, address.as_str(), ty);
                    },
                    None => {
                        return Err(error("unknown local"));
                    },
                }
            },
            Instruction::AddressLocal { name, .. } => {
                match lookup_slot(locals, offsets, self.structs, name.as_str()) {
                    Some(slot) => {
                        let address = slot_address_string(slot);
                        self.output.append("  lea rax, ");
                        self.output.append(address.as_str());
                        self.output.append("\n  push rax\n");
                    },
                    None => {
                        return Err(error("unknown local"));
                    },
                }
            },
            Instruction::FieldAddress { offset, .. } => {
                if *offset == 0 {
                    self.output.append("  pop rax\n  push rax\n");
                } else {
                    self.output.append("  pop rax\n  add rax, ");
                    push_signed_decimal(&mut self.output, *offset);
                    self.output.append("\n  push rax\n");
                }
            },
            Instruction::Load { ty, volatile } => {
                if *volatile {
                    self.output.append("  ; volatile load\n");
                }
                self.output.append("  pop rax\n");
                push_load(&mut self.output, "[rax]", ty);
            },
            Instruction::Store { ty, volatile } => {
                if *volatile {
                    self.output.append("  ; volatile store\n");
                }
                self.output.append("  pop rax\n  pop rdi\n");
                push_store(&mut self.output, "[rdi]", ty);
            },
            Instruction::Scale { bytes } => {
                self.output.append("  pop rax\n  imul rax, ");
                push_signed_decimal(&mut self.output, *bytes);
                self.output.append("\n  push rax\n");
            },
            Instruction::Cast { from, to } => {
                let narrowed: Option<&'static str> = match to {
                    IrType::Char | IrType::U8 | IrType::Bool => match from {
                        IrType::Char | IrType::U8 | IrType::Bool => None,
                        _ => Some("movzx eax, al"),
                    },
                    IrType::U16 => match from {
                        IrType::Char | IrType::U8 | IrType::Bool | IrType::U16 => None,
                        _ => Some("movzx eax, ax"),
                    },
                    IrType::U32 => match from {
                        IrType::Char | IrType::U8 | IrType::Bool | IrType::U16 | IrType::U32 | IrType::I32 => None,
                        _ => Some("mov eax, eax"),
                    },
                    IrType::I32 => match from {
                        IrType::Char | IrType::U8 | IrType::Bool | IrType::U16 | IrType::U32 | IrType::I32 => None,
                        _ => Some("movsxd rax, eax"),
                    },
                    _ => None,
                };
                match narrowed {
                    Some(instruction_text) => {
                        self.output.append("  pop rax\n  ");
                        self.output.append(instruction_text);
                        self.output.append("\n  push rax\n");
                    },
                    None => {},
                }
            },
            Instruction::Unary { operator, ty, volatile } => {
                match operator {
                    UnaryOperator::Negate => {
                        self.output.append("  pop rax\n  neg rax\n  push rax\n");
                    },
                    UnaryOperator::BitwiseNot => {
                        self.output.append("  pop rax\n  not rax\n  push rax\n");
                    },
                    UnaryOperator::Dereference => {
                        if *volatile {
                            self.output.append("  ; volatile load\n");
                        }
                        self.output.append("  pop rax\n");
                        push_load(&mut self.output, "[rax]", ty);
                    },
                    UnaryOperator::AddressOf => {
                        return Err(error("address-of must be lowered as an address"));
                    },
                }
            },
            Instruction::Binary { operator, ty } => {
                self.output.append("  pop rdi\n  pop rax\n");
                push_binary(&mut self.output, *operator, ty);
                self.output.append("  push rax\n");
            },
            Instruction::Call { name, arguments, .. } => {
                let intrinsic = intrinsic_str(name.as_str());
                let defined = is_defined(self.functions, name.as_str());
                match intrinsic {
                    Some(body) if !defined => {
                        if self.target != Target::X86_64KrumpyOs {
                            let mut message = text("intrinsic `");
                            message.append(name.as_str());
                            message.append("` is only available on the x86_64-krumpyos target");
                            return Err(CodegenError { message });
                        }
                        if *arguments > 6 {
                            return Err(error("calls with more than six arguments are not supported"));
                        }
                        push_pops(&mut self.output, *arguments);
                        self.output.append(body);
                        self.output.append("  push rax\n");
                    },
                    _ => {
                        if *arguments > 6 {
                            return Err(error("calls with more than six arguments are not supported"));
                        }
                        push_pops(&mut self.output, *arguments);
                        self.output.append("  call ");
                        self.output.append(name.as_str());
                        self.output.append("\n  push rax\n");
                    },
                }
            },
            Instruction::Pop => {
                self.output.append("  add rsp, 8\n");
            },
            Instruction::Branch { then_block, else_block } => {
                if *then_block >= labels.len() || *else_block >= labels.len() {
                    return Err(error("unknown block"));
                }
                self.output.append("  pop rax\n  test rax, rax\n  jne ");
                self.output.append(labels[*then_block].as_str());
                self.output.append("\n  jmp ");
                self.output.append(labels[*else_block].as_str());
                self.output.append("\n");
                proof {
                    assert(context.labels[*then_block as int] == labels@[*then_block as int]@);
                    assert(context.labels[*else_block as int] == labels@[*else_block as int]@);
                }
            },
            Instruction::Jump { target } => {
                if *target >= labels.len() {
                    return Err(error("unknown block"));
                }
                self.output.append("  jmp ");
                self.output.append(labels[*target].as_str());
                self.output.append("\n");
                proof {
                    assert(context.labels[*target as int] == labels@[*target as int]@);
                }
            },
            Instruction::Return { has_value } => {
                if *has_value {
                    self.output.append("  pop rax\n");
                }
                self.output.append("  jmp ");
                self.output.append(return_label.as_str());
                self.output.append("\n");
            },
        }
        proof {
            assert(self.output@ =~= before + expected->Ok_0.code);
            assert(self.rodata@ =~= data_before + expected->Ok_0.data);
        }
        Ok(())
    }
}

/// The assembly of a lowered program for the default target.
pub fn emit_typed(program: &TypedProgram) -> (r: Result<String, CodegenError>)
    requires
        sorted_by_name(program.functions@),
    ensures
        match program_assembly(*program, Target::X86_64SystemV) {
            Ok(assembly) => r matches Ok(s) && s@ == assembly,
            Err(message) => r matches Err(e) && e.message@ == message,
        },
{
    emit_typed_for_target(program, Target::default())
}

/// The assembly of a lowered program for a target. A lowered program lists
/// its functions once each, in order of name, and they are emitted in that
/// order.
pub fn emit_typed_for_target(program: &TypedProgram, target: Target) -> (r: Result<String, CodegenError>)
    requires
        sorted_by_name(program.functions@),
    ensures
        match program_assembly(*program, target) {
            Ok(assembly) => r matches Ok(s) && s@ == assembly,
            Err(message) => r matches Err(e) && e.message@ == message,
        },
{
    let ghost functions = program.functions@;
    let ghost structs = program.structs@;
    let ghost defined = function_names(functions);
    let mut generator = Generator {
        output: text(".intel_syntax noprefix\n.text\n"),
        rodata: String::new(),
        label: 0,
        target,
        structs: &program.structs,
        functions: &program.functions,
    };
    let ghost code_before = generator.output@;
    let mut i: usize = 0;
    assert(functions.take(0) =~= Seq::<IrFunction>::empty());
    while i < program.functions.len()
        invariant
            i <= functions.len(),
            functions == program.functions@,
            generator.structs@ == structs,
            generator.functions@ == functions,
            generator.target == target,
            code_before == ".intel_syntax noprefix\n.text\n"@,
            defined == function_names(functions),
            structs == program.structs@,
            functions_emission(functions.take(i as int), structs, target, defined) is Ok,
            generator.output@ == code_before + functions_emission(
                functions.take(i as int),
                structs,
                target,
                defined,
            )->Ok_0.code,
            generator.rodata@ == functions_emission(functions.take(i as int), structs, target, defined)->Ok_0.data,
            generator.label == functions_labels(functions.take(i as int)),
        decreases functions.len() - i,
    {
        let ghost prefix = functions.take(i as int);
        let ghost next = functions.take(i + 1);
        proof {
            assert(next.drop_last() =~= prefix);
            assert(next.last() == functions[i as int]);
        }
        let result = generator.function(&program.functions[i]);
        match result {
            Ok(()) => {},
            Err(e) => {
                proof {
                    lemma_functions_error_persists(functions, structs, target, defined, i + 1);
                }
                return Err(e);
            },
        }
        proof {
            assert(generator.output@ =~= code_before + functions_emission(next, structs, target, defined)->Ok_0.code);
            assert(generator.rodata@ =~= functions_emission(next, structs, target, defined)->Ok_0.data);
        }
        i = i + 1;
    }
    assert(functions.take(functions.len() as int) =~= functions);
    let ghost emission = functions_emission(functions, structs, target, defined)->Ok_0;
    let ghost code_functions = generator.output@;
    if target == Target::X86_64SystemV && is_defined(&program.functions, "main") {
        generator.output.append(
            ".globl _start\n.type _start, @function\n_start:\n  call main\n  mov rdi, rax\n  mov rax, 60\n  syscall\n\n",
        );
    }
    let ghost text_part = generator.output@;
    assert(text_part =~= ".intel_syntax noprefix\n.text\n"@ + emission.code + if target == Target::X86_64SystemV
        && function_names(functions).contains("main"@) {
        start_wrapper()
    } else {
        Seq::empty()
    });
    if generator.rodata.as_str().is_empty() {
        Ok(generator.output)
    } else {
        let mut assembly = generator.output;
        assembly.append("\n.section .rodata\n");
        assembly.append(generator.rodata.as_str());
        Ok(assembly)
    }
}

/// The outcome of emitting a program whose lowering gave `lowered`: a
/// failed check reports its diagnostics, one per line; a lowered program
/// gives its assembly.
pub open spec fn emission_outcome(
    lowered: Result<TypedProgram, Seq<SemanticError>>,
    target: Target,
    r: Result<String, CodegenError>,
) -> bool {
    match lowered {
        Err(errors) => r matches Err(e) && e.message@ == semantic_report(errors),
        Ok(typed) => match program_assembly(typed, target) {
            Ok(assembly) => r matches Ok(s) && s@ == assembly,
            Err(message) => r matches Err(e) && e.message@ == message,
        },
    }
}

/// Lowers and emits a program for the default target.
pub fn emit(program: &Program) -> (r: Result<String, CodegenError>)
    ensures
        exists|lowered: Result<TypedProgram, Seq<SemanticError>>|
            lowering_of(*program, lowered) && #[trigger] emission_outcome(lowered, Target::X86_64SystemV, r),
{
    emit_for_target(program, Target::default())
}

/// Lowers and emits a program for a target.
pub fn emit_for_target(program: &Program, target: Target) -> (r: Result<String, CodegenError>)
    ensures
        exists|lowered: Result<TypedProgram, Seq<SemanticError>>|
            lowering_of(*program, lowered) && #[trigger] emission_outcome(lowered, target, r),
{
    let lowered = lower(program);
    match lowered {
        Err(errors) => {
            let message = report(&errors);
            let r = Err(CodegenError { message });
            assert(lowering_of(*program, Err(errors@)));
            assert(emission_outcome(Err(errors@), target, r));
            r
        },
        Ok(typed) => {
            let r = emit_typed_for_target(&typed, target);
            assert(lowering_of(*program, Ok(typed)));
            assert(emission_outcome(Ok(typed), target, r));
            r
        },
    }
}

} // verus!
