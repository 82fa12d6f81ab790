//! Typed, stack-based intermediate representation.
//!
//! Expressions lower to values on a virtual stack. This keeps the IR compact
//! while making loads, stores, calls, casts and control flow explicit. Loads
//! and stores through `volatile` pointers carry a `volatile` tag that every
//! later pass must preserve.

use vstd::prelude::*;

use crate::ast::{
    BinaryOperator, Block, Expression, Function, Parameter, Program, Statement, StructDefinition,
    StructField, Type, UnaryOperator, copy_bytes, copy_string,
};
use crate::number::parse_i64;
use crate::sema;
use crate::text::str_equal;
use vstd::utf8::encode_utf8;

verus! {

#[derive(Debug, PartialEq, Eq)]
pub enum IrType {
    Void,
    Int,
    Char,
    Bool,
    U8,
    U16,
    U32,
    U64,
    I32,
    I64,
    Pointer(Box<IrType>, bool),
    Struct(String),
}

#[derive(Debug, PartialEq, Eq)]
pub struct Local {
    pub name: String,
    pub ty: IrType,
}

#[derive(Debug, PartialEq, Eq)]
pub enum Instruction {
    /// Push a constant.
    Constant(i64),
    /// Push the address of static, zero-terminated bytes.
    StringLiteral(Vec<u8>),
    /// Write these bytes to standard output (the `print` intrinsic).
    PrintString(Vec<u8>),
    LoadLocal { name: String, ty: IrType },
    StoreLocal { name: String, ty: IrType },
    AddressLocal { name: String, ty: IrType },
    /// Add a field's offset to the address on top of the stack.
    FieldAddress { offset: i64, ty: IrType },
    Load { ty: IrType, volatile: bool },
    Store { ty: IrType, volatile: bool },
    /// Multiply the top of the stack by an element size.
    Scale { bytes: i64 },
    Cast { from: IrType, to: IrType },
    Unary { operator: UnaryOperator, ty: IrType, volatile: bool },
    Binary { operator: BinaryOperator, ty: IrType },
    Call { name: String, arguments: usize, ty: IrType },
    Pop,
    Branch { then_block: usize, else_block: usize },
    Jump { target: usize },
    Return { has_value: bool },
}

#[derive(Debug, PartialEq, Eq)]
pub struct BasicBlock {
    pub id: usize,
    pub instructions: Vec<Instruction>,
}

/// A field's place in a struct.
#[derive(Debug, PartialEq, Eq)]
pub struct FieldLayout {
    pub name: String,
    pub ty: IrType,
    pub offset: i64,
}

/// The ordered layout of a struct: fields follow each other without padding.
#[derive(Debug, PartialEq, Eq)]
pub struct StructLayout {
    pub name: String,
    pub fields: Vec<FieldLayout>,
    pub size: i64,
}

#[derive(Debug, PartialEq, Eq)]
pub struct IrFunction {
    pub name: String,
    pub return_type: IrType,
    pub parameters: Vec<IrType>,
    pub locals: Vec<Local>,
    pub blocks: Vec<BasicBlock>,
}

/// A lowered program: its functions in order of name, and its struct layouts
/// in order of definition.
#[derive(Debug, PartialEq, Eq)]
pub struct TypedProgram {
    pub functions: Vec<IrFunction>,
    pub structs: Vec<StructLayout>,
}

impl TypedProgram {
    /// The function with this name, if the program has one.
    pub fn function(&self, name: &str) -> (r: Option<&IrFunction>)
        ensures
            match r {
                Some(f) => exists|i: int|
                    0 <= i < self.functions@.len() && #[trigger] self.functions@[i] == *f && f.name@ == name@ && forall|k: int|
                        0 <= k < i ==> #[trigger] self.functions@[k].name@ != name@,
                None => forall|k: int| 0 <= k < self.functions@.len() ==> #[trigger] self.functions@[k].name@ != name@,
            },
    {
        let mut i: usize = 0;
        while i < self.functions.len()
            invariant
                i <= self.functions@.len(),
                forall|k: int| 0 <= k < i ==> #[trigger] self.functions@[k].name@ != name@,
            decreases self.functions@.len() - i,
        {
            if str_equal(self.functions[i].name.as_str(), name) {
                assert(self.functions@[i as int] == self.functions@[i as int]);
                return Some(&self.functions[i]);
            }
            i = i + 1;
        }
        None
    }
}

// ---------------------------------------------------------------------------
// Types.

/// The IR type of a written type.
pub open spec fn ir_type_of(ty: Type) -> IrType
    decreases ty,
{
    match ty {
        Type::Void => IrType::Void,
        Type::Int => IrType::Int,
        Type::Char => IrType::Char,
        Type::U8 => IrType::U8,
        Type::U16 => IrType::U16,
        Type::U32 => IrType::U32,
        Type::U64 => IrType::U64,
        Type::I32 => IrType::I32,
        Type::I64 => IrType::I64,
        Type::Bool => IrType::Bool,
        Type::Pointer(inner, volatile) => IrType::Pointer(Box::new(ir_type_of(*inner)), volatile),
        Type::Struct(name) => IrType::Struct(name),
    }
}

pub fn ir_type(ty: &Type) -> (r: IrType)
    ensures
        r == ir_type_of(*ty),
    decreases ty,
{
    match ty {
        Type::Void => IrType::Void,
        Type::Int => IrType::Int,
        Type::Char => IrType::Char,
        Type::U8 => IrType::U8,
        Type::U16 => IrType::U16,
        Type::U32 => IrType::U32,
        Type::U64 => IrType::U64,
        Type::I32 => IrType::I32,
        Type::I64 => IrType::I64,
        Type::Bool => IrType::Bool,
        Type::Pointer(inner, volatile) => IrType::Pointer(Box::new(ir_type(inner)), *volatile),
        Type::Struct(name) => IrType::Struct(copy_string(name)),
    }
}

impl IrType {
    pub fn duplicate(&self) -> (r: IrType)
        ensures
            r == *self,
        decreases self,
    {
        match self {
            IrType::Void => IrType::Void,
            IrType::Int => IrType::Int,
            IrType::Char => IrType::Char,
            IrType::Bool => IrType::Bool,
            IrType::U8 => IrType::U8,
            IrType::U16 => IrType::U16,
            IrType::U32 => IrType::U32,
            IrType::U64 => IrType::U64,
            IrType::I32 => IrType::I32,
            IrType::I64 => IrType::I64,
            IrType::Pointer(inner, volatile) => IrType::Pointer(Box::new((**inner).duplicate()), *volatile),
            IrType::Struct(name) => IrType::Struct(copy_string(name)),
        }
    }
}

/// The number of bytes a scalar of this type occupies in memory; structs are
/// sized by their layout.
pub open spec fn scalar_size(ty: IrType) -> i64 {
    match ty {
        IrType::Char | IrType::U8 | IrType::Bool => 1,
        IrType::U16 => 2,
        IrType::U32 | IrType::I32 => 4,
        _ => 8,
    }
}

fn find_layout(layouts: &Vec<StructLayout>, name: &str) -> (r: Option<usize>)
    ensures
        match r {
            Some(i) => i < layouts@.len() && first_layout(layouts@, name@) == Some(i as int),
            None => first_layout(layouts@, name@) is None,
        },
{
    let ghost names = layouts@.map_values(|l: StructLayout| l.name@);
    let mut i: usize = 0;
    while i < layouts.len()
        invariant
            i <= layouts@.len(),
            names == layouts@.map_values(|l: StructLayout| l.name@),
            forall|k: int| 0 <= k < i ==> names[k] != name@,
        decreases layouts@.len() - i,
    {
        if str_equal(layouts[i].name.as_str(), name) {
            proof {
                lemma_first_index_found(names, name@, i as int);
            }
            return Some(i);
        }
        i = i + 1;
    }
    proof {
        lemma_first_index_missing(names, name@);
    }
    None
}

/// The size of a value of a type: scalars by width, structs by their layout
/// (a struct without a layout counts as one machine word).
pub fn type_size(ty: &IrType, layouts: &Vec<StructLayout>) -> (r: i64)
    ensures
        r == size_of_type(*ty, layouts@),
        layouts_bounded(layouts@) ==> 0 <= r <= MAX_STRUCT_SIZE,
{
    match ty {
        IrType::Struct(name) => match find_layout(layouts, name.as_str()) {
            Some(i) => layouts[i].size,
            None => 8,
        },
        IrType::Char | IrType::U8 | IrType::Bool => 1,
        IrType::U16 => 2,
        IrType::U32 | IrType::I32 => 4,
        _ => 8,
    }
}

/// Struct sizes stay below this bound, so sums of a few sizes never overflow.
pub const MAX_STRUCT_SIZE: i64 = 0x1_0000_0000_0000i64;

pub open spec fn layouts_bounded(layouts: Seq<StructLayout>) -> bool {
    forall|i: int| 0 <= i < layouts.len() ==> 0 <= #[trigger] layouts[i].size <= MAX_STRUCT_SIZE
}


// ---------------------------------------------------------------------------
// Struct layouts.

/// Where field `k` of a struct starts: the sum of the sizes of the fields
/// before it, with sizes from the layouts already made, saturating at
/// [`MAX_STRUCT_SIZE`]. The offset past the last field is the struct's size.
pub open spec fn field_offset(fields: Seq<StructField>, layouts: Seq<StructLayout>, k: int) -> i64
    decreases k,
{
    if k <= 0 {
        0
    } else {
        let next = field_offset(fields, layouts, k - 1) + size_of_type(ir_type_of(fields[k - 1].ty), layouts);
        if next > MAX_STRUCT_SIZE {
            MAX_STRUCT_SIZE
        } else {
            next as i64
        }
    }
}

/// `layout` lays out `d`, with the sizes of the structs laid out before it.
pub open spec fn lays_out(d: StructDefinition, before: Seq<StructLayout>, layout: StructLayout) -> bool {
    &&& layout.name == d.name
    &&& layout.fields@.len() == d.fields@.len()
    &&& forall|k: int|
        0 <= k < d.fields@.len() ==> #[trigger] layout.fields@[k] == (FieldLayout {
            name: d.fields@[k].name,
            ty: ir_type_of(d.fields@[k].ty),
            offset: field_offset(d.fields@, before, k),
        })
    &&& layout.size == field_offset(d.fields@, before, d.fields@.len() as int)
}

/// `layouts` are the layouts of the first `count` structs, in order of
/// definition; a struct whose name already has a layout gets none.
pub open spec fn layouts_from(structs: Seq<StructDefinition>, count: int, layouts: Seq<StructLayout>) -> bool
    decreases count,
{
    if count <= 0 || count > structs.len() {
        count == 0 && layouts.len() == 0
    } else {
        let d = structs[count - 1];
        ||| first_layout(layouts, d.name@) is Some && layouts_from(structs, count - 1, layouts)
        ||| layouts.len() > 0 && first_layout(layouts.drop_last(), d.name@) is None && layouts_from(
            structs,
            count - 1,
            layouts.drop_last(),
        ) && lays_out(d, layouts.drop_last(), layouts.last())
    }
}

/// Lays out the structs in order of definition. Each field starts where the
/// previous one ends; a struct's size is the sum of its fields' sizes (sizes
/// saturate at [`MAX_STRUCT_SIZE`]). A struct named twice keeps its first
/// layout.
pub fn build_layouts(structs: &Vec<StructDefinition>) -> (r: Vec<StructLayout>)
    ensures
        layouts_bounded(r@),
        layouts_from(structs@, structs@.len() as int, r@),
{
    let mut layouts: Vec<StructLayout> = Vec::new();
    let mut i: usize = 0;
    while i < structs.len()
        invariant
            i <= structs@.len(),
            layouts_bounded(layouts@),
            layouts_from(structs@, i as int, layouts@),
        decreases structs@.len() - i,
    {
        let definition = &structs[i];
        if find_layout(&layouts, definition.name.as_str()).is_none() {
            let mut fields: Vec<FieldLayout> = Vec::new();
            let mut offset: i64 = 0;
            let mut k: usize = 0;
            while k < definition.fields.len()
                invariant
                    layouts_bounded(layouts@),
                    0 <= offset <= MAX_STRUCT_SIZE,
                    k <= definition.fields@.len(),
                    fields@.len() == k,
                    offset == field_offset(definition.fields@, layouts@, k as int),
                    forall|j: int|
                        0 <= j < k ==> #[trigger] fields@[j] == (FieldLayout {
                            name: definition.fields@[j].name,
                            ty: ir_type_of(definition.fields@[j].ty),
                            offset: field_offset(definition.fields@, layouts@, j),
                        }),
                decreases definition.fields@.len() - k,
            {
                let field = &definition.fields[k];
                let ty = ir_type(&field.ty);
                let size = type_size(&ty, &layouts);
                fields.push(FieldLayout { name: copy_string(&field.name), ty, offset });
                offset = if offset + size > MAX_STRUCT_SIZE {
                    MAX_STRUCT_SIZE
                } else {
                    offset + size
                };
                k = k + 1;
            }
            let ghost before = layouts@;
            let layout = StructLayout { name: copy_string(&definition.name), fields, size: offset };
            assert(lays_out(*definition, before, layout));
            layouts.push(layout);
            assert(layouts@.drop_last() =~= before);
        }
        i = i + 1;
    }
    layouts
}

/// The field of a struct layout with this name (the last one, if named twice).
fn find_field(layout: &StructLayout, name: &str) -> (r: Option<usize>)
    ensures
        match r {
            Some(i) => i < layout.fields@.len() && last_field(layout.fields@, name@) == Some(i as int),
            None => last_field(layout.fields@, name@) is None,
        },
{
    let mut i = layout.fields.len();
    assert(layout.fields@.take(i as int) =~= layout.fields@);
    while i > 0
        invariant
            i <= layout.fields@.len(),
            last_field(layout.fields@, name@) == last_field(layout.fields@.take(i as int), name@),
        decreases i,
    {
        let ghost prefix = layout.fields@.take(i as int);
        assert(prefix.last() == layout.fields@[i - 1]);
        assert(prefix.drop_last() =~= layout.fields@.take(i - 1));
        i = i - 1;
        if str_equal(layout.fields[i].name.as_str(), name) {
            return Some(i);
        }
    }
    assert(layout.fields@.take(0) =~= Seq::<FieldLayout>::empty());
    None
}

// ---------------------------------------------------------------------------
// What lowering emits, stated over plain values.

/// An instruction with its byte strings as sequences.
pub enum InstructionView {
    Constant(i64),
    StringLiteral(Seq<u8>),
    PrintString(Seq<u8>),
    LoadLocal { name: Seq<char>, ty: IrType },
    StoreLocal { name: Seq<char>, ty: IrType },
    AddressLocal { name: Seq<char>, ty: IrType },
    FieldAddress { offset: i64, ty: IrType },
    Load { ty: IrType, volatile: bool },
    Store { ty: IrType, volatile: bool },
    Scale { bytes: i64 },
    Cast { from: IrType, to: IrType },
    Unary { operator: UnaryOperator, ty: IrType, volatile: bool },
    Binary { operator: BinaryOperator, ty: IrType },
    Call { name: Seq<char>, arguments: usize, ty: IrType },
    Pop,
    Branch { then_block: usize, else_block: usize },
    Jump { target: usize },
    Return { has_value: bool },
}

pub open spec fn instruction_view(instruction: Instruction) -> InstructionView {
    match instruction {
        Instruction::Constant(v) => InstructionView::Constant(v),
        Instruction::StringLiteral(bytes) => InstructionView::StringLiteral(bytes@),
        Instruction::PrintString(bytes) => InstructionView::PrintString(bytes@),
        Instruction::LoadLocal { name, ty } => InstructionView::LoadLocal { name: name@, ty },
        Instruction::StoreLocal { name, ty } => InstructionView::StoreLocal { name: name@, ty },
        Instruction::AddressLocal { name, ty } => InstructionView::AddressLocal { name: name@, ty },
        Instruction::FieldAddress { offset, ty } => InstructionView::FieldAddress { offset, ty },
        Instruction::Load { ty, volatile } => InstructionView::Load { ty, volatile },
        Instruction::Store { ty, volatile } => InstructionView::Store { ty, volatile },
        Instruction::Scale { bytes } => InstructionView::Scale { bytes },
        Instruction::Cast { from, to } => InstructionView::Cast { from, to },
        Instruction::Unary { operator, ty, volatile } => InstructionView::Unary { operator, ty, volatile },
        Instruction::Binary { operator, ty } => InstructionView::Binary { operator, ty },
        Instruction::Call { name, arguments, ty } => InstructionView::Call { name: name@, arguments, ty },
        Instruction::Pop => InstructionView::Pop,
        Instruction::Branch { then_block, else_block } => InstructionView::Branch { then_block, else_block },
        Instruction::Jump { target } => InstructionView::Jump { target },
        Instruction::Return { has_value } => InstructionView::Return { has_value },
    }
}

pub open spec fn code_view(instructions: Seq<Instruction>) -> Seq<InstructionView> {
    instructions.map_values(|instruction: Instruction| instruction_view(instruction))
}

/// The index of the first of these names that is `name`.
pub open spec fn first_index(names: Seq<Seq<char>>, name: Seq<char>) -> Option<int>
    decreases names.len(),
{
    if names.len() == 0 {
        None
    } else {
        match first_index(names.drop_last(), name) {
            Some(k) => Some(k),
            None => if names.last() == name {
                Some(names.len() - 1)
            } else {
                None
            },
        }
    }
}

pub proof fn lemma_first_index_found(names: Seq<Seq<char>>, name: Seq<char>, i: int)
    requires
        0 <= i < names.len(),
        names[i] == name,
        forall|k: int| 0 <= k < i ==> names[k] != name,
    ensures
        first_index(names, name) == Some(i),
    decreases names.len(),
{
    if i < names.len() - 1 {
        lemma_first_index_found(names.drop_last(), name, i);
    } else {
        lemma_first_index_missing(names.drop_last(), name);
    }
}

pub proof fn lemma_first_index_missing(names: Seq<Seq<char>>, name: Seq<char>)
    requires
        forall|k: int| 0 <= k < names.len() ==> names[k] != name,
    ensures
        first_index(names, name) is None,
    decreases names.len(),
{
    if names.len() > 0 {
        lemma_first_index_missing(names.drop_last(), name);
    }
}

/// The first local with this name.
pub open spec fn first_local(locals: Seq<Local>, name: Seq<char>) -> Option<int> {
    first_index(locals.map_values(|l: Local| l.name@), name)
}

/// The type of the local with this name.
pub open spec fn local_type_of(locals: Seq<Local>, name: Seq<char>) -> Option<IrType> {
    match first_local(locals, name) {
        Some(k) => Some(locals[k].ty),
        None => None,
    }
}

/// The first struct layout with this name.
pub open spec fn first_layout(layouts: Seq<StructLayout>, name: Seq<char>) -> Option<int> {
    first_index(layouts.map_values(|l: StructLayout| l.name@), name)
}

/// The last field of a layout with this name.
pub open spec fn last_field(fields: Seq<FieldLayout>, name: Seq<char>) -> Option<int>
    decreases fields.len(),
{
    if fields.len() == 0 {
        None
    } else if fields.last().name@ == name {
        Some(fields.len() - 1)
    } else {
        last_field(fields.drop_last(), name)
    }
}

/// The size of a value of a type, with struct sizes from their layouts.
pub open spec fn size_of_type(ty: IrType, layouts: Seq<StructLayout>) -> i64 {
    match ty {
        IrType::Struct(name) => match first_layout(layouts, name@) {
            Some(k) => layouts[k].size,
            None => 8,
        },
        _ => scalar_size(ty),
    }
}

/// The offset and type of a field reached from a struct or a pointer to one.
pub open spec fn field_of_type(layouts: Seq<StructLayout>, base: IrType, field: Seq<char>) -> Option<(i64, IrType)> {
    let name = match base {
        IrType::Struct(name) => Some(name),
        IrType::Pointer(inner, _) => match *inner {
            IrType::Struct(name) => Some(name),
            _ => None,
        },
        _ => None,
    };
    match name {
        Some(name) => match first_layout(layouts, name@) {
            Some(k) => match last_field(layouts[k].fields@, field) {
                Some(f) => Some((layouts[k].fields@[f].offset, layouts[k].fields@[f].ty)),
                None => None,
            },
            None => None,
        },
        None => None,
    }
}

/// The first function of a program with this name.
pub open spec fn first_function(functions: Seq<Function>, name: Seq<char>) -> Option<int> {
    first_index(functions.map_values(|f: Function| f.name@), name)
}

/// The first extern declaration with this name.
pub open spec fn first_extern(externs: Seq<crate::ast::ExternFunction>, name: Seq<char>) -> Option<int> {
    first_index(externs.map_values(|f: crate::ast::ExternFunction| f.name@), name)
}

/// The return type of what a call names: a function, an extern declaration
/// or an intrinsic (anything else counts as `int`).
pub open spec fn call_type_of(program: Program, name: Seq<char>) -> IrType {
    match first_function(program.functions@, name) {
        Some(k) => ir_type_of(program.functions@[k].return_type),
        None => match first_extern(program.extern_functions@, name) {
            Some(k) => ir_type_of(program.extern_functions@[k].return_type),
            None => match sema::intrinsic(name) {
                Some((ret, _)) => ir_type_of(ret),
                None => IrType::Int,
            },
        },
    }
}

/// Whether a name is a function or extern declaration of the program.
pub open spec fn is_declared_function(program: Program, name: Seq<char>) -> bool {
    first_function(program.functions@, name) is Some || first_extern(program.extern_functions@, name) is Some
}

/// The type a pointer type points to (`int` for anything else).
pub open spec fn pointee_of(ty: IrType) -> IrType {
    match ty {
        IrType::Pointer(inner, _) => *inner,
        _ => IrType::Int,
    }
}

/// The IR type of an expression of a checked program.
pub open spec fn type_of_expression(program: Program, layouts: Seq<StructLayout>, locals: Seq<Local>, e: Expression) -> IrType
    decreases e,
{
    match e {
        Expression::Integer { .. } => IrType::Int,
        Expression::Character { .. } => IrType::Char,
        Expression::String { .. } => IrType::Pointer(Box::new(IrType::Char), false),
        Expression::Boolean { .. } => IrType::Bool,
        Expression::Name { value, .. } => match local_type_of(locals, value@) {
            Some(ty) => ty,
            None => IrType::Int,
        },
        Expression::Unary { operator, operand, .. } => {
            let inner = type_of_expression(program, layouts, locals, *operand);
            match operator {
                UnaryOperator::AddressOf => IrType::Pointer(Box::new(inner), false),
                UnaryOperator::Dereference => pointee_of(inner),
                _ => inner,
            }
        },
        Expression::Binary { left, operator, .. } => if is_comparison_operator(operator) {
            IrType::Bool
        } else {
            type_of_expression(program, layouts, locals, *left)
        },
        Expression::Call { callee, .. } => match *callee {
            Expression::Name { value, .. } => call_type_of(program, value@),
            _ => IrType::Int,
        },
        Expression::Index { base, .. } => pointee_of(type_of_expression(program, layouts, locals, *base)),
        Expression::Field { base, field, .. } => match field_of_type(
            layouts,
            type_of_expression(program, layouts, locals, *base),
            field@,
        ) {
            Some((_, ty)) => ty,
            None => IrType::Int,
        },
        Expression::Cast { ty, .. } => ir_type_of(ty),
    }
}

pub open spec fn is_comparison_operator(operator: BinaryOperator) -> bool {
    match operator {
        BinaryOperator::Equal | BinaryOperator::NotEqual | BinaryOperator::Less
        | BinaryOperator::LessEqual | BinaryOperator::Greater | BinaryOperator::GreaterEqual => true,
        _ => false,
    }
}

/// Whether an expression reads or writes memory through a `volatile`
/// pointer: `*p` or `p[i]` where `p` has a volatile pointer type.
pub open spec fn volatile_access(program: Program, layouts: Seq<StructLayout>, locals: Seq<Local>, e: Expression) -> bool {
    match e {
        Expression::Unary { operator: UnaryOperator::Dereference, operand, .. } => type_of_expression(
            program,
            layouts,
            locals,
            *operand,
        ) matches IrType::Pointer(_, v) && v,
        Expression::Index { base, .. } => type_of_expression(program, layouts, locals, *base) matches IrType::Pointer(
            _,
            v,
        ) && v,
        _ => false,
    }
}

/// Whether a call prints a string literal: `print("...")` where the program
/// defines no `print` of its own.
pub open spec fn printed_literal(program: Program, callee: Expression, arguments: Seq<Expression>) -> Option<Seq<u8>> {
    match callee {
        Expression::Name { value, .. } => if value@ == "print"@ && !is_declared_function(program, value@)
            && arguments.len() == 1 {
            match arguments[0] {
                Expression::String { value: bytes, .. } => Some(bytes@),
                _ => None,
            }
        } else {
            None
        },
        _ => None,
    }
}

/// The code that pushes the value of an expression.
pub open spec fn expression_code(program: Program, layouts: Seq<StructLayout>, locals: Seq<Local>, e: Expression) -> Seq<InstructionView>
    decreases e, 1int, 0int,
{
    match e {
        Expression::Integer { value, .. } => match crate::number::literal_i64(value@) {
            Some(v) => seq![InstructionView::Constant(v)],
            None => Seq::empty(),
        },
        Expression::Character { value, .. } => seq![InstructionView::Constant(value as i64)],
        Expression::Boolean { value, .. } => seq![InstructionView::Constant(if value { 1i64 } else { 0i64 })],
        Expression::String { value, .. } => seq![InstructionView::StringLiteral(value@)],
        Expression::Name { value, .. } => match local_type_of(locals, value@) {
            Some(ty) => seq![InstructionView::LoadLocal { name: value@, ty }],
            None => Seq::empty(),
        },
        Expression::Unary { operator, operand, .. } => match operator {
            UnaryOperator::AddressOf => lvalue_code(program, layouts, locals, *operand),
            _ => expression_code(program, layouts, locals, *operand).push(
                InstructionView::Unary {
                    operator,
                    ty: type_of_expression(program, layouts, locals, e),
                    volatile: volatile_access(program, layouts, locals, e),
                },
            ),
        },
        Expression::Binary { left, operator, right, .. } => expression_code(program, layouts, locals, *left)
            + expression_code(program, layouts, locals, *right) + seq![
            InstructionView::Binary { operator, ty: type_of_expression(program, layouts, locals, *left) },
        ],
        Expression::Call { callee, arguments, .. } => match printed_literal(program, *callee, arguments@) {
            Some(bytes) => seq![InstructionView::PrintString(bytes)],
            None => arguments_code(program, layouts, locals, arguments@, arguments@.len() as int) + match *callee {
                Expression::Name { value, .. } => seq![
                    InstructionView::Call {
                        name: value@,
                        arguments: arguments@.len() as usize,
                        ty: type_of_expression(program, layouts, locals, e),
                    },
                ],
                _ => Seq::empty(),
            },
        },
        Expression::Index { .. } => lvalue_code(program, layouts, locals, e).push(
            InstructionView::Load {
                ty: type_of_expression(program, layouts, locals, e),
                volatile: volatile_access(program, layouts, locals, e),
            },
        ),
        Expression::Field { .. } => lvalue_code(program, layouts, locals, e).push(
            InstructionView::Load { ty: type_of_expression(program, layouts, locals, e), volatile: false },
        ),
        Expression::Cast { ty, operand, .. } => expression_code(program, layouts, locals, *operand).push(
            InstructionView::Cast {
                from: type_of_expression(program, layouts, locals, *operand),
                to: ir_type_of(ty),
            },
        ),
    }
}

/// The code of every block, in order of block number.
pub open spec fn blocks_code(blocks: Seq<BasicBlock>) -> Seq<Seq<InstructionView>> {
    blocks.map_values(|b: BasicBlock| code_view(b.instructions@))
}

/// Every block carries its own position as its number.
pub open spec fn blocks_numbered(blocks: Seq<BasicBlock>) -> bool {
    forall|k: int| 0 <= k < blocks.len() ==> #[trigger] blocks[k].id == k
}

/// The code with `more` added at the end of block `id`.
pub open spec fn emitted(code: Seq<Seq<InstructionView>>, id: int, more: Seq<InstructionView>) -> Seq<
    Seq<InstructionView>,
> {
    code.update(id, code[id] + more)
}

/// Whether a block's code already ends in a jump, a branch or a return.
pub open spec fn ends_block(code: Seq<InstructionView>) -> bool {
    code.len() > 0 && match code.last() {
        InstructionView::Return { .. } => true,
        InstructionView::Jump { .. } => true,
        InstructionView::Branch { .. } => true,
        _ => false,
    }
}

/// Block `at` falls through to `target`: a jump is added unless the block
/// already ends.
pub open spec fn closed(code: Seq<Seq<InstructionView>>, at: int, target: int) -> Seq<Seq<InstructionView>> {
    if ends_block(code[at]) {
        code
    } else {
        emitted(code, at, seq![InstructionView::Jump { target: target as usize }])
    }
}

/// Three new empty blocks at the end.
pub open spec fn with_three_blocks(code: Seq<Seq<InstructionView>>) -> Seq<Seq<InstructionView>> {
    code.push(Seq::empty()).push(Seq::empty()).push(Seq::empty())
}

/// The code after lowering statement `s` into block `id`, and the block
/// where lowering goes on. An `if` adds blocks for its two branches and
/// for what follows; a `while` adds blocks for its condition, its body and
/// what follows. A branch or body that does not end falls through by a
/// jump.
pub open spec fn statement_lowering(
    program: Program,
    layouts: Seq<StructLayout>,
    locals: Seq<Local>,
    code: Seq<Seq<InstructionView>>,
    id: int,
    s: Statement,
) -> (Seq<Seq<InstructionView>>, int)
    decreases s, 0int,
{
    match s {
        Statement::Declare { .. } => (code, id),
        Statement::Let { name, value, .. } => (
            emitted(
                code,
                id,
                expression_code(program, layouts, locals, value) + match local_type_of(locals, name@) {
                    Some(ty) => seq![InstructionView::StoreLocal { name: name@, ty }],
                    None => Seq::empty(),
                },
            ),
            id,
        ),
        Statement::Assign { target, value, .. } => (
            emitted(
                code,
                id,
                lvalue_code(program, layouts, locals, target) + expression_code(program, layouts, locals, value)
                    + seq![
                    InstructionView::Store {
                        ty: type_of_expression(program, layouts, locals, target),
                        volatile: volatile_access(program, layouts, locals, target),
                    },
                ],
            ),
            id,
        ),
        Statement::Return { value, .. } => (
            emitted(
                code,
                id,
                match value {
                    Some(v) => expression_code(program, layouts, locals, v),
                    None => Seq::empty(),
                } + seq![InstructionView::Return { has_value: value is Some }],
            ),
            id,
        ),
        Statement::Expression { expression, .. } => (
            emitted(code, id, expression_code(program, layouts, locals, expression) + seq![InstructionView::Pop]),
            id,
        ),
        Statement::Block(b) => branch_lowering(program, layouts, locals, code, id, b),
        Statement::If { condition, then_branch, else_branch, .. } => {
            let n = code.len() as int;
            let c1 = with_three_blocks(emitted(code, id, expression_code(program, layouts, locals, condition)));
            let c2 = emitted(
                c1,
                id,
                seq![InstructionView::Branch { then_block: n as usize, else_block: (n + 1) as usize }],
            );
            let (c3, then_end) = branch_lowering(program, layouts, locals, c2, n, then_branch);
            let c4 = closed(c3, then_end, n + 2);
            match else_branch {
                Some(other) => {
                    let (c5, else_end) = branch_lowering(program, layouts, locals, c4, n + 1, other);
                    (closed(c5, else_end, n + 2), n + 2)
                },
                None => (emitted(c4, n + 1, seq![InstructionView::Jump { target: (n + 2) as usize }]), n + 2),
            }
        },
        Statement::While { condition, body, .. } => {
            let n = code.len() as int;
            let c1 = emitted(with_three_blocks(code), id, seq![InstructionView::Jump { target: n as usize }]);
            let c2 = emitted(c1, n, expression_code(program, layouts, locals, condition));
            let c3 = emitted(
                c2,
                n,
                seq![InstructionView::Branch { then_block: (n + 1) as usize, else_block: (n + 2) as usize }],
            );
            let (c4, body_end) = branch_lowering(program, layouts, locals, c3, n + 1, body);
            (closed(c4, body_end, n), n + 2)
        },
    }
}

/// The code after lowering a block's statements, in order, from block `id`.
pub open spec fn branch_lowering(
    program: Program,
    layouts: Seq<StructLayout>,
    locals: Seq<Local>,
    code: Seq<Seq<InstructionView>>,
    id: int,
    b: Block,
) -> (Seq<Seq<InstructionView>>, int)
    decreases b, 0int,
{
    block_lowering(program, layouts, locals, code, id, b.statements@, b.statements@.len() as int)
}

/// The code after lowering the first `count` statements.
pub open spec fn block_lowering(
    program: Program,
    layouts: Seq<StructLayout>,
    locals: Seq<Local>,
    code: Seq<Seq<InstructionView>>,
    id: int,
    statements: Seq<Statement>,
    count: int,
) -> (Seq<Seq<InstructionView>>, int)
    decreases statements, count,
{
    if count <= 0 || count > statements.len() {
        (code, id)
    } else {
        let (before, at) = block_lowering(program, layouts, locals, code, id, statements, count - 1);
        statement_lowering(program, layouts, locals, before, at, statements[count - 1])
    }
}

/// The locals after those a statement declares: a `let` takes the type of
/// its value, a declaration its written type; nested blocks declare theirs
/// in order.
pub open spec fn statement_locals(program: Program, layouts: Seq<StructLayout>, locals: Seq<Local>, s: Statement) -> Seq<
    Local,
>
    decreases s, 0int,
{
    match s {
        Statement::Let { name, value, .. } => locals.push(
            Local { name, ty: type_of_expression(program, layouts, locals, value) },
        ),
        Statement::Declare { ty, name, .. } => locals.push(Local { name, ty: ir_type_of(ty) }),
        Statement::If { then_branch, else_branch, .. } => {
            let after_then = branch_locals(program, layouts, locals, then_branch);
            match else_branch {
                Some(other) => branch_locals(program, layouts, after_then, other),
                None => after_then,
            }
        },
        Statement::While { body, .. } => branch_locals(program, layouts, locals, body),
        Statement::Block(b) => branch_locals(program, layouts, locals, b),
        _ => locals,
    }
}

/// The locals after those a block declares.
pub open spec fn branch_locals(program: Program, layouts: Seq<StructLayout>, locals: Seq<Local>, b: Block) -> Seq<Local>
    decreases b, 0int,
{
    block_locals(program, layouts, locals, b.statements@, b.statements@.len() as int)
}

/// The locals after those the first `count` statements declare.
pub open spec fn block_locals(
    program: Program,
    layouts: Seq<StructLayout>,
    locals: Seq<Local>,
    statements: Seq<Statement>,
    count: int,
) -> Seq<Local>
    decreases statements, count,
{
    if count <= 0 || count > statements.len() {
        locals
    } else {
        statement_locals(
            program,
            layouts,
            block_locals(program, layouts, locals, statements, count - 1),
            statements[count - 1],
        )
    }
}

/// A function's locals: its parameters, then what its body declares.
pub open spec fn function_locals(program: Program, layouts: Seq<StructLayout>, f: Function) -> Seq<Local> {
    branch_locals(
        program,
        layouts,
        f.parameters@.map_values(|p: Parameter| Local { name: p.name, ty: ir_type_of(p.ty) }),
        f.body,
    )
}

/// A function's blocks: lowering starts in block 0.
pub open spec fn function_code(program: Program, layouts: Seq<StructLayout>, f: Function) -> Seq<
    Seq<InstructionView>,
> {
    branch_lowering(program, layouts, function_locals(program, layouts, f), seq![Seq::empty()], 0, f.body).0
}

/// `ir` is function `f` lowered: same name, types and locals, and blocks
/// numbered in order that hold the function's code.
pub open spec fn lowered_function(program: Program, layouts: Seq<StructLayout>, f: Function, ir: IrFunction) -> bool {
    &&& ir.name == f.name
    &&& ir.return_type == ir_type_of(f.return_type)
    &&& ir.parameters@ == f.parameters@.map_values(|p: Parameter| ir_type_of(p.ty))
    &&& ir.locals@ == function_locals(program, layouts, f)
    &&& blocks_code(ir.blocks@) == function_code(program, layouts, f)
    &&& blocks_numbered(ir.blocks@)
}

/// The code of the first `count` arguments of a call, in order.
pub open spec fn arguments_code(
    program: Program,
    layouts: Seq<StructLayout>,
    locals: Seq<Local>,
    arguments: Seq<Expression>,
    count: int,
) -> Seq<InstructionView>
    decreases arguments, 0int, count,
{
    if count <= 0 || count > arguments.len() {
        Seq::empty()
    } else {
        arguments_code(program, layouts, locals, arguments, count - 1) + expression_code(
            program,
            layouts,
            locals,
            arguments[count - 1],
        )
    }
}

/// The code that pushes the address of a place: a local, `*pointer`,
/// `pointer[index]` (scaled by the element size) or `value.field`.
pub open spec fn lvalue_code(program: Program, layouts: Seq<StructLayout>, locals: Seq<Local>, e: Expression) -> Seq<InstructionView>
    decreases e, 0int, 0int,
{
    match e {
        Expression::Name { value, .. } => match local_type_of(locals, value@) {
            Some(ty) => seq![
                InstructionView::AddressLocal { name: value@, ty: IrType::Pointer(Box::new(ty), false) },
            ],
            None => Seq::empty(),
        },
        Expression::Unary { operator: UnaryOperator::Dereference, operand, .. } => expression_code(
            program,
            layouts,
            locals,
            *operand,
        ),
        Expression::Index { base, index, .. } => {
            let element = type_of_expression(program, layouts, locals, e);
            expression_code(program, layouts, locals, *base) + expression_code(program, layouts, locals, *index)
                + seq![
                InstructionView::Scale { bytes: size_of_type(element, layouts) },
                InstructionView::Binary {
                    operator: BinaryOperator::Add,
                    ty: IrType::Pointer(Box::new(element), false),
                },
            ]
        },
        Expression::Field { base, field, .. } => {
            let base_type = type_of_expression(program, layouts, locals, *base);
            (if base_type is Pointer {
                expression_code(program, layouts, locals, *base)
            } else {
                lvalue_code(program, layouts, locals, *base)
            }) + match field_of_type(layouts, base_type, field@) {
                Some((offset, ty)) => seq![InstructionView::FieldAddress { offset, ty }],
                None => Seq::empty(),
            }
        },
        _ => Seq::empty(),
    }
}

// ---------------------------------------------------------------------------
// Lowering.

/// What lowering needs to know about the whole program.
struct Env<'a> {
    program: &'a Program,
    layouts: &'a Vec<StructLayout>,
}

fn is_comparison(operator: BinaryOperator) -> (r: bool)
    ensures
        r == is_comparison_operator(operator),
{
    match operator {
        BinaryOperator::Equal | BinaryOperator::NotEqual | BinaryOperator::Less
        | BinaryOperator::LessEqual | BinaryOperator::Greater | BinaryOperator::GreaterEqual => true,
        _ => false,
    }
}

/// The type a pointer type points to (`int` for anything else).
fn pointee(ty: &IrType) -> (r: IrType)
    ensures
        r == pointee_of(*ty),
{
    match ty {
        IrType::Pointer(inner, _) => (**inner).duplicate(),
        _ => IrType::Int,
    }
}

/// Whether a type is a `volatile`-qualified pointer.
fn is_volatile_pointer(ty: &IrType) -> (r: bool)
    ensures
        r == (*ty matches IrType::Pointer(_, v) && v),
{
    match ty {
        IrType::Pointer(_, volatile) => *volatile,
        _ => false,
    }
}

fn find_local(locals: &Vec<Local>, name: &str) -> (r: Option<usize>)
    ensures
        match r {
            Some(i) => i < locals@.len() && first_local(locals@, name@) == Some(i as int),
            None => first_local(locals@, name@) is None,
        },
{
    let ghost names = locals@.map_values(|l: Local| l.name@);
    let mut i: usize = 0;
    while i < locals.len()
        invariant
            i <= locals@.len(),
            names == locals@.map_values(|l: Local| l.name@),
            forall|k: int| 0 <= k < i ==> names[k] != name@,
        decreases locals@.len() - i,
    {
        if str_equal(locals[i].name.as_str(), name) {
            proof {
                lemma_first_index_found(names, name@, i as int);
            }
            return Some(i);
        }
        i = i + 1;
    }
    proof {
        lemma_first_index_missing(names, name@);
    }
    None
}

/// The index of the first function with this name.
fn find_function(functions: &Vec<Function>, name: &str) -> (r: Option<usize>)
    ensures
        match r {
            Some(i) => i < functions@.len() && first_function(functions@, name@) == Some(i as int),
            None => first_function(functions@, name@) is None,
        },
{
    let ghost names = functions@.map_values(|f: Function| f.name@);
    let mut i: usize = 0;
    while i < functions.len()
        invariant
            i <= functions@.len(),
            names == functions@.map_values(|f: Function| f.name@),
            forall|k: int| 0 <= k < i ==> names[k] != name@,
        decreases functions@.len() - i,
    {
        if str_equal(functions[i].name.as_str(), name) {
            proof {
                lemma_first_index_found(names, name@, i as int);
            }
            return Some(i);
        }
        i = i + 1;
    }
    proof {
        lemma_first_index_missing(names, name@);
    }
    None
}

/// The index of the first extern declaration with this name.
fn find_extern(externs: &Vec<crate::ast::ExternFunction>, name: &str) -> (r: Option<usize>)
    ensures
        match r {
            Some(i) => i < externs@.len() && first_extern(externs@, name@) == Some(i as int),
            None => first_extern(externs@, name@) is None,
        },
{
    let ghost names = externs@.map_values(|f: crate::ast::ExternFunction| f.name@);
    let mut i: usize = 0;
    while i < externs.len()
        invariant
            i <= externs@.len(),
            names == externs@.map_values(|f: crate::ast::ExternFunction| f.name@),
            forall|k: int| 0 <= k < i ==> names[k] != name@,
        decreases externs@.len() - i,
    {
        if str_equal(externs[i].name.as_str(), name) {
            proof {
                lemma_first_index_found(names, name@, i as int);
            }
            return Some(i);
        }
        i = i + 1;
    }
    proof {
        lemma_first_index_missing(names, name@);
    }
    None
}

impl<'a> Env<'a> {
    /// The return type of the function or intrinsic a call names.
    fn call_type(&self, name: &String) -> (r: IrType)
        ensures
            r == call_type_of(*self.program, name@),
    {
        match find_function(&self.program.functions, name.as_str()) {
            Some(i) => ir_type(&self.program.functions[i].return_type),
            None => match find_extern(&self.program.extern_functions, name.as_str()) {
                Some(i) => ir_type(&self.program.extern_functions[i].return_type),
                None => match sema::intrinsic_signature(name.as_str()) {
                    Some((return_type, _)) => ir_type(&return_type),
                    None => IrType::Int,
                },
            },
        }
    }

    /// Whether a name is one of the program's own functions.
    fn is_program_function(&self, name: &String) -> (r: bool)
        ensures
            r == is_declared_function(*self.program, name@),
    {
        find_function(&self.program.functions, name.as_str()).is_some() || find_extern(
            &self.program.extern_functions,
            name.as_str(),
        ).is_some()
    }

    /// The layout of a struct field reached from a value of type `base`
    /// (a struct or a pointer to one): its offset and type.
    fn field_of(&self, base: &IrType, field: &String) -> (r: Option<(i64, IrType)>)
        ensures
            r == field_of_type(self.layouts@, *base, field@),
    {
        let name = match base {
            IrType::Struct(name) => name,
            IrType::Pointer(inner, _) => match &**inner {
                IrType::Struct(name) => name,
                _ => return None,
            },
            _ => return None,
        };
        match find_layout(self.layouts, name.as_str()) {
            Some(index) => {
                let layout = &self.layouts[index];
                match find_field(layout, field.as_str()) {
                    Some(f) => Some((layout.fields[f].offset, layout.fields[f].ty.duplicate())),
                    None => None,
                }
            },
            None => None,
        }
    }

    /// The type of an expression in a checked program, given the function's
    /// locals.
    fn type_of(&self, locals: &Vec<Local>, expression: &Expression) -> (r: IrType)
        ensures
            r == type_of_expression(*self.program, self.layouts@, locals@, *expression),
        decreases expression,
    {
        match expression {
            Expression::Integer { .. } => IrType::Int,
            Expression::Character { .. } => IrType::Char,
            Expression::String { .. } => IrType::Pointer(Box::new(IrType::Char), false),
            Expression::Boolean { .. } => IrType::Bool,
            Expression::Name { value, .. } => match find_local(locals, value.as_str()) {
                Some(i) => locals[i].ty.duplicate(),
                None => IrType::Int,
            },
            Expression::Unary { operator, operand, .. } => {
                let inner = self.type_of(locals, operand);
                match operator {
                    UnaryOperator::AddressOf => IrType::Pointer(Box::new(inner), false),
                    UnaryOperator::Dereference => pointee(&inner),
                    _ => inner,
                }
            },
            Expression::Binary { left, operator, .. } => {
                if is_comparison(*operator) {
                    IrType::Bool
                } else {
                    self.type_of(locals, left)
                }
            },
            Expression::Call { callee, .. } => match &**callee {
                Expression::Name { value, .. } => self.call_type(value),
                _ => IrType::Int,
            },
            Expression::Index { base, .. } => {
                let base_type = self.type_of(locals, base);
                pointee(&base_type)
            },
            Expression::Field { base, field, .. } => {
                let base_type = self.type_of(locals, base);
                match self.field_of(&base_type, field) {
                    Some((_, ty)) => ty,
                    None => IrType::Int,
                }
            },
            Expression::Cast { ty, .. } => ir_type(ty),
        }
    }

    /// Whether an expression reads or writes memory through a `volatile`
    /// pointer: `*p` or `p[i]` with `p` such a pointer.
    fn accesses_volatile(&self, locals: &Vec<Local>, expression: &Expression) -> (r: bool)
        ensures
            r == volatile_access(*self.program, self.layouts@, locals@, *expression),
    {
        match expression {
            Expression::Unary { operator: UnaryOperator::Dereference, operand, .. } => {
                let ty = self.type_of(locals, operand);
                is_volatile_pointer(&ty)
            },
            Expression::Index { base, .. } => {
                let ty = self.type_of(locals, base);
                is_volatile_pointer(&ty)
            },
            _ => false,
        }
    }
}

/// Collects the locals a block declares, in order, after those already known.
fn collect_locals(env: &Env, block: &Block, locals: &mut Vec<Local>)
    requires
        layouts_bounded(env.layouts@),
    ensures
        final(locals)@ == branch_locals(*env.program, env.layouts@, old(locals)@, *block),
    decreases block, 0nat,
{
    let mut i: usize = 0;
    #[verifier::loop_isolation(false)]
    while i < block.statements.len()
        invariant
            i <= block.statements@.len(),
            locals@ == block_locals(*env.program, env.layouts@, old(locals)@, block.statements@, i as int),
        decreases block.statements@.len() - i,
    {
        collect_statement_locals(env, &block.statements[i], locals);
        i = i + 1;
    }
}

fn collect_statement_locals(env: &Env, statement: &Statement, locals: &mut Vec<Local>)
    requires
        layouts_bounded(env.layouts@),
    ensures
        final(locals)@ == statement_locals(*env.program, env.layouts@, old(locals)@, *statement),
    decreases statement, 1nat,
{
    match statement {
        Statement::Let { name, value, .. } => {
            let ty = env.type_of(locals, value);
            locals.push(Local { name: copy_string(name), ty });
        },
        Statement::Declare { ty, name, .. } => {
            locals.push(Local { name: copy_string(name), ty: ir_type(ty) });
        },
        Statement::If { then_branch, else_branch, .. } => {
            collect_locals(env, then_branch, locals);
            match else_branch {
                Some(b) => collect_locals(env, b, locals),
                None => {},
            }
        },
        Statement::While { body, .. } => collect_locals(env, body, locals),
        Statement::Block(body) => collect_locals(env, body, locals),
        _ => {},
    }
}

/// Builds the basic blocks of one function.
struct FunctionBuilder {
    blocks: Vec<BasicBlock>,
    locals: Vec<Local>,
}

impl FunctionBuilder {
    fn push(&mut self, id: usize, instruction: Instruction)
        requires
            id < old(self).blocks@.len(),
        ensures
            final(self).blocks@.len() == old(self).blocks@.len(),
            final(self).locals == old(self).locals,
            final(self).appended(&*old(self), id as int, seq![instruction_view(instruction)]),
    {
        let mut block = BasicBlock { id: 0, instructions: Vec::new() };
        std::mem::swap(&mut block, &mut self.blocks[id]);
        let ghost before = block.instructions@;
        block.instructions.push(instruction);
        self.blocks.set(id, block);
        assert(code_view(self.blocks@[id as int].instructions@) =~= code_view(before) + seq![instruction_view(instruction)]);
    }

    /// Block `id` grew by `code`; every other block is as it was.
    spec fn appended(&self, before: &FunctionBuilder, id: int, code: Seq<InstructionView>) -> bool {
        &&& self.blocks@.len() == before.blocks@.len()
        &&& self.blocks@[id].id == before.blocks@[id].id
        &&& code_view(self.blocks@[id].instructions@) == code_view(before.blocks@[id].instructions@) + code
        &&& forall|k: int| 0 <= k < self.blocks@.len() && k != id ==> #[trigger] self.blocks@[k] == before.blocks@[k]
    }

    fn new_block(&mut self) -> (r: usize)
        ensures
            final(self).blocks@.len() == old(self).blocks@.len() + 1,
            r == old(self).blocks@.len(),
            final(self).locals == old(self).locals,
            blocks_code(final(self).blocks@) == blocks_code(old(self).blocks@).push(Seq::empty()),
            blocks_numbered(old(self).blocks@) ==> blocks_numbered(final(self).blocks@),
    {
        let id = self.blocks.len();
        self.blocks.push(BasicBlock { id, instructions: Vec::new() });
        assert(code_view(Seq::<Instruction>::empty()) =~= Seq::<InstructionView>::empty());
        assert(blocks_code(self.blocks@) =~= blocks_code(old(self).blocks@).push(Seq::empty()));
        id
    }

    fn terminated(&self, id: usize) -> (r: bool)
        requires
            id < self.blocks@.len(),
        ensures
            r == ends_block(blocks_code(self.blocks@)[id as int]),
    {
        let instructions = &self.blocks[id].instructions;
        if instructions.len() == 0 {
            return false;
        }
        match &instructions[instructions.len() - 1] {
            Instruction::Return { .. } | Instruction::Jump { .. } | Instruction::Branch { .. } => true,
            _ => false,
        }
    }

    fn local_type(&self, name: &String) -> (r: Option<IrType>)
        ensures
            r == local_type_of(self.locals@, name@),
    {
        match find_local(&self.locals, name.as_str()) {
            Some(i) => Some(self.locals[i].ty.duplicate()),
            None => None,
        }
    }

    fn block(&mut self, env: &Env, id: usize, block: &Block) -> (r: usize)
        requires
            id < old(self).blocks@.len(),
            layouts_bounded(env.layouts@),
        ensures
            final(self).blocks@.len() >= old(self).blocks@.len(),
            r < final(self).blocks@.len(),
            final(self).locals == old(self).locals,
            (blocks_code(final(self).blocks@), r as int) == branch_lowering(
                *env.program,
                env.layouts@,
                old(self).locals@,
                blocks_code(old(self).blocks@),
                id as int,
                *block,
            ),
            blocks_numbered(old(self).blocks@) ==> blocks_numbered(final(self).blocks@),
        decreases block, 0nat,
    {
        let ghost start = blocks_code(self.blocks@);
        let mut current = id;
        let mut i: usize = 0;
        #[verifier::loop_isolation(false)]
        while i < block.statements.len()
            invariant
                current < self.blocks@.len(),
                self.blocks@.len() >= old(self).blocks@.len(),
                self.locals == old(self).locals,
                i <= block.statements@.len(),
                (blocks_code(self.blocks@), current as int) == block_lowering(
                    *env.program,
                    env.layouts@,
                    old(self).locals@,
                    start,
                    id as int,
                    block.statements@,
                    i as int,
                ),
                blocks_numbered(old(self).blocks@) ==> blocks_numbered(self.blocks@),
            decreases block.statements@.len() - i,
        {
            current = self.statement(env, current, &block.statements[i]);
            i = i + 1;
        }
        current
    }

    fn statement(&mut self, env: &Env, id: usize, statement: &Statement) -> (r: usize)
        requires
            id < old(self).blocks@.len(),
            layouts_bounded(env.layouts@),
        ensures
            final(self).blocks@.len() >= old(self).blocks@.len(),
            r < final(self).blocks@.len(),
            final(self).locals == old(self).locals,
            (blocks_code(final(self).blocks@), r as int) == statement_lowering(
                *env.program,
                env.layouts@,
                old(self).locals@,
                blocks_code(old(self).blocks@),
                id as int,
                *statement,
            ),
            blocks_numbered(old(self).blocks@) ==> blocks_numbered(final(self).blocks@),
        decreases statement, 1nat,
    {
        let ghost program = *env.program;
        let ghost layouts = env.layouts@;
        let ghost locals = self.locals@;
        let ghost b0 = *self;
        let ghost c0 = blocks_code(self.blocks@);
        match statement {
            Statement::Declare { .. } => {},
            Statement::Let { name, value, .. } => {
                self.expression(env, id, value);
                let ghost b1 = *self;
                let ghost e = expression_code(program, layouts, locals, *value);
                match self.local_type(name) {
                    Some(ty) => {
                        let instruction = Instruction::StoreLocal { name: copy_string(name), ty };
                        self.push(id, instruction);
                        proof {
                            FunctionBuilder::lemma_appended_chain(b0, b1, *self, id as int, e, seq![instruction_view(instruction)]);
                            FunctionBuilder::lemma_appended_code(b0, *self, id as int, e + seq![instruction_view(instruction)]);
                        }
                    },
                    None => {
                        proof {
                            assert(e + Seq::<InstructionView>::empty() =~= e);
                            FunctionBuilder::lemma_appended_code(b0, *self, id as int, e);
                        }
                    },
                }
            },
            Statement::Assign { target, value, .. } => {
                self.lvalue(env, id, target);
                let ghost b1 = *self;
                self.expression(env, id, value);
                let ghost b2 = *self;
                let ty = env.type_of(&self.locals, target);
                let volatile = env.accesses_volatile(&self.locals, target);
                let instruction = Instruction::Store { ty, volatile };
                self.push(id, instruction);
                proof {
                    let l = lvalue_code(program, layouts, locals, *target);
                    let v = expression_code(program, layouts, locals, *value);
                    FunctionBuilder::lemma_appended_chain(b0, b1, b2, id as int, l, v);
                    FunctionBuilder::lemma_appended_chain(b0, b2, *self, id as int, l + v, seq![instruction_view(instruction)]);
                    FunctionBuilder::lemma_appended_code(b0, *self, id as int, l + v + seq![instruction_view(instruction)]);
                }
            },
            Statement::Return { value, .. } => {
                let has_value = match value {
                    Some(value) => {
                        self.expression(env, id, value);
                        true
                    },
                    None => {
                        proof {
                            FunctionBuilder::lemma_appended_nothing(b0, id as int);
                        }
                        false
                    },
                };
                let ghost b1 = *self;
                let ghost e = if value is Some {
                    expression_code(program, layouts, locals, value->Some_0)
                } else {
                    Seq::empty()
                };
                let instruction = Instruction::Return { has_value };
                self.push(id, instruction);
                proof {
                    FunctionBuilder::lemma_appended_chain(b0, b1, *self, id as int, e, seq![instruction_view(instruction)]);
                    FunctionBuilder::lemma_appended_code(b0, *self, id as int, e + seq![instruction_view(instruction)]);
                }
            },
            Statement::Expression { expression, .. } => {
                self.expression(env, id, expression);
                let ghost b1 = *self;
                self.push(id, Instruction::Pop);
                proof {
                    let e = expression_code(program, layouts, locals, *expression);
                    FunctionBuilder::lemma_appended_chain(b0, b1, *self, id as int, e, seq![InstructionView::Pop]);
                    FunctionBuilder::lemma_appended_code(b0, *self, id as int, e + seq![InstructionView::Pop]);
                }
            },
            Statement::Block(block) => {
                return self.block(env, id, block);
            },
            Statement::If { condition, then_branch, else_branch, .. } => {
                self.expression(env, id, condition);
                proof {
                    FunctionBuilder::lemma_appended_code(b0, *self, id as int, expression_code(program, layouts, locals, *condition));
                }
                let then_id = self.new_block();
                let else_id = self.new_block();
                let end_id = self.new_block();
                let ghost c1 = blocks_code(self.blocks@);
                assert(c1 == with_three_blocks(emitted(c0, id as int, expression_code(program, layouts, locals, *condition))));
                let ghost b1 = *self;
                let branch = Instruction::Branch { then_block: then_id, else_block: else_id };
                self.push(id, branch);
                proof {
                    FunctionBuilder::lemma_appended_code(b1, *self, id as int, seq![instruction_view(branch)]);
                }
                let then_end = self.block(env, then_id, then_branch);
                let ghost c3 = blocks_code(self.blocks@);
                let ghost b3 = *self;
                if !self.terminated(then_end) {
                    let jump = Instruction::Jump { target: end_id };
                    self.push(then_end, jump);
                    proof {
                        FunctionBuilder::lemma_appended_code(b3, *self, then_end as int, seq![instruction_view(jump)]);
                    }
                }
                assert(blocks_code(self.blocks@) == closed(c3, then_end as int, end_id as int));
                let ghost b4 = *self;
                match else_branch {
                    Some(else_branch) => {
                        let else_end = self.block(env, else_id, else_branch);
                        let ghost b5 = *self;
                        if !self.terminated(else_end) {
                            let jump = Instruction::Jump { target: end_id };
                            self.push(else_end, jump);
                            proof {
                                FunctionBuilder::lemma_appended_code(b5, *self, else_end as int, seq![instruction_view(jump)]);
                            }
                        }
                    },
                    None => {
                        let jump = Instruction::Jump { target: end_id };
                        self.push(else_id, jump);
                        proof {
                            FunctionBuilder::lemma_appended_code(b4, *self, else_id as int, seq![instruction_view(jump)]);
                        }
                    },
                }
                return end_id;
            },
            Statement::While { condition, body, .. } => {
                let condition_id = self.new_block();
                let body_id = self.new_block();
                let end_id = self.new_block();
                assert(blocks_code(self.blocks@) == with_three_blocks(c0));
                let ghost b1 = *self;
                let jump = Instruction::Jump { target: condition_id };
                self.push(id, jump);
                proof {
                    FunctionBuilder::lemma_appended_code(b1, *self, id as int, seq![instruction_view(jump)]);
                }
                let ghost b2 = *self;
                self.expression(env, condition_id, condition);
                proof {
                    FunctionBuilder::lemma_appended_code(b2, *self, condition_id as int, expression_code(program, layouts, locals, *condition));
                }
                let ghost b3 = *self;
                let branch = Instruction::Branch { then_block: body_id, else_block: end_id };
                self.push(condition_id, branch);
                proof {
                    FunctionBuilder::lemma_appended_code(b3, *self, condition_id as int, seq![instruction_view(branch)]);
                }
                let body_end = self.block(env, body_id, body);
                let ghost b4 = *self;
                if !self.terminated(body_end) {
                    let back = Instruction::Jump { target: condition_id };
                    self.push(body_end, back);
                    proof {
                        FunctionBuilder::lemma_appended_code(b4, *self, body_end as int, seq![instruction_view(back)]);
                    }
                }
                return end_id;
            },
        }
        id
    }

    /// Growing block `id` by `code` is adding `code` to its code.
    proof fn lemma_appended_code(before: FunctionBuilder, after: FunctionBuilder, id: int, code: Seq<InstructionView>)
        requires
            0 <= id < before.blocks@.len(),
            after.appended(&before, id, code),
        ensures
            blocks_code(after.blocks@) == emitted(blocks_code(before.blocks@), id, code),
            blocks_numbered(before.blocks@) ==> blocks_numbered(after.blocks@),
    {
        assert(blocks_code(after.blocks@) =~= emitted(blocks_code(before.blocks@), id, code));
        if blocks_numbered(before.blocks@) {
            assert forall|k: int| 0 <= k < after.blocks@.len() implies #[trigger] after.blocks@[k].id == k by {
                assert(before.blocks@[k].id == k);
            }
        }
    }

    proof fn lemma_appended_nothing(b: FunctionBuilder, id: int)
        requires
            0 <= id < b.blocks@.len(),
        ensures
            b.appended(&b, id, Seq::empty()),
    {
        assert(code_view(b.blocks@[id].instructions@) =~= code_view(b.blocks@[id].instructions@) + Seq::<InstructionView>::empty());
    }

    proof fn lemma_appended_chain(
        a: FunctionBuilder,
        b: FunctionBuilder,
        c: FunctionBuilder,
        id: int,
        x: Seq<InstructionView>,
        y: Seq<InstructionView>,
    )
        requires
            0 <= id < a.blocks@.len(),
            b.appended(&a, id, x),
            c.appended(&b, id, y),
        ensures
            c.appended(&a, id, x + y),
    {
        assert(code_view(c.blocks@[id].instructions@) =~= code_view(a.blocks@[id].instructions@) + (x + y));
        assert forall|k: int| 0 <= k < c.blocks@.len() && k != id implies #[trigger] c.blocks@[k] == a.blocks@[k] by {
            assert(c.blocks@[k] == b.blocks@[k]);
        }
    }

    fn expression(&mut self, env: &Env, id: usize, expression: &Expression)
        requires
            id < old(self).blocks@.len(),
            layouts_bounded(env.layouts@),
        ensures
            final(self).blocks@.len() == old(self).blocks@.len(),
            final(self).locals == old(self).locals,
            final(self).appended(
                &*old(self),
                id as int,
                expression_code(*env.program, env.layouts@, old(self).locals@, *expression),
            ),
        decreases expression, 1nat,
    {
        let ghost start = *self;
        let ghost program = *env.program;
        let ghost layouts = env.layouts@;
        let ghost locals = self.locals@;
        proof {
            FunctionBuilder::lemma_appended_nothing(start, id as int);
        }
        match expression {
            Expression::Integer { value, .. } => match parse_i64(value) {
                Some(v) => {
                    self.push(id, Instruction::Constant(v));
                    assert(expression_code(program, layouts, locals, *expression) =~= seq![instruction_view(Instruction::Constant(v))]);
                },
                None => {},
            },
            Expression::Character { value, .. } => {
                let instruction = Instruction::Constant(*value as i64);
                self.push(id, instruction);
                assert(expression_code(program, layouts, locals, *expression) =~= seq![instruction_view(instruction)]);
            },
            Expression::Boolean { value, .. } => {
                let instruction = Instruction::Constant(if *value { 1 } else { 0 });
                self.push(id, instruction);
                assert(expression_code(program, layouts, locals, *expression) =~= seq![instruction_view(instruction)]);
            },
            Expression::String { value, .. } => {
                let instruction = Instruction::StringLiteral(copy_bytes(value));
                self.push(id, instruction);
                assert(expression_code(program, layouts, locals, *expression) =~= seq![instruction_view(instruction)]);
            },
            Expression::Name { value, .. } => match self.local_type(value) {
                Some(ty) => {
                    let instruction = Instruction::LoadLocal { name: copy_string(value), ty };
                    self.push(id, instruction);
                    assert(expression_code(program, layouts, locals, *expression) =~= seq![instruction_view(instruction)]);
                },
                None => {},
            },
            Expression::Unary { operator, operand, .. } => {
                match operator {
                    UnaryOperator::AddressOf => {
                        self.lvalue(env, id, operand);
                    },
                    _ => {
                        self.expression(env, id, operand);
                        let ghost middle = *self;
                        let ty = env.type_of(&self.locals, expression);
                        let volatile = env.accesses_volatile(&self.locals, expression);
                        let instruction = Instruction::Unary { operator: *operator, ty, volatile };
                        self.push(id, instruction);
                        proof {
                            FunctionBuilder::lemma_appended_chain(
                                start,
                                middle,
                                *self,
                                id as int,
                                expression_code(program, layouts, locals, **operand),
                                seq![instruction_view(instruction)],
                            );
                            assert(expression_code(program, layouts, locals, **operand).push(instruction_view(instruction))
                                =~= expression_code(program, layouts, locals, **operand) + seq![instruction_view(instruction)]);
                        }
                    },
                }
            },
            Expression::Binary { left, operator, right, .. } => {
                self.expression(env, id, left);
                let ghost after_left = *self;
                self.expression(env, id, right);
                let ghost after_right = *self;
                let ty = env.type_of(&self.locals, left);
                let instruction = Instruction::Binary { operator: *operator, ty };
                self.push(id, instruction);
                proof {
                    let l = expression_code(program, layouts, locals, **left);
                    let r = expression_code(program, layouts, locals, **right);
                    FunctionBuilder::lemma_appended_chain(start, after_left, after_right, id as int, l, r);
                    FunctionBuilder::lemma_appended_chain(start, after_right, *self, id as int, l + r, seq![instruction_view(instruction)]);
                }
            },
            Expression::Call { .. } => self.call(env, id, expression),
            Expression::Index { .. } => {
                self.lvalue(env, id, expression);
                let ghost middle = *self;
                let ty = env.type_of(&self.locals, expression);
                let volatile = env.accesses_volatile(&self.locals, expression);
                let instruction = Instruction::Load { ty, volatile };
                self.push(id, instruction);
                proof {
                    FunctionBuilder::lemma_appended_chain(
                        start,
                        middle,
                        *self,
                        id as int,
                        lvalue_code(program, layouts, locals, *expression),
                        seq![instruction_view(instruction)],
                    );
                    assert(lvalue_code(program, layouts, locals, *expression).push(instruction_view(instruction))
                        =~= lvalue_code(program, layouts, locals, *expression) + seq![instruction_view(instruction)]);
                }
            },
            Expression::Field { .. } => {
                self.lvalue(env, id, expression);
                let ghost middle = *self;
                let ty = env.type_of(&self.locals, expression);
                let instruction = Instruction::Load { ty, volatile: false };
                self.push(id, instruction);
                proof {
                    FunctionBuilder::lemma_appended_chain(
                        start,
                        middle,
                        *self,
                        id as int,
                        lvalue_code(program, layouts, locals, *expression),
                        seq![instruction_view(instruction)],
                    );
                    assert(lvalue_code(program, layouts, locals, *expression).push(instruction_view(instruction))
                        =~= lvalue_code(program, layouts, locals, *expression) + seq![instruction_view(instruction)]);
                }
            },
            Expression::Cast { ty, operand, .. } => {
                self.expression(env, id, operand);
                let ghost middle = *self;
                let from = env.type_of(&self.locals, operand);
                let instruction = Instruction::Cast { from, to: ir_type(ty) };
                self.push(id, instruction);
                proof {
                    FunctionBuilder::lemma_appended_chain(
                        start,
                        middle,
                        *self,
                        id as int,
                        expression_code(program, layouts, locals, **operand),
                        seq![instruction_view(instruction)],
                    );
                    assert(expression_code(program, layouts, locals, **operand).push(instruction_view(instruction))
                        =~= expression_code(program, layouts, locals, **operand) + seq![instruction_view(instruction)]);
                }
            },
        }
    }

    /// Lowers a call: `print` of a string literal writes it directly;
    /// anything else pushes its arguments, in order, and calls.
    fn call(&mut self, env: &Env, id: usize, expression: &Expression)
        requires
            id < old(self).blocks@.len(),
            layouts_bounded(env.layouts@),
            expression is Call,
        ensures
            final(self).blocks@.len() == old(self).blocks@.len(),
            final(self).locals == old(self).locals,
            final(self).appended(
                &*old(self),
                id as int,
                expression_code(*env.program, env.layouts@, old(self).locals@, *expression),
            ),
        decreases expression, 0nat,
    {
        let ghost start = *self;
        let ghost program = *env.program;
        let ghost layouts = env.layouts@;
        let ghost locals = self.locals@;
        proof {
            FunctionBuilder::lemma_appended_nothing(start, id as int);
        }
        match expression {
            Expression::Call { callee, arguments, .. } => {
                let printed: Option<Vec<u8>> = match &**callee {
                    Expression::Name { value, .. } => {
                        if str_equal(value.as_str(), "print") && !env.is_program_function(value)
                            && arguments.len() == 1 {
                            match &arguments[0] {
                                Expression::String { value: bytes, .. } => Some(copy_bytes(bytes)),
                                _ => None,
                            }
                        } else {
                            None
                        }
                    },
                    _ => None,
                };
                proof {
                    reveal_strlit("print");
                }
                assert(match printed {
                    Some(bytes) => printed_literal(program, **callee, arguments@) == Some(bytes@),
                    None => printed_literal(program, **callee, arguments@) is None,
                });
                match printed {
                    Some(bytes) => {
                        self.push(id, Instruction::PrintString(bytes));
                    },
                    None => {
                        let mut i: usize = 0;
                        #[verifier::loop_isolation(false)]
                        while i < arguments.len()
                            invariant
                                i <= arguments@.len(),
                                self.blocks@.len() == old(self).blocks@.len(),
                                self.locals == old(self).locals,
                                self.appended(&start, id as int, arguments_code(program, layouts, locals, arguments@, i as int)),
                            decreases arguments@.len() - i,
                        {
                            let ghost before = *self;
                            self.expression(env, id, &arguments[i]);
                            proof {
                                FunctionBuilder::lemma_appended_chain(
                                    start,
                                    before,
                                    *self,
                                    id as int,
                                    arguments_code(program, layouts, locals, arguments@, i as int),
                                    expression_code(program, layouts, locals, arguments@[i as int]),
                                );
                            }
                            i = i + 1;
                        }
                        let ghost after_arguments = *self;
                        match &**callee {
                            Expression::Name { value, .. } => {
                                let ty = env.type_of(&self.locals, expression);
                                let instruction = Instruction::Call {
                                    name: copy_string(value),
                                    arguments: arguments.len(),
                                    ty,
                                };
                                self.push(id, instruction);
                                proof {
                                    FunctionBuilder::lemma_appended_chain(
                                        start,
                                        after_arguments,
                                        *self,
                                        id as int,
                                        arguments_code(program, layouts, locals, arguments@, arguments@.len() as int),
                                        seq![instruction_view(instruction)],
                                    );
                                }
                            },
                            _ => {
                                assert(arguments_code(program, layouts, locals, arguments@, arguments@.len() as int)
                                    + Seq::<InstructionView>::empty() =~= arguments_code(program, layouts, locals, arguments@, arguments@.len() as int));
                            },
                        }
                    },
                }
            },
            _ => {},
        }
    }

    /// Pushes the address of a place: a local, `*pointer`, `pointer[index]` or
    /// `value.field`.
    fn lvalue(&mut self, env: &Env, id: usize, expression: &Expression)
        requires
            id < old(self).blocks@.len(),
            layouts_bounded(env.layouts@),
        ensures
            final(self).blocks@.len() == old(self).blocks@.len(),
            final(self).locals == old(self).locals,
            final(self).appended(
                &*old(self),
                id as int,
                lvalue_code(*env.program, env.layouts@, old(self).locals@, *expression),
            ),
        decreases expression, 0nat,
    {
        let ghost start = *self;
        let ghost program = *env.program;
        let ghost layouts = env.layouts@;
        let ghost locals = self.locals@;
        proof {
            FunctionBuilder::lemma_appended_nothing(start, id as int);
        }
        match expression {
            Expression::Name { value, .. } => match self.local_type(value) {
                Some(ty) => self.push(
                    id,
                    Instruction::AddressLocal {
                        name: copy_string(value),
                        ty: IrType::Pointer(Box::new(ty), false),
                    },
                ),
                None => {},
            },
            Expression::Unary { operator: UnaryOperator::Dereference, operand, .. } => {
                self.expression(env, id, operand);
            },
            Expression::Index { base, index, .. } => {
                self.expression(env, id, base);
                let ghost after_base = *self;
                self.expression(env, id, index);
                let ghost after_index = *self;
                let element = env.type_of(&self.locals, expression);
                let bytes = type_size(&element, env.layouts);
                let scale = Instruction::Scale { bytes };
                self.push(id, scale);
                let ghost after_scale = *self;
                let add = Instruction::Binary {
                    operator: BinaryOperator::Add,
                    ty: IrType::Pointer(Box::new(element), false),
                };
                self.push(id, add);
                proof {
                    let b = expression_code(program, layouts, locals, **base);
                    let i = expression_code(program, layouts, locals, **index);
                    FunctionBuilder::lemma_appended_chain(start, after_base, after_index, id as int, b, i);
                    FunctionBuilder::lemma_appended_chain(start, after_index, after_scale, id as int, b + i, seq![instruction_view(scale)]);
                    FunctionBuilder::lemma_appended_chain(start, after_scale, *self, id as int, b + i + seq![instruction_view(scale)], seq![instruction_view(add)]);
                    assert(b + i + seq![instruction_view(scale)] + seq![instruction_view(add)] =~= lvalue_code(program, layouts, locals, *expression));
                }
            },
            Expression::Field { base, field, .. } => {
                let base_type = env.type_of(&self.locals, base);
                let through_pointer = match base_type {
                    IrType::Pointer(_, _) => true,
                    _ => false,
                };
                if through_pointer {
                    self.expression(env, id, base);
                } else {
                    self.lvalue(env, id, base);
                }
                let ghost after_base = *self;
                let ghost base_code = if through_pointer {
                    expression_code(program, layouts, locals, **base)
                } else {
                    lvalue_code(program, layouts, locals, **base)
                };
                match env.field_of(&base_type, field) {
                    Some((offset, ty)) => {
                        let instruction = Instruction::FieldAddress { offset, ty };
                        self.push(id, instruction);
                        proof {
                            FunctionBuilder::lemma_appended_chain(start, after_base, *self, id as int, base_code, seq![instruction_view(instruction)]);
                        }
                    },
                    None => {
                        assert(base_code + Seq::<InstructionView>::empty() =~= base_code);
                    },
                }
            },
            _ => {},
        }
    }
}

fn lower_function(env: &Env, function: &Function) -> (r: IrFunction)
    requires
        layouts_bounded(env.layouts@),
    ensures
        lowered_function(*env.program, env.layouts@, *function, r),
{
    let mut locals: Vec<Local> = Vec::new();
    let mut parameters: Vec<IrType> = Vec::new();
    let mut i: usize = 0;
    while i < function.parameters.len()
        invariant
            i <= function.parameters@.len(),
            locals@ == function.parameters@.take(i as int).map_values(
                |p: Parameter| Local { name: p.name, ty: ir_type_of(p.ty) },
            ),
            parameters@ == function.parameters@.take(i as int).map_values(|p: Parameter| ir_type_of(p.ty)),
        decreases function.parameters@.len() - i,
    {
        let parameter = &function.parameters[i];
        locals.push(Local { name: copy_string(&parameter.name), ty: ir_type(&parameter.ty) });
        parameters.push(ir_type(&parameter.ty));
        assert(function.parameters@.take(i + 1) =~= function.parameters@.take(i as int).push(*parameter));
        i = i + 1;
    }
    assert(function.parameters@.take(i as int) =~= function.parameters@);
    collect_locals(env, &function.body, &mut locals);
    let mut builder = FunctionBuilder {
        blocks: vec![BasicBlock { id: 0, instructions: Vec::new() }],
        locals,
    };
    assert(code_view(Seq::<Instruction>::empty()) =~= Seq::<InstructionView>::empty());
    assert(blocks_code(builder.blocks@) =~= seq![Seq::<InstructionView>::empty()]);
    builder.block(env, 0, &function.body);
    IrFunction {
        name: copy_string(&function.name),
        return_type: ir_type(&function.return_type),
        parameters,
        locals: builder.locals,
        blocks: builder.blocks,
    }
}

/// Strict lexicographic order on byte strings: a proper prefix comes
/// first.
pub open spec fn bytes_precede(x: Seq<u8>, y: Seq<u8>) -> bool
    decreases x.len(),
{
    if x.len() == 0 {
        y.len() > 0
    } else if y.len() == 0 {
        false
    } else if x[0] != y[0] {
        x[0] < y[0]
    } else {
        bytes_precede(x.drop_first(), y.drop_first())
    }
}

/// Names are ordered by their UTF-8 bytes.
pub open spec fn name_before(a: Seq<char>, b: Seq<char>) -> bool {
    bytes_precede(encode_utf8(a), encode_utf8(b))
}

/// Functions listed in strictly increasing order of name.
pub open spec fn sorted_by_name(functions: Seq<IrFunction>) -> bool {
    forall|i: int, j: int|
        0 <= i < j < functions.len() ==> name_before(#[trigger] functions[i].name@, #[trigger] functions[j].name@)
}

proof fn lemma_bytes_order(x: Seq<u8>, y: Seq<u8>, z: Seq<u8>)
    ensures
        !bytes_precede(x, x),
        bytes_precede(x, y) ==> !bytes_precede(y, x),
        x != y ==> bytes_precede(x, y) || bytes_precede(y, x),
        bytes_precede(x, y) && bytes_precede(y, z) ==> bytes_precede(x, z),
    decreases x.len(),
{
    if x.len() > 0 && y.len() > 0 && z.len() > 0 {
        lemma_bytes_order(x.drop_first(), y.drop_first(), z.drop_first());
    } else if x.len() > 0 && y.len() > 0 {
        lemma_bytes_order(x.drop_first(), y.drop_first(), y.drop_first());
    } else if x.len() > 0 {
        lemma_bytes_order(x.drop_first(), x.drop_first(), x.drop_first());
    }
    if x.len() == 0 && y.len() == 0 {
        assert(x =~= y);
    }
    if x != y && x.len() > 0 && y.len() > 0 && x[0] == y[0] {
        if x.drop_first() =~= y.drop_first() {
            assert(x =~= y) by {
                assert forall|k: int| 0 <= k < x.len() implies x[k] == y[k] by {
                    if k > 0 {
                        assert(x[k] == x.drop_first()[k - 1]);
                        assert(y[k] == y.drop_first()[k - 1]);
                    }
                }
            }
        }
        assert(bytes_precede(x, y) == bytes_precede(x.drop_first(), y.drop_first()));
        assert(bytes_precede(y, x) == bytes_precede(y.drop_first(), x.drop_first()));
    }
}

/// Names are ordered totally: distinct names are ordered one way or the
/// other, never both, and the order is transitive.
proof fn lemma_name_order(a: Seq<char>, b: Seq<char>, c: Seq<char>)
    ensures
        !name_before(a, a),
        name_before(a, b) ==> !name_before(b, a),
        a != b ==> name_before(a, b) || name_before(b, a),
        name_before(a, b) && name_before(b, c) ==> name_before(a, c),
{
    lemma_bytes_order(encode_utf8(a), encode_utf8(b), encode_utf8(c));
    if encode_utf8(a) == encode_utf8(b) {
        vstd::utf8::encode_utf8_decode_utf8(a);
        vstd::utf8::encode_utf8_decode_utf8(b);
    }
}

/// Whether `a` comes before `b` in byte order.
fn name_precedes(a: &String, b: &String) -> (r: bool)
    ensures
        r == name_before(a@, b@),
{
    let x = a.as_str().as_bytes();
    let y = b.as_str().as_bytes();
    assert(x@.skip(0) =~= x@);
    assert(y@.skip(0) =~= y@);
    let mut i: usize = 0;
    while i < x.len() && i < y.len()
        invariant
            i <= x@.len(),
            i <= y@.len(),
            name_before(a@, b@) == bytes_precede(x@.skip(i as int), y@.skip(i as int)),
        decreases x@.len() - i,
    {
        assert(x@.skip(i as int).drop_first() =~= x@.skip(i + 1));
        assert(y@.skip(i as int).drop_first() =~= y@.skip(i + 1));
        if x[i] != y[i] {
            return x[i] < y[i];
        }
        i = i + 1;
    }
    x.len() < y.len()
}

/// Adds a function keeping the list in order of name; a function with the
/// same name is replaced.
fn insert_by_name(functions: &mut Vec<IrFunction>, function: IrFunction)
    requires
        sorted_by_name(old(functions)@),
    ensures
        sorted_by_name(final(functions)@),
        exists|i: int| inserted_at(old(functions)@, function, final(functions)@, i),
{
    let ghost before = functions@;
    let ghost new = function;
    let mut i: usize = 0;
    while i < functions.len() && name_precedes(&functions[i].name, &function.name)
        invariant
            functions@ == before,
            i <= functions@.len(),
            forall|k: int| 0 <= k < i ==> name_before(#[trigger] functions@[k].name@, function.name@),
        decreases functions@.len() - i,
    {
        i = i + 1;
    }
    if i < functions.len() && str_equal(functions[i].name.as_str(), function.name.as_str()) {
        functions.set(i, function);
        assert forall|p: int, q: int| 0 <= p < q < functions@.len() implies name_before(
            #[trigger] functions@[p].name@,
            #[trigger] functions@[q].name@,
        ) by {
            assert(name_before(before[p].name@, before[q].name@));
        }
        assert(inserted_at(before, new, functions@, i as int));
    } else {
        proof {
            assert forall|k: int| 0 <= k < before.len() implies #[trigger] before[k].name@ != function.name@ by {
                if k < i {
                    lemma_name_order(before[k].name@, function.name@, function.name@);
                } else {
                    lemma_name_order(function.name@, before[i as int].name@, before[k].name@);
                    if k > i {
                        assert(name_before(before[i as int].name@, before[k].name@));
                    }
                }
            }
        }
        functions.insert(i, function);
        assert forall|p: int, q: int| 0 <= p < q < functions@.len() implies name_before(
            #[trigger] functions@[p].name@,
            #[trigger] functions@[q].name@,
        ) by {
            if q < i {
                assert(name_before(before[p].name@, before[q].name@));
            } else if q == i {
            } else if p == i {
                lemma_name_order(function.name@, before[i as int].name@, before[q - 1].name@);
                if q - 1 > i {
                    assert(name_before(before[i as int].name@, before[q - 1].name@));
                }
            } else if p < i {
                assert(name_before(before[p].name@, before[q - 1].name@));
            } else {
                assert(name_before(before[p - 1].name@, before[q - 1].name@));
            }
        }
        assert(inserted_at(before, new, functions@, i as int));
    }
}

/// `ir` is `f` lowered and then optimized: the blocks `f` lowers to have
/// their constants folded and their unreachable blocks pruned.
#[verifier::opaque]
pub open spec fn compiled_function(program: Program, layouts: Seq<StructLayout>, f: Function, ir: IrFunction) -> bool {
    &&& ir.name == f.name
    &&& ir.return_type == ir_type_of(f.return_type)
    &&& ir.parameters@ == f.parameters@.map_values(|p: Parameter| ir_type_of(p.ty))
    &&& ir.locals@ == function_locals(program, layouts, f)
    &&& exists|lowered: Seq<BasicBlock>, folded: Seq<BasicBlock>, remap: Seq<usize>|
        #[trigger] compiled_blocks(program, layouts, f, lowered, folded, remap, ir.blocks@)
}

/// The blocks of function `f` are lowered to `lowered`, folded to `folded`
/// and pruned to `blocks`, block `i` becoming block `remap[i]`.
pub open spec fn compiled_blocks(
    program: Program,
    layouts: Seq<StructLayout>,
    f: Function,
    lowered: Seq<BasicBlock>,
    folded: Seq<BasicBlock>,
    remap: Seq<usize>,
    blocks: Seq<BasicBlock>,
) -> bool {
    &&& blocks_code(lowered) == function_code(program, layouts, f)
    &&& blocks_numbered(lowered)
    &&& folded.len() == lowered.len()
    &&& forall|i: int|
        0 <= i < folded.len() ==> (#[trigger] folded[i]).id == lowered[i].id && folded[i].instructions@
            == crate::optimize::fold_all(lowered[i].instructions@)
    &&& crate::optimize::pruned(folded, blocks, remap)
}

/// Function `j` is the last of these functions with this name.
pub open spec fn last_named(functions: Seq<Function>, name: Seq<char>, j: int) -> bool {
    &&& 0 <= j < functions.len()
    &&& functions[j].name@ == name
    &&& forall|k: int| j < k < functions.len() ==> #[trigger] functions[k].name@ != name
}

/// The function is named `name`.
pub open spec fn has_name(f: IrFunction, name: Seq<char>) -> bool {
    f.name@ == name
}

/// `typed` holds one compiled function for each name among `functions`, in
/// order of name, compiled from the last function with that name.
pub open spec fn functions_compiled(
    program: Program,
    layouts: Seq<StructLayout>,
    functions: Seq<Function>,
    typed: Seq<IrFunction>,
) -> bool {
    &&& sorted_by_name(typed)
    &&& forall|i: int|
        #![trigger typed[i]]
        0 <= i < typed.len() ==> exists|j: int|
            #[trigger] last_named(functions, typed[i].name@, j) && compiled_function(program, layouts, functions[j], typed[i])
    &&& forall|j: int|
        #![trigger functions[j]]
        0 <= j < functions.len() ==> exists|i: int| 0 <= i < typed.len() && #[trigger] has_name(typed[i], functions[j].name@)
}

/// What lowering a program gives: if the program breaks K's typing rules,
/// their diagnostics; otherwise the program with its constants folded, its
/// structs laid out and its functions compiled.
pub open spec fn lowering_of(program: Program, lowered: Result<TypedProgram, Seq<sema::SemanticError>>) -> bool {
    match lowered {
        Err(errors) => errors.len() > 0 && sema::diagnostics(errors) == crate::typing::program_errors(program),
        Ok(typed) => {
            &&& crate::typing::program_errors(program).len() == 0
            &&& layouts_bounded(typed.structs@)
            &&& exists|source: Program|
                {
                    &&& #[trigger] crate::fold::folds_program(program, source)
                    &&& layouts_from(source.structs@, source.structs@.len() as int, typed.structs@)
                    &&& functions_compiled(source, typed.structs@, source.functions@, typed.functions@)
                }
        },
    }
}

/// Checks and lowers a program: constants are folded first, then every
/// function is lowered and optimized.
pub fn lower(program: &Program) -> (r: Result<TypedProgram, Vec<sema::SemanticError>>)
    ensures
        match r {
            Ok(typed) => lowering_of(*program, Ok(typed)),
            Err(errors) => lowering_of(*program, Err(errors@)),
        },
{
    match sema::check(program) {
        Ok(()) => {},
        Err(errors) => {
            return Err(errors);
        },
    }
    let source = crate::fold::fold_constants(program);
    let layouts = build_layouts(&source.structs);
    let env = Env { program: &source, layouts: &layouts };
    let mut functions: Vec<IrFunction> = Vec::new();
    let mut i: usize = 0;
    while i < source.functions.len()
        invariant
            i <= source.functions@.len(),
            layouts_bounded(layouts@),
            env.layouts == &layouts,
            env.program == &source,
            functions_compiled(source, layouts@, source.functions@.take(i as int), functions@),
        decreases source.functions@.len() - i,
    {
        let ghost before = functions@;
        let ghost prefix = source.functions@.take(i as int);
        let ghost after = source.functions@.take(i + 1);
        let mut function = lower_function(&env, &source.functions[i]);
        let ghost lowered = function.blocks@;
        crate::optimize::optimize_function(&mut function);
        let ghost compiled = function;
        let ghost f = source.functions@[i as int];
        assert(after == prefix.push(f));
        assert(compiled_function(source, layouts@, f, compiled)) by {
            reveal(compiled_function);
            let (folded, remap) = choose|folded: Seq<BasicBlock>, remap: Seq<usize>|
                {
                    &&& folded.len() == lowered.len()
                    &&& forall|k: int|
                        0 <= k < folded.len() ==> (#[trigger] folded[k]).id == lowered[k].id && folded[k].instructions@
                            == crate::optimize::fold_all(lowered[k].instructions@)
                    &&& crate::optimize::pruned(folded, compiled.blocks@, remap)
                };
            assert(blocks_code(lowered) == function_code(source, layouts@, f));
            assert(compiled_blocks(source, layouts@, f, lowered, folded, remap, compiled.blocks@));
        }
        insert_by_name(&mut functions, function);
        proof {
            let idx = choose|idx: int| inserted_at(before, compiled, functions@, idx);
            lemma_insert_compiled(source, layouts@, prefix, f, before, compiled, functions@, idx);
        }
        i = i + 1;
    }
    assert(source.functions@.take(i as int) =~= source.functions@);
    Ok(TypedProgram { functions, structs: layouts })
}

/// Which compiled function the insertion put where, and that the other
/// names kept theirs.
pub open spec fn inserted_at(before: Seq<IrFunction>, compiled: IrFunction, after: Seq<IrFunction>, i: int) -> bool {
    0 <= i <= before.len() && {
        ||| i < before.len() && before[i].name@ == compiled.name@ && after == before.update(i, compiled)
        ||| (forall|k: int| 0 <= k < before.len() ==> #[trigger] before[k].name@ != compiled.name@) && after
            == before.insert(i, compiled)
    }
}

/// After an insertion, the function at each position is the new one, or
/// one that was there before under another name.
proof fn lemma_inserted_entry(before: Seq<IrFunction>, compiled: IrFunction, after: Seq<IrFunction>, idx: int, m: int)
    requires
        inserted_at(before, compiled, after, idx),
        sorted_by_name(before),
        0 <= m < after.len(),
    ensures
        after[m].name@ == compiled.name@ ==> after[m] == compiled,
        after[m].name@ != compiled.name@ ==> exists|k: int| 0 <= k < before.len() && #[trigger] before[k] == after[m],
{
    let replaced = idx < before.len() && before[idx].name@ == compiled.name@ && after == before.update(idx, compiled);
    if replaced {
        if m != idx {
            assert(before[m] == after[m]);
            if after[m].name@ == compiled.name@ {
                lemma_name_order(before[m].name@, before[idx].name@, before[idx].name@);
                if m < idx {
                    assert(name_before(before[m].name@, before[idx].name@));
                } else {
                    assert(name_before(before[idx].name@, before[m].name@));
                }
            }
        }
    } else if m < idx {
        assert(before[m] == after[m]);
    } else if m > idx {
        assert(before[m - 1] == after[m]);
    }
}

/// After an insertion, every name that was there is still there.
proof fn lemma_inserted_keeps(before: Seq<IrFunction>, compiled: IrFunction, after: Seq<IrFunction>, idx: int, k: int)
    requires
        inserted_at(before, compiled, after, idx),
        0 <= k < before.len(),
    ensures
        exists|m: int| 0 <= m < after.len() && #[trigger] after[m].name@ == before[k].name@,
{
    let replaced = idx < before.len() && before[idx].name@ == compiled.name@ && after == before.update(idx, compiled);
    if replaced {
        assert(after[k].name@ == before[k].name@);
    } else if k < idx {
        assert(after[k] == before[k]);
        assert(after[k].name@ == before[k].name@);
    } else {
        assert(after[k + 1] == before[k]);
        assert(after[k + 1].name@ == before[k].name@);
    }
}

/// After an insertion, the function at position `m` is compiled from the
/// last function of its name.
proof fn lemma_insert_witness(
    program: Program,
    layouts: Seq<StructLayout>,
    prefix: Seq<Function>,
    f: Function,
    before: Seq<IrFunction>,
    compiled: IrFunction,
    after: Seq<IrFunction>,
    idx: int,
    m: int,
)
    requires
        functions_compiled(program, layouts, prefix, before),
        compiled_function(program, layouts, f, compiled),
        compiled.name == f.name,
        inserted_at(before, compiled, after, idx),
        0 <= m < after.len(),
    ensures
        exists|j: int|
            #[trigger] last_named(prefix.push(f), after[m].name@, j) && compiled_function(
                program,
                layouts,
                prefix.push(f)[j],
                after[m],
            ),
{
    let post = prefix.push(f);
    lemma_inserted_entry(before, compiled, after, idx, m);
    if after[m].name@ == f.name@ {
        assert(last_named(post, f.name@, prefix.len() as int));
    } else {
        let k = choose|k: int| 0 <= k < before.len() && #[trigger] before[k] == after[m];
        assert(before[k] == before[k]);
        let j = choose|j: int| #[trigger] last_named(prefix, before[k].name@, j) && compiled_function(
            program,
            layouts,
            prefix[j],
            before[k],
        );
        assert(post[j] == prefix[j]);
        assert(last_named(post, after[m].name@, j));
    }
}

/// After an insertion, the name of function `j` of the program so far has
/// a compiled function.
proof fn lemma_insert_named(
    prefix: Seq<Function>,
    f: Function,
    before: Seq<IrFunction>,
    compiled: IrFunction,
    after: Seq<IrFunction>,
    idx: int,
    j: int,
)
    requires
        forall|j: int|
            #![trigger prefix[j]]
            0 <= j < prefix.len() ==> exists|i: int| 0 <= i < before.len() && #[trigger] has_name(before[i], prefix[j].name@),
        compiled.name == f.name,
        inserted_at(before, compiled, after, idx),
        0 <= j <= prefix.len(),
    ensures
        exists|m: int| 0 <= m < after.len() && #[trigger] has_name(after[m], prefix.push(f)[j].name@),
{
    let post = prefix.push(f);
    if j == prefix.len() {
        assert(after[idx] == compiled);
        assert(has_name(after[idx], post[j].name@));
    } else {
        assert(post[j] == prefix[j]);
        assert(prefix[j] == prefix[j]);
        let k = choose|k: int| 0 <= k < before.len() && #[trigger] has_name(before[k], prefix[j].name@);
        lemma_inserted_keeps(before, compiled, after, idx, k);
        let m = choose|m: int| 0 <= m < after.len() && #[trigger] after[m].name@ == before[k].name@;
        assert(has_name(after[m], post[j].name@));
    }
}

/// Adding a compiled function keeps the compiled functions of a program
/// one per name, in order, each from the last function of its name.
proof fn lemma_insert_compiled(
    program: Program,
    layouts: Seq<StructLayout>,
    prefix: Seq<Function>,
    f: Function,
    before: Seq<IrFunction>,
    compiled: IrFunction,
    after: Seq<IrFunction>,
    idx: int,
)
    requires
        functions_compiled(program, layouts, prefix, before),
        compiled_function(program, layouts, f, compiled),
        compiled.name == f.name,
        sorted_by_name(after),
        inserted_at(before, compiled, after, idx),
    ensures
        functions_compiled(program, layouts, prefix.push(f), after),
{
    let post = prefix.push(f);
    assert forall|m: int| #![trigger after[m]] 0 <= m < after.len() implies exists|j: int|
        #[trigger] last_named(post, after[m].name@, j) && compiled_function(program, layouts, post[j], after[m]) by {
        lemma_insert_witness(program, layouts, prefix, f, before, compiled, after, idx, m);
    }
    assert forall|j: int| #![trigger post[j]] 0 <= j < post.len() implies exists|m: int|
        0 <= m < after.len() && #[trigger] has_name(after[m], post[j].name@) by {
        lemma_insert_named(prefix, f, before, compiled, after, idx, j);
    }
}

} // verus!
