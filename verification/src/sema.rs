//! Semantic analysis for K.
//!
//! This stage checks what syntax alone cannot: names must resolve,
//! declarations must be unique in their scope, expressions must have
//! compatible types, calls must match known signatures, and control flow
//! constructs must receive boolean conditions. Every error found is reported,
//! in source order.

use vstd::prelude::*;

use crate::ast::{
    BinaryOperator, Block, Expression, Function, Program, Statement, Type, UnaryOperator,
    copy_string,
};
use crate::lexer::{Span, span_text};
use crate::text::{push_decimal, str_equal, text};
use crate::typing::{
    Diagnostic, Env, Kind, TypeView, kind_of_type, kind_text, is_integer_kind, castable_kind,
    type_view, type_views,
};

verus! {

/// A semantic diagnostic with the source location that caused it.
#[derive(Clone, Debug, PartialEq, Eq)]
pub struct SemanticError {
    pub span: Span,
    pub message: String,
}

impl SemanticError {
    /// The diagnostic text: `type error at start..end: message`.
    pub fn to_string(&self) -> (r: String)
        ensures
            r@ == "type error at "@ + span_text(self.span) + ": "@ + self.message@,
    {
        let mut out = text("type error at ");
        let span = self.span.to_string();
        out.append(span.as_str());
        out.append(": ");
        out.append(self.message.as_str());
        out
    }
}

/// The text of one diagnostic.
pub open spec fn semantic_error_text(error: SemanticError) -> Seq<char> {
    "type error at "@ + span_text(error.span) + ": "@ + error.message@
}

/// The diagnostics of a failed check, one per line.
pub open spec fn semantic_report(errors: Seq<SemanticError>) -> Seq<char>
    decreases errors.len(),
{
    if errors.len() == 0 {
        Seq::empty()
    } else if errors.len() == 1 {
        semantic_error_text(errors[0])
    } else {
        semantic_report(errors.drop_last()) + "\n"@ + semantic_error_text(errors.last())
    }
}

/// Renders diagnostics one per line.
pub fn report(errors: &Vec<SemanticError>) -> (r: String)
    ensures
        r@ == semantic_report(errors@),
{
    let mut out = String::new();
    let mut i: usize = 0;
    assert(errors@.take(0) =~= Seq::<SemanticError>::empty());
    while i < errors.len()
        invariant
            i <= errors@.len(),
            out@ == semantic_report(errors@.take(i as int)),
        decreases errors@.len() - i,
    {
        let ghost next = errors@.take(i + 1);
        proof {
            assert(next.drop_last() =~= errors@.take(i as int));
            assert(next.last() == errors@[i as int]);
        }
        if i != 0 {
            out.append("\n");
        }
        let line = errors[i].to_string();
        out.append(line.as_str());
        proof {
            if i == 0 {
                assert(next[0] == errors@[0]);
            }
            assert(out@ =~= semantic_report(next));
        }
        i = i + 1;
    }
    assert(errors@.take(errors@.len() as int) =~= errors@);
    out
}

/// The type of a value during checking. `Invalid` marks an expression whose
/// error has already been reported, so that one mistake yields one message.
#[derive(Debug)]
pub enum ValueType {
    Void,
    Int,
    Char,
    U8,
    U16,
    U32,
    U64,
    I32,
    I64,
    Bool,
    Pointer(Box<ValueType>, bool),
    Struct(String),
    Function { return_type: Type, parameters: Vec<Type> },
    Invalid,
}

/// Two types are the same: same shape, struct names with the same text.
pub open spec fn same_type(a: Type, b: Type) -> bool
    decreases a,
{
    match (a, b) {
        (Type::Pointer(x, vx), Type::Pointer(y, vy)) => vx == vy && same_type(*x, *y),
        (Type::Struct(x), Type::Struct(y)) => x@ == y@,
        (Type::Pointer(_, _), _) => false,
        (Type::Struct(_), _) => false,
        _ => a == b,
    }
}

pub proof fn lemma_same_type_reflexive(t: Type)
    ensures
        same_type(t, t),
    decreases t,
{
    if let Type::Pointer(inner, _) = t {
        lemma_same_type_reflexive(*inner);
    }
}

/// Two value types are the same.
pub open spec fn same_value_type(a: ValueType, b: ValueType) -> bool
    decreases a,
{
    match (a, b) {
        (ValueType::Pointer(x, vx), ValueType::Pointer(y, vy)) => vx == vy && same_value_type(
            *x,
            *y,
        ),
        (ValueType::Struct(x), ValueType::Struct(y)) => x@ == y@,
        (
            ValueType::Function { return_type: r1, parameters: p1 },
            ValueType::Function { return_type: r2, parameters: p2 },
        ) => same_type(r1, r2) && p1@.len() == p2@.len() && forall|i: int|
            0 <= i < p1@.len() ==> same_type(#[trigger] p1@[i], p2@[i]),
        (ValueType::Pointer(_, _), _) => false,
        (ValueType::Struct(_), _) => false,
        (ValueType::Function { .. }, _) => false,
        _ => a == b,
    }
}

/// The value type a written type denotes.
pub open spec fn value_type_of(ty: Type) -> ValueType
    decreases ty,
{
    match ty {
        Type::Void => ValueType::Void,
        Type::Int => ValueType::Int,
        Type::Char => ValueType::Char,
        Type::U8 => ValueType::U8,
        Type::U16 => ValueType::U16,
        Type::U32 => ValueType::U32,
        Type::U64 => ValueType::U64,
        Type::I32 => ValueType::I32,
        Type::I64 => ValueType::I64,
        Type::Bool => ValueType::Bool,
        Type::Pointer(inner, volatile) => ValueType::Pointer(Box::new(value_type_of(*inner)), volatile),
        Type::Struct(name) => ValueType::Struct(name),
    }
}

/// The integer types: the operands of arithmetic, bitwise operations and casts.
pub open spec fn is_integer(v: ValueType) -> bool {
    match v {
        ValueType::Int | ValueType::Char | ValueType::U8 | ValueType::U16 | ValueType::U32
        | ValueType::U64 | ValueType::I32 | ValueType::I64 => true,
        _ => false,
    }
}

/// Casts are restricted to K's machine-model values: pointers and integers of
/// any width may be reinterpreted as each other. `bool`, `void`, `struct` and
/// function values are neither cast sources nor targets.
pub open spec fn castable(v: ValueType) -> bool {
    is_integer(v) || v is Pointer
}

/// The word diagnostics use for a value type.
pub open spec fn display_text(v: ValueType) -> Seq<char> {
    match v {
        ValueType::Int => "int"@,
        ValueType::Void => "void"@,
        ValueType::Char => "char"@,
        ValueType::U8 => "u8"@,
        ValueType::U16 => "u16"@,
        ValueType::U32 => "u32"@,
        ValueType::U64 => "u64"@,
        ValueType::I32 => "i32"@,
        ValueType::I64 => "i64"@,
        ValueType::Bool => "bool"@,
        ValueType::Pointer(_, _) => "pointer"@,
        ValueType::Struct(_) => "struct"@,
        ValueType::Function { .. } => "function"@,
        ValueType::Invalid => "invalid expression"@,
    }
}

/// The word diagnostics use for a written type.
pub open spec fn type_text(ty: Type) -> Seq<char> {
    display_text(value_type_of(ty))
}

pub fn type_equal(a: &Type, b: &Type) -> (r: bool)
    ensures
        r == same_type(*a, *b),
    decreases a,
{
    match (a, b) {
        (Type::Pointer(x, vx), Type::Pointer(y, vy)) => *vx == *vy && type_equal(x, y),
        (Type::Struct(x), Type::Struct(y)) => str_equal(x.as_str(), y.as_str()),
        (Type::Void, Type::Void) => true,
        (Type::Int, Type::Int) => true,
        (Type::Char, Type::Char) => true,
        (Type::U8, Type::U8) => true,
        (Type::U16, Type::U16) => true,
        (Type::U32, Type::U32) => true,
        (Type::U64, Type::U64) => true,
        (Type::I32, Type::I32) => true,
        (Type::I64, Type::I64) => true,
        (Type::Bool, Type::Bool) => true,
        _ => false,
    }
}

fn types_equal(a: &Vec<Type>, b: &Vec<Type>) -> (r: bool)
    ensures
        r == (a@.len() == b@.len() && forall|i: int|
            0 <= i < a@.len() ==> same_type(#[trigger] a@[i], b@[i])),
{
    if a.len() != b.len() {
        return false;
    }
    let mut i: usize = 0;
    while i < a.len()
        invariant
            a@.len() == b@.len(),
            0 <= i <= a@.len(),
            forall|k: int| 0 <= k < i ==> same_type(#[trigger] a@[k], b@[k]),
        decreases a@.len() - i,
    {
        if !type_equal(&a[i], &b[i]) {
            return false;
        }
        i = i + 1;
    }
    true
}

pub fn value_type_equal(a: &ValueType, b: &ValueType) -> (r: bool)
    ensures
        r == same_value_type(*a, *b),
    decreases a,
{
    match (a, b) {
        (ValueType::Pointer(x, vx), ValueType::Pointer(y, vy)) => *vx == *vy && value_type_equal(
            x,
            y,
        ),
        (ValueType::Struct(x), ValueType::Struct(y)) => str_equal(x.as_str(), y.as_str()),
        (
            ValueType::Function { return_type: r1, parameters: p1 },
            ValueType::Function { return_type: r2, parameters: p2 },
        ) => type_equal(r1, r2) && types_equal(p1, p2),
        (ValueType::Void, ValueType::Void) => true,
        (ValueType::Int, ValueType::Int) => true,
        (ValueType::Char, ValueType::Char) => true,
        (ValueType::U8, ValueType::U8) => true,
        (ValueType::U16, ValueType::U16) => true,
        (ValueType::U32, ValueType::U32) => true,
        (ValueType::U64, ValueType::U64) => true,
        (ValueType::I32, ValueType::I32) => true,
        (ValueType::I64, ValueType::I64) => true,
        (ValueType::Bool, ValueType::Bool) => true,
        (ValueType::Invalid, ValueType::Invalid) => true,
        _ => false,
    }
}

fn copy_types(v: &Vec<Type>) -> (r: Vec<Type>)
    ensures
        r@ == v@,
{
    let mut out: Vec<Type> = Vec::new();
    let mut i: usize = 0;
    while i < v.len()
        invariant
            0 <= i <= v@.len(),
            out@ == v@.take(i as int),
        decreases v@.len() - i,
    {
        out.push(v[i].duplicate());
        i = i + 1;
        assert(out@ =~= v@.take(i as int));
    }
    assert(v@.take(v@.len() as int) =~= v@);
    out
}

impl ValueType {
    pub fn duplicate(&self) -> (r: ValueType)
        ensures
            same_value_type(r, *self),
        decreases self,
    {
        match self {
            ValueType::Void => ValueType::Void,
            ValueType::Int => ValueType::Int,
            ValueType::Char => ValueType::Char,
            ValueType::U8 => ValueType::U8,
            ValueType::U16 => ValueType::U16,
            ValueType::U32 => ValueType::U32,
            ValueType::U64 => ValueType::U64,
            ValueType::I32 => ValueType::I32,
            ValueType::I64 => ValueType::I64,
            ValueType::Bool => ValueType::Bool,
            ValueType::Pointer(inner, volatile) => ValueType::Pointer(
                Box::new((**inner).duplicate()),
                *volatile,
            ),
            ValueType::Struct(name) => ValueType::Struct(copy_string(name)),
            ValueType::Function { return_type, parameters } => {
                let r = ValueType::Function {
                    return_type: return_type.duplicate(),
                    parameters: copy_types(parameters),
                };
                proof {
                    lemma_same_type_reflexive(*return_type);
                    assert forall|i: int| 0 <= i < parameters@.len() implies same_type(
                        #[trigger] parameters@[i],
                        parameters@[i],
                    ) by {
                        lemma_same_type_reflexive(parameters@[i]);
                    }
                }
                r
            },
            ValueType::Invalid => ValueType::Invalid,
        }
    }

    pub fn from_type(ty: &Type) -> (r: ValueType)
        ensures
            r == value_type_of(*ty),
        decreases ty,
    {
        match ty {
            Type::Void => ValueType::Void,
            Type::Int => ValueType::Int,
            Type::Char => ValueType::Char,
            Type::U8 => ValueType::U8,
            Type::U16 => ValueType::U16,
            Type::U32 => ValueType::U32,
            Type::U64 => ValueType::U64,
            Type::I32 => ValueType::I32,
            Type::I64 => ValueType::I64,
            Type::Bool => ValueType::Bool,
            Type::Pointer(inner, volatile) => ValueType::Pointer(
                Box::new(ValueType::from_type(inner)),
                *volatile,
            ),
            Type::Struct(name) => ValueType::Struct(copy_string(name)),
        }
    }

    pub fn display_name(&self) -> (r: &'static str)
        ensures
            r@ == display_text(*self),
    {
        match self {
            ValueType::Int => "int",
            ValueType::Void => "void",
            ValueType::Char => "char",
            ValueType::U8 => "u8",
            ValueType::U16 => "u16",
            ValueType::U32 => "u32",
            ValueType::U64 => "u64",
            ValueType::I32 => "i32",
            ValueType::I64 => "i64",
            ValueType::Bool => "bool",
            ValueType::Pointer(_, _) => "pointer",
            ValueType::Struct(_) => "struct",
            ValueType::Function { .. } => "function",
            ValueType::Invalid => "invalid expression",
        }
    }

    fn is_invalid(&self) -> (r: bool)
        ensures
            r == (*self is Invalid),
    {
        match self {
            ValueType::Invalid => true,
            _ => false,
        }
    }

    fn is_integer(&self) -> (r: bool)
        ensures
            r == is_integer(*self),
    {
        match self {
            ValueType::Int | ValueType::Char | ValueType::U8 | ValueType::U16 | ValueType::U32
            | ValueType::U64 | ValueType::I32 | ValueType::I64 => true,
            _ => false,
        }
    }
}

pub fn is_castable(value_type: &ValueType) -> (r: bool)
    ensures
        r == castable(*value_type),
{
    match value_type {
        ValueType::Pointer(_, _) => true,
        _ => value_type.is_integer(),
    }
}

pub fn written_type_name(ty: &Type) -> (r: &'static str)
    ensures
        r@ == type_text(*ty),
{
    match ty {
        Type::Void => "void",
        Type::Int => "int",
        Type::Char => "char",
        Type::U8 => "u8",
        Type::U16 => "u16",
        Type::U32 => "u32",
        Type::U64 => "u64",
        Type::I32 => "i32",
        Type::I64 => "i64",
        Type::Bool => "bool",
        Type::Pointer(_, _) => "pointer",
        Type::Struct(_) => "struct",
    }
}

// ---------------------------------------------------------------------------
// Kinds of checked values.

/// The kind a value type stands for.
pub open spec fn kind_of(v: ValueType) -> Kind
    decreases v,
{
    match v {
        ValueType::Void => Kind::Void,
        ValueType::Int => Kind::Int,
        ValueType::Char => Kind::Char,
        ValueType::U8 => Kind::U8,
        ValueType::U16 => Kind::U16,
        ValueType::U32 => Kind::U32,
        ValueType::U64 => Kind::U64,
        ValueType::I32 => Kind::I32,
        ValueType::I64 => Kind::I64,
        ValueType::Bool => Kind::Bool,
        ValueType::Pointer(inner, volatile) => Kind::Pointer(Box::new(kind_of(*inner)), volatile),
        ValueType::Struct(name) => Kind::Struct(name@),
        ValueType::Function { return_type, parameters } => Kind::Function(
            type_view(return_type),
            type_views(parameters@),
        ),
        ValueType::Invalid => Kind::Invalid,
    }
}

pub proof fn lemma_same_type_view(a: Type, b: Type)
    ensures
        same_type(a, b) <==> type_view(a) == type_view(b),
    decreases a,
{
    match (a, b) {
        (Type::Pointer(x, _), Type::Pointer(y, _)) => {
            lemma_same_type_view(*x, *y);
        },
        _ => {},
    }
}

pub proof fn lemma_same_types_view(a: Seq<Type>, b: Seq<Type>)
    ensures
        (a.len() == b.len() && forall|i: int| 0 <= i < a.len() ==> same_type(#[trigger] a[i], b[i]))
            <==> type_views(a) == type_views(b),
{
    if a.len() == b.len() && forall|i: int| 0 <= i < a.len() ==> same_type(#[trigger] a[i], b[i]) {
        assert forall|i: int| 0 <= i < a.len() implies type_views(a)[i] == type_views(b)[i] by {
            lemma_same_type_view(a[i], b[i]);
        }
        assert(type_views(a) =~= type_views(b));
    }
    if type_views(a) == type_views(b) {
        assert(type_views(a).len() == type_views(b).len());
        assert forall|i: int| 0 <= i < a.len() implies same_type(#[trigger] a[i], b[i]) by {
            assert(type_views(a)[i] == type_views(b)[i]);
            lemma_same_type_view(a[i], b[i]);
        }
    }
}

pub proof fn lemma_same_kind(a: ValueType, b: ValueType)
    ensures
        same_value_type(a, b) <==> kind_of(a) == kind_of(b),
    decreases a,
{
    match (a, b) {
        (ValueType::Pointer(x, _), ValueType::Pointer(y, _)) => {
            lemma_same_kind(*x, *y);
        },
        (
            ValueType::Function { return_type: r1, parameters: p1 },
            ValueType::Function { return_type: r2, parameters: p2 },
        ) => {
            lemma_same_type_view(r1, r2);
            lemma_same_types_view(p1@, p2@);
        },
        _ => {},
    }
}

pub proof fn lemma_kind_of_type(ty: Type)
    ensures
        kind_of(value_type_of(ty)) == kind_of_type(type_view(ty)),
    decreases ty,
{
    if let Type::Pointer(inner, _) = ty {
        lemma_kind_of_type(*inner);
    }
}

pub proof fn lemma_display_kind(v: ValueType)
    ensures
        display_text(v) == kind_text(kind_of(v)),
        is_integer(v) == is_integer_kind(kind_of(v)),
        castable(v) == castable_kind(kind_of(v)),
        (v is Invalid) == (kind_of(v) == Kind::Invalid),
{
}

/// Names and kinds of a table of value types.
pub open spec fn entries_view(entries: Seq<(String, ValueType)>) -> Seq<(Seq<char>, Kind)> {
    entries.map_values(|e: (String, ValueType)| (e.0@, kind_of(e.1)))
}

/// Names and types of struct fields.
pub open spec fn fields_view(fields: Seq<(String, Type)>) -> Seq<(Seq<char>, TypeView)> {
    fields.map_values(|f: (String, Type)| (f.0@, type_view(f.1)))
}

pub open spec fn structs_view(structs: Seq<(String, Vec<(String, Type)>)>) -> Seq<(Seq<char>, Seq<(Seq<char>, TypeView)>)> {
    structs.map_values(|s: (String, Vec<(String, Type)>)| (s.0@, fields_view(s.1@)))
}

pub open spec fn scopes_view(scopes: Seq<Vec<(String, ValueType)>>) -> Seq<Seq<(Seq<char>, Kind)>> {
    scopes.map_values(|scope: Vec<(String, ValueType)>| entries_view(scope@))
}

/// The diagnostics of semantic errors.
pub open spec fn diagnostics(errors: Seq<SemanticError>) -> Seq<Diagnostic> {
    errors.map_values(|e: SemanticError| Diagnostic { span: e.span, message: e.message@ })
}

// ---------------------------------------------------------------------------
// Definite returns.

/// A statement returns on every path through it: a `return`, a block that
/// definitely returns, an `if` whose two branches do, or `while (true)`.
pub open spec fn statement_returns(s: Statement) -> bool
    decreases s, 1int,
{
    match s {
        Statement::Return { .. } => true,
        Statement::Block(inner) => block_returns(inner),
        Statement::If { then_branch, else_branch: Some(else_branch), .. } => block_returns(
            then_branch,
        ) && block_returns(else_branch),
        Statement::While { condition: Expression::Boolean { value: true, .. }, .. } => true,
        _ => false,
    }
}

/// Some statement of the block definitely returns.
pub open spec fn block_returns(b: Block) -> bool
    decreases b, 0int,
{
    exists|i: int| 0 <= i < b.statements@.len() && statement_returns(#[trigger] b.statements@[i])
}

/// A statement definitely returns only if control leaves the function on
/// every path through it: an `if` only when both of its branches definitely
/// return, and never without an `else`, whose missing branch falls through;
/// a `while` only when its condition is the literal `true`; and a block
/// only when one of its statements does, so never an empty block.
pub proof fn lemma_definite_return_covers_every_path(s: Statement, b: Block)
    ensures
        s matches Statement::If { then_branch, else_branch, .. } ==> (statement_returns(s) ==> (
        else_branch matches Some(other) && block_returns(then_branch) && block_returns(other))),
        s matches Statement::While { condition, .. } ==> (statement_returns(s) ==> condition matches Expression::Boolean {
            value: true,
            ..
        }),
        b.statements@.len() == 0 ==> !block_returns(b),
        block_returns(b) ==> exists|i: int| 0 <= i < b.statements@.len() && statement_returns(#[trigger] b.statements@[i]),
{
}

/// A block made of one `if` whose `else` branch does not definitely return
/// does not definitely return, whatever its `then` branch does: so a
/// non-void function with such a body is reported as missing a return.
pub proof fn lemma_if_with_falling_else_does_not_return(b: Block)
    requires
        b.statements@.len() == 1,
        b.statements@[0] matches Statement::If { else_branch: Some(other), .. } && !block_returns(other),
    ensures
        !block_returns(b),
{
    if block_returns(b) {
        let i = choose|i: int| 0 <= i < b.statements@.len() && statement_returns(#[trigger] b.statements@[i]);
        assert(i == 0);
    }
}

pub fn block_definitely_returns(block: &Block) -> (r: bool)
    ensures
        r == block_returns(*block),
    decreases block, 0nat,
{
    let mut i: usize = 0;
    #[verifier::loop_isolation(false)]
    while i < block.statements.len()
        invariant
            0 <= i <= block.statements@.len(),
            forall|k: int| 0 <= k < i ==> !statement_returns(#[trigger] block.statements@[k]),
        decreases block.statements@.len() - i,
    {
        if statement_definitely_returns(&block.statements[i]) {
            return true;
        }
        i = i + 1;
    }
    false
}

pub fn statement_definitely_returns(statement: &Statement) -> (r: bool)
    ensures
        r == statement_returns(*statement),
    decreases statement, 1nat,
{
    match statement {
        Statement::Return { .. } => true,
        Statement::Block(inner) => block_definitely_returns(inner),
        Statement::If { then_branch, else_branch: Some(else_branch), .. } => block_definitely_returns(
            then_branch,
        ) && block_definitely_returns(else_branch),
        Statement::While { condition: Expression::Boolean { value: true, .. }, .. } => true,
        _ => false,
    }
}


// ---------------------------------------------------------------------------
// Intrinsics.

/// The signature of a compiler intrinsic: `print` on the hosted Linux target
/// and the kernel intrinsics of the `x86_64-krumpyos` target.
pub open spec fn intrinsic(name: Seq<char>) -> Option<(Type, Seq<Type>)> {
    if name == "print"@ {
        Some((Type::Void, seq![Type::Pointer(Box::new(Type::Char), false)]))
    } else if name == "outb"@ {
        Some((Type::Void, seq![Type::U16, Type::U8]))
    } else if name == "inb"@ {
        Some((Type::U8, seq![Type::U16]))
    } else if name == "cli"@ || name == "sti"@ || name == "hlt"@ || name == "pause"@ {
        Some((Type::Void, Seq::empty()))
    } else if name == "read_cr0"@ || name == "read_cr2"@ || name == "read_cr3"@ || name
        == "read_cr4"@ {
        Some((Type::U64, Seq::empty()))
    } else if name == "write_cr0"@ || name == "write_cr3"@ || name == "write_cr4"@ {
        Some((Type::Void, seq![Type::U64]))
    } else if name == "lidt"@ || name == "sidt"@ || name == "invlpg"@ {
        Some((Type::Void, seq![Type::Pointer(Box::new(Type::Void), false)]))
    } else if name == "rdmsr"@ {
        Some((Type::U64, seq![Type::U32]))
    } else if name == "wrmsr"@ {
        Some((Type::Void, seq![Type::U32, Type::U64]))
    } else {
        None
    }
}

/// The signature of the intrinsic with this name, if there is one.
pub fn intrinsic_signature(name: &str) -> (r: Option<(Type, Vec<Type>)>)
    ensures
        match (r, intrinsic(name@)) {
            (Some((ret, params)), Some((sret, sparams))) => ret == sret && params@ == sparams,
            (None, None) => true,
            _ => false,
        },
{
    let ghost expected = intrinsic(name@);
    if str_equal(name, "print") {
        let r = Some((Type::Void, vec![Type::Pointer(Box::new(Type::Char), false)]));
        assert(r.unwrap().1@ =~= expected.unwrap().1);
        r
    } else if str_equal(name, "outb") {
        let r = Some((Type::Void, vec![Type::U16, Type::U8]));
        assert(r.unwrap().1@ =~= expected.unwrap().1);
        r
    } else if str_equal(name, "inb") {
        let r = Some((Type::U8, vec![Type::U16]));
        assert(r.unwrap().1@ =~= expected.unwrap().1);
        r
    } else if str_equal(name, "cli") || str_equal(name, "sti") || str_equal(name, "hlt")
        || str_equal(name, "pause") {
        let r = Some((Type::Void, Vec::new()));
        assert(r.unwrap().1@ =~= expected.unwrap().1);
        r
    } else if str_equal(name, "read_cr0") || str_equal(name, "read_cr2") || str_equal(
        name,
        "read_cr3",
    ) || str_equal(name, "read_cr4") {
        let r = Some((Type::U64, Vec::new()));
        assert(r.unwrap().1@ =~= expected.unwrap().1);
        r
    } else if str_equal(name, "write_cr0") || str_equal(name, "write_cr3") || str_equal(
        name,
        "write_cr4",
    ) {
        let r = Some((Type::Void, vec![Type::U64]));
        assert(r.unwrap().1@ =~= expected.unwrap().1);
        r
    } else if str_equal(name, "lidt") || str_equal(name, "sidt") || str_equal(name, "invlpg") {
        let r = Some((Type::Void, vec![Type::Pointer(Box::new(Type::Void), false)]));
        assert(r.unwrap().1@ =~= expected.unwrap().1);
        r
    } else if str_equal(name, "rdmsr") {
        let r = Some((Type::U64, vec![Type::U32]));
        assert(r.unwrap().1@ =~= expected.unwrap().1);
        r
    } else if str_equal(name, "wrmsr") {
        let r = Some((Type::Void, vec![Type::U32, Type::U64]));
        assert(r.unwrap().1@ =~= expected.unwrap().1);
        r
    } else {
        None
    }
}

// ---------------------------------------------------------------------------
// Looking names up.

proof fn lemma_lookup_found<U>(view: Seq<(Seq<char>, U)>, name: Seq<char>, i: int)
    requires
        0 <= i < view.len(),
        view[i].0 == name,
        forall|k: int| i < k < view.len() ==> (#[trigger] view[k]).0 != name,
    ensures
        crate::typing::lookup(view, name) == Some(view[i].1),
    decreases view.len(),
{
    if i < view.len() - 1 {
        assert(view.last() == view[view.len() - 1]);
        lemma_lookup_found(view.drop_last(), name, i);
    }
}

proof fn lemma_lookup_missing<U>(view: Seq<(Seq<char>, U)>, name: Seq<char>)
    requires
        forall|k: int| 0 <= k < view.len() ==> (#[trigger] view[k]).0 != name,
    ensures
        crate::typing::lookup(view, name) is None,
    decreases view.len(),
{
    if view.len() > 0 {
        assert(view.last() == view[view.len() - 1]);
        lemma_lookup_missing(view.drop_last(), name);
    }
}

/// What `find_named` found, in terms of the view of the table.
proof fn lemma_find_named<T, U>(
    entries: Seq<(String, T)>,
    view: Seq<(Seq<char>, U)>,
    name: Seq<char>,
    r: Option<usize>,
)
    requires
        view.len() == entries.len(),
        forall|k: int| 0 <= k < entries.len() ==> (#[trigger] view[k]).0 == entries[k].0@,
        match r {
            Some(i) => i < entries.len() && entries[i as int].0@ == name && forall|k: int|
                i < k < entries.len() ==> (#[trigger] entries[k]).0@ != name,
            None => forall|k: int| 0 <= k < entries.len() ==> (#[trigger] entries[k]).0@ != name,
        },
    ensures
        match r {
            Some(i) => crate::typing::lookup(view, name) == Some(view[i as int].1),
            None => crate::typing::lookup(view, name) is None,
        },
{
    match r {
        Some(i) => {
            assert forall|k: int| i < k < view.len() implies (#[trigger] view[k]).0 != name by {
                assert(entries[k].0@ != name);
            }
            lemma_lookup_found(view, name, i as int);
        },
        None => {
            assert forall|k: int| 0 <= k < view.len() implies (#[trigger] view[k]).0 != name by {
                assert(entries[k].0@ != name);
            }
            lemma_lookup_missing(view, name);
        },
    }
}

// ---------------------------------------------------------------------------
// The checker.

/// Checks a parsed program. The result is every diagnostic that K's typing
/// rules give for it, in order; a program without any is accepted.
pub fn check(program: &Program) -> (r: Result<(), Vec<SemanticError>>)
    ensures
        match r {
            Ok(()) => crate::typing::program_errors(*program).len() == 0,
            Err(errors) => diagnostics(errors@) == crate::typing::program_errors(*program) && errors@.len() > 0,
        },
{
    let mut checker = Checker {
        functions: Vec::new(),
        structs: Vec::new(),
        scopes: Vec::new(),
        errors: Vec::new(),
    };
    assert(diagnostics(checker.errors@) =~= Seq::<Diagnostic>::empty());
    checker.collect_functions(program);
    checker.collect_structs(program);
    let ghost env = crate::typing::program_env(*program);
    proof {
        assert(scopes_view(checker.scopes@) =~= Seq::<Seq<(Seq<char>, Kind)>>::empty());
        assert(checker.env() == env);
    }
    let ghost first = diagnostics(checker.errors@);
    assert(first =~= first + crate::typing::functions_errors(env, program.functions@, 0));
    let mut i: usize = 0;
    while i < program.functions.len()
        invariant
            0 <= i <= program.functions@.len(),
            checker.scopes@.len() == 0,
            checker.env() == env,
            diagnostics(checker.errors@) == first + crate::typing::functions_errors(env, program.functions@, i as int),
        decreases program.functions@.len() - i,
    {
        let ghost functions_before = checker.functions;
        let ghost structs_before = checker.structs;
        checker.check_function(&program.functions[i]);
        proof {
            assert(scopes_view(checker.scopes@) =~= Seq::<Seq<(Seq<char>, Kind)>>::empty());
            assert(checker.functions == functions_before);
            assert(checker.structs == structs_before);
            assert(checker.env().scopes == env.scopes);
            assert(checker.env().functions == env.functions);
            assert(checker.env().structs == env.structs);
        }
        i = i + 1;
        assert(diagnostics(checker.errors@) =~= first + crate::typing::functions_errors(env, program.functions@, i as int));
    }
    assert(diagnostics(checker.errors@) =~= crate::typing::program_errors(*program));
    if checker.errors.len() == 0 {
        Ok(())
    } else {
        Err(checker.errors)
    }
}

struct Checker {
    functions: Vec<(String, ValueType)>,
    structs: Vec<(String, Vec<(String, Type)>)>,
    scopes: Vec<Vec<(String, ValueType)>>,
    errors: Vec<SemanticError>,
}

fn message(first: &str, name: &str, last: &str) -> (r: String)
    ensures
        r@ == first@ + name@ + last@,
{
    let mut out = text(first);
    out.append(name);
    out.append(last);
    out
}

fn find_named<T>(entries: &Vec<(String, T)>, name: &str) -> (r: Option<usize>)
    ensures
        match r {
            Some(i) => i < entries@.len() && entries@[i as int].0@ == name@ && forall|k: int|
                i < k < entries@.len() ==> (#[trigger] entries@[k]).0@ != name@,
            None => forall|k: int| 0 <= k < entries@.len() ==> (#[trigger] entries@[k]).0@ != name@,
        },
{
    let mut i = entries.len();
    while i > 0
        invariant
            i <= entries@.len(),
            forall|k: int| i <= k < entries@.len() ==> (#[trigger] entries@[k]).0@ != name@,
        decreases i,
    {
        i = i - 1;
        if str_equal(entries[i].0.as_str(), name) {
            return Some(i);
        }
    }
    None
}

impl Checker {
    /// The names the checker knows.
    spec fn env(&self) -> Env {
        Env {
            functions: entries_view(self.functions@),
            structs: structs_view(self.structs@),
            scopes: scopes_view(self.scopes@),
        }
    }

    /// The checker reported `added` and nothing else.
    spec fn reported(&self, before: &Checker, added: Seq<Diagnostic>) -> bool {
        diagnostics(self.errors@) == diagnostics(before.errors@) + added
    }

    fn error(&mut self, span: Span, message: String)
        ensures
            final(self).functions == old(self).functions,
            final(self).structs == old(self).structs,
            final(self).scopes == old(self).scopes,
            final(self).reported(&*old(self), crate::typing::diagnostic(span, message@)),
    {
        self.errors.push(SemanticError { span, message });
        assert(diagnostics(self.errors@) =~= diagnostics(old(self).errors@) + crate::typing::diagnostic(span, message@));
    }

    /// Records a signature under a function's name, unless the name is
    /// taken.
    fn collect_signature(&mut self, name: &String, return_type: &Type, parameters: &Vec<crate::ast::Parameter>, span: Span)
        ensures
            final(self).structs == old(self).structs,
            final(self).scopes == old(self).scopes,
            entries_view(final(self).functions@) == if crate::typing::lookup(entries_view(old(self).functions@), name@) is Some {
                entries_view(old(self).functions@)
            } else {
                entries_view(old(self).functions@).push((name@, crate::typing::signature(*return_type, parameters@)))
            },
            final(self).reported(
                &*old(self),
                if crate::typing::lookup(entries_view(old(self).functions@), name@) is Some {
                    crate::typing::diagnostic(span, "duplicate function `"@ + name@ + "`"@)
                } else {
                    Seq::empty()
                },
            ),
    {
        let found = find_named(&self.functions, name.as_str());
        proof {
            lemma_find_named(self.functions@, entries_view(self.functions@), name@, found);
        }
        if found.is_some() {
            let text = message("duplicate function `", name.as_str(), "`");
            self.error(span, text);
        } else {
            let mut types: Vec<Type> = Vec::new();
            let mut k: usize = 0;
            while k < parameters.len()
                invariant
                    k <= parameters@.len(),
                    types@.len() == k,
                    forall|i: int| 0 <= i < k ==> #[trigger] types@[i] == parameters@[i].ty,
                decreases parameters@.len() - k,
            {
                types.push(parameters[k].ty.duplicate());
                k = k + 1;
            }
            let ghost before = self.functions@;
            let value = ValueType::Function { return_type: return_type.duplicate(), parameters: types };
            proof {
                assert(type_views(types@) =~= parameters@.map_values(|p: crate::ast::Parameter| type_view(p.ty)));
            }
            self.functions.push((copy_string(name), value));
            proof {
                assert(entries_view(self.functions@) =~= entries_view(before).push((name@, crate::typing::signature(*return_type, parameters@))));
                assert(diagnostics(self.errors@) =~= diagnostics(old(self).errors@) + Seq::<Diagnostic>::empty());
            }
        }
    }

    fn collect_functions(&mut self, program: &Program)
        requires
            old(self).functions@.len() == 0,
        ensures
            final(self).structs == old(self).structs,
            final(self).scopes == old(self).scopes,
            entries_view(final(self).functions@) == crate::typing::function_table(
                *program,
                program.extern_functions@.len() as int,
                program.functions@.len() as int,
            ).0,
            final(self).reported(
                &*old(self),
                crate::typing::function_table(
                    *program,
                    program.extern_functions@.len() as int,
                    program.functions@.len() as int,
                ).1,
            ),
    {
        let ghost first = diagnostics(self.errors@);
        assert(entries_view(self.functions@) =~= Seq::<(Seq<char>, Kind)>::empty());
        assert(first =~= first + Seq::<Diagnostic>::empty());
        let mut i: usize = 0;
        while i < program.extern_functions.len()
            invariant
                i <= program.extern_functions@.len(),
                self.structs == old(self).structs,
                self.scopes == old(self).scopes,
                first == diagnostics(old(self).errors@),
                entries_view(self.functions@) == crate::typing::function_table(*program, i as int, 0).0,
                diagnostics(self.errors@) == first + crate::typing::function_table(*program, i as int, 0).1,
            decreases program.extern_functions@.len() - i,
        {
            let function = &program.extern_functions[i];
            self.collect_signature(&function.name, &function.return_type, &function.parameters, function.span);
            i = i + 1;
            assert(diagnostics(self.errors@) =~= first + crate::typing::function_table(*program, i as int, 0).1);
        }
        let mut j: usize = 0;
        while j < program.functions.len()
            invariant
                j <= program.functions@.len(),
                i == program.extern_functions@.len(),
                self.structs == old(self).structs,
                self.scopes == old(self).scopes,
                first == diagnostics(old(self).errors@),
                entries_view(self.functions@) == crate::typing::function_table(*program, i as int, j as int).0,
                diagnostics(self.errors@) == first + crate::typing::function_table(*program, i as int, j as int).1,
            decreases program.functions@.len() - j,
        {
            let function = &program.functions[j];
            self.collect_signature(&function.name, &function.return_type, &function.parameters, function.span);
            j = j + 1;
            assert(diagnostics(self.errors@) =~= first + crate::typing::function_table(*program, i as int, j as int).1);
        }
    }

    /// Records a struct's fields; a field named twice is reported and still
    /// recorded.
    fn collect_fields(&mut self, definition: &crate::ast::StructDefinition) -> (fields: Vec<(String, Type)>)
        ensures
            final(self).functions == old(self).functions,
            final(self).structs == old(self).structs,
            final(self).scopes == old(self).scopes,
            fields_view(fields@) == crate::typing::field_table(definition.fields@, definition.fields@.len() as int).0,
            final(self).reported(
                &*old(self),
                crate::typing::field_table(definition.fields@, definition.fields@.len() as int).1,
            ),
    {
        let ghost first = diagnostics(self.errors@);
        let mut fields: Vec<(String, Type)> = Vec::new();
        assert(fields_view(fields@) =~= Seq::<(Seq<char>, TypeView)>::empty());
        assert(first =~= first + Seq::<Diagnostic>::empty());
        let mut k: usize = 0;
        while k < definition.fields.len()
            invariant
                k <= definition.fields@.len(),
                self.functions == old(self).functions,
                self.structs == old(self).structs,
                self.scopes == old(self).scopes,
                first == diagnostics(old(self).errors@),
                fields_view(fields@) == crate::typing::field_table(definition.fields@, k as int).0,
                diagnostics(self.errors@) == first + crate::typing::field_table(definition.fields@, k as int).1,
            decreases definition.fields@.len() - k,
        {
            let field = &definition.fields[k];
            let found = find_named(&fields, field.name.as_str());
            proof {
                lemma_find_named(fields@, fields_view(fields@), field.name@, found);
            }
            if found.is_some() {
                let text = message("duplicate field `", field.name.as_str(), "`");
                self.error(field.span, text);
            }
            let ghost before = fields@;
            fields.push((copy_string(&field.name), field.ty.duplicate()));
            k = k + 1;
            proof {
                assert(fields_view(fields@) =~= fields_view(before).push((field.name@, type_view(field.ty))));
                assert(diagnostics(self.errors@) =~= first + crate::typing::field_table(definition.fields@, k as int).1);
            }
        }
        fields
    }

    fn collect_structs(&mut self, program: &Program)
        requires
            old(self).structs@.len() == 0,
        ensures
            final(self).functions == old(self).functions,
            final(self).scopes == old(self).scopes,
            structs_view(final(self).structs@) == crate::typing::struct_table(program.structs@, program.structs@.len() as int).0,
            final(self).reported(
                &*old(self),
                crate::typing::struct_table(program.structs@, program.structs@.len() as int).1,
            ),
    {
        let ghost first = diagnostics(self.errors@);
        assert(structs_view(self.structs@) =~= Seq::<(Seq<char>, Seq<(Seq<char>, TypeView)>)>::empty());
        assert(first =~= first + Seq::<Diagnostic>::empty());
        let mut i: usize = 0;
        while i < program.structs.len()
            invariant
                i <= program.structs@.len(),
                self.functions == old(self).functions,
                self.scopes == old(self).scopes,
                first == diagnostics(old(self).errors@),
                structs_view(self.structs@) == crate::typing::struct_table(program.structs@, i as int).0,
                diagnostics(self.errors@) == first + crate::typing::struct_table(program.structs@, i as int).1,
            decreases program.structs@.len() - i,
        {
            let definition = &program.structs[i];
            let found = find_named(&self.structs, definition.name.as_str());
            proof {
                lemma_find_named(self.structs@, structs_view(self.structs@), definition.name@, found);
            }
            if found.is_some() {
                let text = message("duplicate struct `", definition.name.as_str(), "`");
                self.error(definition.span, text);
            } else {
                let fields = self.collect_fields(definition);
                let ghost before = self.structs@;
                self.structs.push((copy_string(&definition.name), fields));
                proof {
                    let table = crate::typing::field_table(definition.fields@, definition.fields@.len() as int);
                    assert(structs_view(self.structs@) =~= structs_view(before).push((definition.name@, table.0)));
                }
            }
            i = i + 1;
            assert(diagnostics(self.errors@) =~= first + crate::typing::struct_table(program.structs@, i as int).1);
        }
    }

    fn check_function(&mut self, function: &Function)
        requires
            old(self).scopes@.len() == 0,
        ensures
            final(self).scopes@.len() == 0,
            final(self).functions == old(self).functions,
            final(self).structs == old(self).structs,
            final(self).reported(&*old(self), crate::typing::function_errors(old(self).env(), *function)),
    {
        let ghost env = self.env();
        let ghost start = Env { scopes: seq![Seq::empty()], ..env };
        self.scopes.push(Vec::new());
        proof {
            assert(self.scopes@.last()@ =~= Seq::<(String, ValueType)>::empty());
            assert(entries_view(self.scopes@.last()@) =~= Seq::<(Seq<char>, Kind)>::empty());
            assert(scopes_view(self.scopes@) =~= start.scopes);
        }
        let ghost first = diagnostics(self.errors@);
        let mut i: usize = 0;
        assert(first =~= first + crate::typing::parameters_declared(start, function.parameters@, 0).1);
        while i < function.parameters.len()
            invariant
                i <= function.parameters@.len(),
                self.scopes@.len() == 1,
                self.functions == old(self).functions,
                self.structs == old(self).structs,
                self.env() == crate::typing::parameters_declared(start, function.parameters@, i as int).0,
                diagnostics(self.errors@) == first + crate::typing::parameters_declared(start, function.parameters@, i as int).1,
            decreases function.parameters@.len() - i,
        {
            let parameter = &function.parameters[i];
            let value_type = ValueType::from_type(&parameter.ty);
            proof {
                lemma_kind_of_type(parameter.ty);
            }
            self.declare(copy_string(&parameter.name), value_type, parameter.span);
            i = i + 1;
            assert(diagnostics(self.errors@) =~= first + crate::typing::parameters_declared(start, function.parameters@, i as int).1);
        }
        let ghost after_parameters = diagnostics(self.errors@);
        self.check_block(&function.body, &function.return_type);
        let is_void = match function.return_type {
            Type::Void => true,
            _ => false,
        };
        if !is_void && !block_definitely_returns(&function.body) {
            let text = message(
                "missing return statement in non-void function `",
                function.name.as_str(),
                "`",
            );
            self.error(function.span, text);
        }
        proof {
            assert(diagnostics(self.errors@) =~= diagnostics(old(self).errors@) + crate::typing::function_errors(env, *function));
        }
        self.scopes.pop();
    }

    fn check_block(&mut self, block: &Block, return_type: &Type)
        requires
            old(self).scopes@.len() > 0,
        ensures
            final(self).scopes@.len() == old(self).scopes@.len(),
            final(self).functions == old(self).functions,
            final(self).structs == old(self).structs,
            final(self).env() == crate::typing::block_checked(
                old(self).env(),
                block.statements@,
                block.statements@.len() as int,
                type_view(*return_type),
            ).0,
            final(self).reported(
                &*old(self),
                crate::typing::block_checked(
                    old(self).env(),
                    block.statements@,
                    block.statements@.len() as int,
                    type_view(*return_type),
                ).1,
            ),
        decreases block, 0nat,
    {
        proof {
        }
        let ghost env = self.env();
        let ghost ret = type_view(*return_type);
        let ghost first = diagnostics(self.errors@);
        assert(first =~= first + crate::typing::block_checked(env, block.statements@, 0, ret).1);
        let mut i: usize = 0;
        #[verifier::loop_isolation(false)]
        while i < block.statements.len()
            invariant
                i <= block.statements@.len(),
                self.scopes@.len() == old(self).scopes@.len(),
                self.functions == old(self).functions,
                self.structs == old(self).structs,
                self.env() == crate::typing::block_checked(env, block.statements@, i as int, ret).0,
                diagnostics(self.errors@) == first + crate::typing::block_checked(env, block.statements@, i as int, ret).1,
            decreases block.statements@.len() - i,
        {
            proof {
                crate::typing::lemma_block_scoping(env, block.statements@, i as int, ret);
            }
            self.check_statement(&block.statements[i], return_type);
            i = i + 1;
            assert(diagnostics(self.errors@) =~= first + crate::typing::block_checked(env, block.statements@, i as int, ret).1);
        }
    }

    fn check_nested_block(&mut self, block: &Block, return_type: &Type)
        requires
            old(self).scopes@.len() > 0,
        ensures
            final(self).scopes@.len() == old(self).scopes@.len(),
            final(self).env() == old(self).env(),
            final(self).functions == old(self).functions,
            final(self).structs == old(self).structs,
            final(self).reported(&*old(self), crate::typing::nested_errors(old(self).env(), *block, type_view(*return_type))),
        decreases block, 1nat,
    {
        let ghost env = self.env();
        let ghost scopes = self.scopes@;
        self.scopes.push(Vec::new());
        let ghost inner = Env { scopes: env.scopes.push(Seq::empty()), ..env };
        proof {
            assert(self.scopes@.last()@ =~= Seq::<(String, ValueType)>::empty());
            assert(entries_view(self.scopes@.last()@) =~= Seq::<(Seq<char>, Kind)>::empty());
            assert(self.scopes@ =~= scopes.push(self.scopes@.last()));
            assert(scopes_view(self.scopes@) =~= inner.scopes);
        }
        self.check_block(block, return_type);
        let ghost before_pop = self.scopes@;
        proof {
            crate::typing::lemma_block_scoping(inner, block.statements@, block.statements@.len() as int, type_view(*return_type));
        }
        self.scopes.pop();
        proof {
            assert(self.scopes@ =~= before_pop.drop_last());
            assert(scopes_view(self.scopes@) =~= scopes_view(before_pop).drop_last());
            assert(inner.scopes.drop_last() =~= env.scopes);
            assert(scopes_view(self.scopes@) =~= env.scopes);
        }
    }

    /// Checks a return statement against the function's return type.
    fn check_return(&mut self, statement: &Statement, return_type: &Type)
        requires
            old(self).scopes@.len() > 0,
            statement is Return,
        ensures
            final(self).scopes@.len() == old(self).scopes@.len(),
            final(self).functions == old(self).functions,
            final(self).structs == old(self).structs,
            final(self).env() == old(self).env(),
            final(self).reported(
                &*old(self),
                crate::typing::statement_checked(old(self).env(), *statement, type_view(*return_type)).1,
            ),
        decreases statement, 1nat,
    {
        proof {
        }
        let ghost env = self.env();
        let ghost ret = type_view(*return_type);
        let ghost expected = crate::typing::statement_checked(env, *statement, ret);
        proof {
            assert(diagnostics(self.errors@) =~= diagnostics(self.errors@) + Seq::<Diagnostic>::empty());
            lemma_kind_of_type(*return_type);
        }
        match statement {
            Statement::Return { value, span } => match value {
                Some(value) => {
                    let actual = self.check_expression(value);
                    let expected_type = ValueType::from_type(return_type);
                    self.require_same(&expected_type, &actual, *span, "return value");
                    assert(diagnostics(self.errors@) =~= diagnostics(old(self).errors@) + expected.1);
                },
                None => {
                    let is_void = match return_type {
                        Type::Void => true,
                        _ => false,
                    };
                    if !is_void {
                        let mut text = text("expected a ");
                        text.append(written_type_name(return_type));
                        text.append(" return value");
                        self.error(*span, text);
                    }
                },
            },
            _ => {},
        }
    }

    /// Checks an `if` or a `while`: a boolean condition, then the nested blocks.
    fn check_conditional(&mut self, statement: &Statement, return_type: &Type)
        requires
            old(self).scopes@.len() > 0,
            statement is If || statement is While,
        ensures
            final(self).scopes@.len() == old(self).scopes@.len(),
            final(self).functions == old(self).functions,
            final(self).structs == old(self).structs,
            final(self).env() == old(self).env(),
            final(self).reported(
                &*old(self),
                crate::typing::statement_checked(old(self).env(), *statement, type_view(*return_type)).1,
            ),
        decreases statement, 1nat,
    {
        proof {
        }
        let ghost env = self.env();
        let ghost ret = type_view(*return_type);
        let ghost expected = crate::typing::statement_checked(env, *statement, ret);
        proof {
            assert(diagnostics(self.errors@) =~= diagnostics(self.errors@) + Seq::<Diagnostic>::empty());
            lemma_kind_of_type(*return_type);
        }
        match statement {
            Statement::If { condition, then_branch, else_branch, .. } => {
                let condition_type = self.check_expression(condition);
                self.require_bool(&condition_type, condition.span());
                self.check_nested_block(then_branch, return_type);
                match else_branch {
                    Some(else_branch) => self.check_nested_block(else_branch, return_type),
                    None => {},
                }
                assert(diagnostics(self.errors@) =~= diagnostics(old(self).errors@) + expected.1);
            },
            Statement::While { condition, body, .. } => {
                let ghost d0 = diagnostics(self.errors@);
                let condition_type = self.check_expression(condition);
                let ghost d1 = diagnostics(self.errors@);
                assert(d1 == d0 + crate::typing::expression_typed(env, *condition).errors);
                self.require_bool(&condition_type, condition.span());
                let ghost d2 = diagnostics(self.errors@);
                assert(self.env() == env);
                self.check_nested_block(body, return_type);
                let ghost d3 = diagnostics(self.errors@);
                assert(d3 == d2 + crate::typing::nested_errors(env, *body, ret));
                assert(expected.1 == crate::typing::expression_typed(env, *condition).errors + crate::typing::require(Kind::Bool, crate::typing::expression_typed(env, *condition).kind, crate::ast::expression_span(*condition), "condition"@) + crate::typing::nested_errors(env, *body, ret));
                assert(diagnostics(self.errors@) =~= diagnostics(old(self).errors@) + expected.1);
            },
            _ => {},
        }
    }

    fn check_statement(&mut self, statement: &Statement, return_type: &Type)
        requires
            old(self).scopes@.len() > 0,
        ensures
            final(self).scopes@.len() == old(self).scopes@.len(),
            final(self).functions == old(self).functions,
            final(self).structs == old(self).structs,
            final(self).env() == crate::typing::statement_checked(old(self).env(), *statement, type_view(*return_type)).0,
            final(self).reported(
                &*old(self),
                crate::typing::statement_checked(old(self).env(), *statement, type_view(*return_type)).1,
            ),
        decreases statement, 2nat,
    {
        proof {
        }
        let ghost env = self.env();
        let ghost ret = type_view(*return_type);
        let ghost expected = crate::typing::statement_checked(env, *statement, ret);
        proof {
            assert(diagnostics(self.errors@) =~= diagnostics(self.errors@) + Seq::<Diagnostic>::empty());
            lemma_kind_of_type(*return_type);
        }
        match statement {
            Statement::Declare { ty, name, span } => {
                let value_type = ValueType::from_type(ty);
                proof {
                    lemma_kind_of_type(*ty);
                }
                self.declare(copy_string(name), value_type, *span);
            },
            Statement::Let { name, value, span } => {
                let value_type = self.check_expression(value);
                self.declare(copy_string(name), value_type, *span);
                assert(diagnostics(self.errors@) =~= diagnostics(old(self).errors@) + expected.1);
            },
            Statement::Assign { target, value, span } => {
                let expected_type = self.check_lvalue(target);
                let actual = self.check_expression(value);
                self.require_same(&expected_type, &actual, *span, "assignment");
                assert(diagnostics(self.errors@) =~= diagnostics(old(self).errors@) + expected.1);
            },
            Statement::Return { .. } => self.check_return(statement, return_type),
            Statement::If { .. } | Statement::While { .. } => self.check_conditional(statement, return_type),
            Statement::Block(block) => self.check_nested_block(block, return_type),
            Statement::Expression { expression, .. } => {
                self.check_expression(expression);
            },
        }
    }

    fn check_expression(&mut self, expression: &Expression) -> (r: ValueType)
        ensures
            final(self).scopes == old(self).scopes,
            final(self).functions == old(self).functions,
            final(self).structs == old(self).structs,
            kind_of(r) == crate::typing::expression_typed(old(self).env(), *expression).kind,
            final(self).reported(&*old(self), crate::typing::expression_typed(old(self).env(), *expression).errors),
        decreases expression, 1nat,
    {
        proof {
            reveal(crate::typing::expression_typed);
        }
        let ghost env = self.env();
        let ghost expected = crate::typing::expression_typed(env, *expression);
        proof {
            assert(diagnostics(self.errors@) =~= diagnostics(self.errors@) + Seq::<Diagnostic>::empty());
        }
        match expression {
            Expression::Integer { .. } => ValueType::Int,
            Expression::Character { .. } => ValueType::Char,
            Expression::String { .. } => {
                assert(kind_of(ValueType::Char) == Kind::Char);
                ValueType::Pointer(Box::new(ValueType::Char), false)
            },
            Expression::Boolean { .. } => ValueType::Bool,
            Expression::Name { value, span } => self.resolve_name(value, *span),
            Expression::Unary { .. } => self.check_unary(expression),
            Expression::Binary { left, operator, right, span } => {
                let left_type = self.check_expression(left);
                let right_type = self.check_expression(right);
                let r = self.check_binary(*operator, left_type, right_type, *span);
                assert(diagnostics(self.errors@) =~= diagnostics(old(self).errors@) + expected.errors);
                r
            },
            Expression::Call { .. } => self.check_call(expression),
            Expression::Index { .. } => self.check_index(expression),
            Expression::Field { .. } => self.check_field(expression),
            Expression::Cast { .. } => self.check_cast(expression),
        }
    }

    /// Checks a unary operation.
    fn check_unary(&mut self, expression: &Expression) -> (r: ValueType)
        requires
            expression is Unary,
        ensures
            final(self).scopes == old(self).scopes,
            final(self).functions == old(self).functions,
            final(self).structs == old(self).structs,
            kind_of(r) == crate::typing::expression_typed(old(self).env(), *expression).kind,
            final(self).reported(&*old(self), crate::typing::expression_typed(old(self).env(), *expression).errors),
        decreases expression, 0nat,
    {
        proof {
            reveal(crate::typing::expression_typed);
        }
        let ghost env = self.env();
        let ghost expected = crate::typing::expression_typed(env, *expression);
        proof {
            assert(diagnostics(self.errors@) =~= diagnostics(self.errors@) + Seq::<Diagnostic>::empty());
        }
        match expression {
            Expression::Unary { operator, operand, span } => {
                let operand_type = self.check_expression(operand);
                proof {
                    lemma_display_kind(operand_type);
                }
                match operator {
                    UnaryOperator::Negate | UnaryOperator::BitwiseNot => {
                        if operand_type.is_integer() || operand_type.is_invalid() {
                            operand_type
                        } else {
                            let op_name = match operator {
                                UnaryOperator::Negate => "negate",
                                _ => "apply bitwise not to",
                            };
                            let mut text = text("cannot ");
                            text.append(op_name);
                            text.append(" ");
                            text.append(operand_type.display_name());
                            self.error(*span, text);
                            assert(diagnostics(self.errors@) =~= diagnostics(old(self).errors@) + expected.errors);
                            ValueType::Invalid
                        }
                    },
                    UnaryOperator::AddressOf => {
                        if operand_type.is_invalid() {
                            ValueType::Invalid
                        } else {
                            ValueType::Pointer(Box::new(operand_type), false)
                        }
                    },
                    UnaryOperator::Dereference => match operand_type {
                        ValueType::Pointer(inner, _) => *inner,
                        ValueType::Invalid => ValueType::Invalid,
                        other => {
                            let mut text = text("cannot dereference ");
                            text.append(other.display_name());
                            self.error(*span, text);
                            assert(diagnostics(self.errors@) =~= diagnostics(old(self).errors@) + expected.errors);
                            ValueType::Invalid
                        },
                    },
                }
            },
            _ => ValueType::Invalid,
        }
    }

    /// Checks indexing through a pointer.
    fn check_index(&mut self, expression: &Expression) -> (r: ValueType)
        requires
            expression is Index,
        ensures
            final(self).scopes == old(self).scopes,
            final(self).functions == old(self).functions,
            final(self).structs == old(self).structs,
            kind_of(r) == crate::typing::expression_typed(old(self).env(), *expression).kind,
            final(self).reported(&*old(self), crate::typing::expression_typed(old(self).env(), *expression).errors),
        decreases expression, 0nat,
    {
        proof {
            reveal(crate::typing::expression_typed);
        }
        let ghost env = self.env();
        let ghost expected = crate::typing::expression_typed(env, *expression);
        proof {
            assert(diagnostics(self.errors@) =~= diagnostics(self.errors@) + Seq::<Diagnostic>::empty());
        }
        match expression {
            Expression::Index { base, index, span } => {
                let base_type = self.check_expression(base);
                let index_type = self.check_expression(index);
                self.require_same(&ValueType::Int, &index_type, index.span(), "index");
                proof {
                    lemma_display_kind(base_type);
                }
                match base_type {
                    ValueType::Pointer(inner, _) => {
                        assert(diagnostics(self.errors@) =~= diagnostics(old(self).errors@) + expected.errors);
                        *inner
                    },
                    ValueType::Invalid => {
                        assert(diagnostics(self.errors@) =~= diagnostics(old(self).errors@) + expected.errors);
                        ValueType::Invalid
                    },
                    other => {
                        let mut text = text("cannot index ");
                            text.append(other.display_name());
                        self.error(*span, text);
                        assert(diagnostics(self.errors@) =~= diagnostics(old(self).errors@) + expected.errors);
                        ValueType::Invalid
                    },
                }
            },
            _ => ValueType::Invalid,
        }
    }

    /// Checks a cast between pointers and integers.
    fn check_cast(&mut self, expression: &Expression) -> (r: ValueType)
        requires
            expression is Cast,
        ensures
            final(self).scopes == old(self).scopes,
            final(self).functions == old(self).functions,
            final(self).structs == old(self).structs,
            kind_of(r) == crate::typing::expression_typed(old(self).env(), *expression).kind,
            final(self).reported(&*old(self), crate::typing::expression_typed(old(self).env(), *expression).errors),
        decreases expression, 0nat,
    {
        proof {
            reveal(crate::typing::expression_typed);
        }
        let ghost env = self.env();
        let ghost expected = crate::typing::expression_typed(env, *expression);
        proof {
            assert(diagnostics(self.errors@) =~= diagnostics(self.errors@) + Seq::<Diagnostic>::empty());
        }
        match expression {
            Expression::Cast { ty, operand, span } => {
                let operand_type = self.check_expression(operand);
                let target_type = ValueType::from_type(ty);
                proof {
                    lemma_kind_of_type(*ty);
                    lemma_display_kind(operand_type);
                    lemma_display_kind(target_type);
                }
                if operand_type.is_invalid() {
                    ValueType::Invalid
                } else if is_castable(&operand_type) && is_castable(&target_type) {
                    target_type
                } else {
                    let mut text = text("cannot cast ");
                    text.append(operand_type.display_name());
                    text.append(" to ");
                    text.append(target_type.display_name());
                    self.error(*span, text);
                    assert(diagnostics(self.errors@) =~= diagnostics(old(self).errors@) + expected.errors);
                    ValueType::Invalid
                }
            },
            _ => ValueType::Invalid,
        }
    }

    /// Checks a call: the callee must be a function, and each argument is
    /// checked against its parameter.
    fn check_call(&mut self, expression: &Expression) -> (r: ValueType)
        requires
            expression is Call,
        ensures
            final(self).scopes == old(self).scopes,
            final(self).functions == old(self).functions,
            final(self).structs == old(self).structs,
            kind_of(r) == crate::typing::expression_typed(old(self).env(), *expression).kind,
            final(self).reported(&*old(self), crate::typing::expression_typed(old(self).env(), *expression).errors),
        decreases expression, 0nat,
    {
        proof {
            reveal(crate::typing::expression_typed);
            reveal(crate::typing::arguments_errors);
            reveal(crate::typing::unchecked_arguments_errors);
        }
        let ghost env = self.env();
        let ghost expected = crate::typing::expression_typed(env, *expression);
        match expression {
            Expression::Call { callee, arguments, span } => {
                let callee_type = self.check_expression(callee);
                proof {
                    lemma_display_kind(callee_type);
                }
                match callee_type {
                    ValueType::Function { return_type, parameters } => {
                        let ghost views = type_views(parameters@);
                        if arguments.len() != parameters.len() {
                            let mut text = text("expected ");
                            push_decimal(&mut text, parameters.len() as u64);
                            text.append(" arguments, found ");
                            push_decimal(&mut text, arguments.len() as u64);
                            self.error(*span, text);
                        }
                        let ghost after_arity = diagnostics(self.errors@);
                        assert(crate::typing::arguments_errors(env, arguments@, views, 0) =~= Seq::<Diagnostic>::empty());
                        assert(after_arity =~= after_arity + crate::typing::arguments_errors(env, arguments@, views, 0));
                        let mut i: usize = 0;
                        #[verifier::loop_isolation(false)]
                        while i < arguments.len() && i < parameters.len()
                            invariant
                                i <= arguments@.len(),
                                i <= parameters@.len(),
                                self.scopes == old(self).scopes,
                                self.functions == old(self).functions,
                                self.structs == old(self).structs,
                                env == old(self).env(),
                                views == type_views(parameters@),
                                diagnostics(self.errors@) == after_arity + crate::typing::arguments_errors(
                                    env,
                                    arguments@,
                                    views,
                                    i as int,
                                ),
                            decreases arguments@.len() - i,
                        {
                            let actual = self.check_expression(&arguments[i]);
                            let expected_type = ValueType::from_type(&parameters[i]);
                            proof {
                                lemma_kind_of_type(parameters@[i as int]);
                                assert(views[i as int] == type_view(parameters@[i as int]));
                            }
                            self.require_same(&expected_type, &actual, arguments[i].span(), "argument");
                            i = i + 1;
                            assert(diagnostics(self.errors@) =~= after_arity + crate::typing::arguments_errors(
                                env,
                                arguments@,
                                views,
                                i as int,
                            ));
                        }
                        let r = ValueType::from_type(&return_type);
                        proof {
                            lemma_kind_of_type(return_type);
                            assert(diagnostics(self.errors@) =~= diagnostics(old(self).errors@) + expected.errors);
                        }
                        r
                    },
                    other => {
                        if !other.is_invalid() {
                            let mut text = text("cannot call ");
                            text.append(other.display_name());
                            self.error(*span, text);
                        }
                        let ghost after_callee = diagnostics(self.errors@);
                        assert(after_callee =~= after_callee + crate::typing::unchecked_arguments_errors(env, arguments@, 0));
                        let mut i: usize = 0;
                        #[verifier::loop_isolation(false)]
                        while i < arguments.len()
                            invariant
                                i <= arguments@.len(),
                                self.scopes == old(self).scopes,
                                self.functions == old(self).functions,
                                self.structs == old(self).structs,
                                env == old(self).env(),
                                diagnostics(self.errors@) == after_callee
                                    + crate::typing::unchecked_arguments_errors(env, arguments@, i as int),
                            decreases arguments@.len() - i,
                        {
                            self.check_expression(&arguments[i]);
                            i = i + 1;
                            assert(diagnostics(self.errors@) =~= after_callee
                                + crate::typing::unchecked_arguments_errors(env, arguments@, i as int));
                        }
                        proof {
                            assert(diagnostics(self.errors@) =~= diagnostics(old(self).errors@) + expected.errors);
                        }
                        ValueType::Invalid
                    },
                }
            },
            _ => ValueType::Invalid,
        }
    }

    /// Checks a field access through a struct or a pointer to one.
    fn check_field(&mut self, expression: &Expression) -> (r: ValueType)
        requires
            expression is Field,
        ensures
            final(self).scopes == old(self).scopes,
            final(self).functions == old(self).functions,
            final(self).structs == old(self).structs,
            kind_of(r) == crate::typing::expression_typed(old(self).env(), *expression).kind,
            final(self).reported(&*old(self), crate::typing::expression_typed(old(self).env(), *expression).errors),
        decreases expression, 0nat,
    {
        proof {
            reveal(crate::typing::expression_typed);
        }
        let ghost env = self.env();
        let ghost expected = crate::typing::expression_typed(env, *expression);
        match expression {
            Expression::Field { base, field, span } => {
                let base_type = self.check_expression(base);
                let ghost after_base = diagnostics(self.errors@);
                proof {
                    lemma_display_kind(base_type);
                }
                let ghost base_part = crate::typing::field_base(kind_of(base_type), *span);
                let struct_name: Option<String> = match base_type {
                    ValueType::Struct(name) => {
                        assert(base_part.0 == Some(name@));
                        assert(diagnostics(self.errors@) =~= after_base + base_part.1);
                        Some(name)
                    },
                    ValueType::Pointer(inner, _) => match *inner {
                        ValueType::Struct(name) => {
                            assert(kind_of(ValueType::Struct(name)) == Kind::Struct(name@));
                            assert(base_part.0 == Some(name@));
                            assert(diagnostics(self.errors@) =~= after_base + base_part.1);
                            Some(name)
                        },
                        other => {
                            assert(!(kind_of(other) is Struct));
                            assert(base_part.0 is None);
                            assert(diagnostics(self.errors@) =~= after_base + base_part.1);
                            None
                        },
                    },
                    ValueType::Invalid => {
                        assert(diagnostics(self.errors@) =~= after_base + base_part.1);
                        None
                    },
                    _ => {
                        self.error(*span, text("field access requires a struct"));
                        assert(diagnostics(self.errors@) =~= after_base + base_part.1);
                        None
                    },
                };
                if let Some(name) = struct_name {
                    let index = find_named(&self.structs, name.as_str());
                    proof {
                        lemma_find_named(self.structs@, structs_view(self.structs@), name@, index);
                    }
                    if let Some(index) = index {
                        let found = find_named(&self.structs[index].1, field.as_str());
                        proof {
                            lemma_find_named(
                                self.structs@[index as int].1@,
                                fields_view(self.structs@[index as int].1@),
                                field@,
                                found,
                            );
                        }
                        if let Some(found) = found {
                            let r = ValueType::from_type(&self.structs[index].1[found].1);
                            proof {
                                lemma_kind_of_type(self.structs@[index as int].1@[found as int].1);
                                assert(diagnostics(self.errors@) =~= diagnostics(old(self).errors@) + expected.errors);
                            }
                            return r;
                        }
                    }
                    let mut text = text("unknown field `");
                    text.append(field.as_str());
                    text.append("` on struct `");
                    text.append(name.as_str());
                    text.append("`");
                    self.error(*span, text);
                    assert(diagnostics(self.errors@) =~= diagnostics(old(self).errors@) + expected.errors);
                } else {
                    assert(diagnostics(self.errors@) =~= diagnostics(old(self).errors@) + expected.errors);
                }
                ValueType::Invalid
            },
            _ => ValueType::Invalid,
        }
    }

    fn check_lvalue(&mut self, expression: &Expression) -> (r: ValueType)
        ensures
            final(self).scopes == old(self).scopes,
            final(self).functions == old(self).functions,
            final(self).structs == old(self).structs,
            kind_of(r) == crate::typing::lvalue_typed(old(self).env(), *expression).kind,
            final(self).reported(&*old(self), crate::typing::lvalue_typed(old(self).env(), *expression).errors),
    {
        match expression {
            Expression::Name { value, span } => self.resolve_name(value, *span),
            Expression::Unary { operator: UnaryOperator::Dereference, .. }
            | Expression::Index { .. }
            | Expression::Field { .. } => self.check_expression(expression),
            _ => {
                self.error(
                    expression.span(),
                    text("assignment target must be a variable or memory location"),
                );
                ValueType::Invalid
            },
        }
    }

    fn check_binary(
        &mut self,
        operator: BinaryOperator,
        left: ValueType,
        right: ValueType,
        span: Span,
    ) -> (r: ValueType)
        ensures
            final(self).scopes == old(self).scopes,
            final(self).functions == old(self).functions,
            final(self).structs == old(self).structs,
            kind_of(r) == crate::typing::binary_rule(operator, kind_of(left), kind_of(right), span).kind,
            final(self).reported(&*old(self), crate::typing::binary_rule(operator, kind_of(left), kind_of(right), span).errors),
    {
        proof {
            lemma_same_kind(left, right);
            lemma_display_kind(left);
            lemma_display_kind(right);
            assert(diagnostics(self.errors@) =~= diagnostics(self.errors@) + Seq::<Diagnostic>::empty());
        }
        if left.is_invalid() || right.is_invalid() {
            return ValueType::Invalid;
        }
        match operator {
            BinaryOperator::Equal | BinaryOperator::NotEqual | BinaryOperator::Less
            | BinaryOperator::LessEqual | BinaryOperator::Greater | BinaryOperator::GreaterEqual => {
                if !value_type_equal(&left, &right) {
                    let mut text = text("comparison requires matching types, found ");
                    text.append(left.display_name());
                    text.append(" and ");
                    text.append(right.display_name());
                    self.error(span, text);
                    ValueType::Invalid
                } else {
                    ValueType::Bool
                }
            },
            _ => {
                if !value_type_equal(&left, &right) || !left.is_integer() {
                    let mut text = text(
                        "integer operation requires matching integer types, found ",
                    );
                    text.append(left.display_name());
                    text.append(" and ");
                    text.append(right.display_name());
                    self.error(span, text);
                    ValueType::Invalid
                } else {
                    left
                }
            },
        }
    }

    fn resolve_name(&mut self, name: &String, span: Span) -> (r: ValueType)
        ensures
            final(self).scopes == old(self).scopes,
            final(self).functions == old(self).functions,
            final(self).structs == old(self).structs,
            kind_of(r) == crate::typing::expression_typed(old(self).env(), Expression::Name { value: *name, span }).kind,
            final(self).reported(&*old(self), crate::typing::expression_typed(old(self).env(), Expression::Name { value: *name, span }).errors),
    {
        proof {
            reveal(crate::typing::expression_typed);
        }
        let ghost env = self.env();
        let mut depth = self.scopes.len();
        assert(env.scopes.take(depth as int) =~= env.scopes);
        while depth > 0
            invariant
                depth <= self.scopes@.len(),
                self.scopes == old(self).scopes,
                self.functions == old(self).functions,
                self.structs == old(self).structs,
                self.errors == old(self).errors,
                env == old(self).env(),
                crate::typing::lookup_scopes(env.scopes, name@) == crate::typing::lookup_scopes(
                    env.scopes.take(depth as int),
                    name@,
                ),
            decreases depth,
        {
            depth = depth - 1;
            proof {
                reveal(crate::typing::expression_typed);
            }
            let ghost prefix = env.scopes.take(depth + 1);
            assert(prefix.drop_last() =~= env.scopes.take(depth as int));
            assert(prefix.last() == entries_view(self.scopes@[depth as int]@));
            let found = find_named(&self.scopes[depth], name.as_str());
            proof {
                lemma_find_named(self.scopes@[depth as int]@, entries_view(self.scopes@[depth as int]@), name@, found);
            }
            if let Some(found) = found {
                let r = self.scopes[depth][found].1.duplicate();
                proof {
                    lemma_same_kind(r, self.scopes@[depth as int]@[found as int].1);
                    assert(diagnostics(self.errors@) =~= diagnostics(old(self).errors@) + Seq::<Diagnostic>::empty());
                }
                return r;
            }
        }
        assert(env.scopes.take(0) =~= Seq::<Seq<(Seq<char>, Kind)>>::empty());
        let found = find_named(&self.functions, name.as_str());
        proof {
            lemma_find_named(self.functions@, entries_view(self.functions@), name@, found);
        }
        if let Some(found) = found {
            let r = self.functions[found].1.duplicate();
            proof {
                lemma_same_kind(r, self.functions@[found as int].1);
                assert(diagnostics(self.errors@) =~= diagnostics(old(self).errors@) + Seq::<Diagnostic>::empty());
            }
            return r;
        }
        if let Some((return_type, parameters)) = intrinsic_signature(name.as_str()) {
            let r = ValueType::Function { return_type, parameters };
            proof {
                assert(type_views(parameters@) == type_views(intrinsic(name@).unwrap().1));
                assert(diagnostics(self.errors@) =~= diagnostics(old(self).errors@) + Seq::<Diagnostic>::empty());
            }
            return r;
        }
        let text = message("undefined name `", name.as_str(), "`");
        self.error(span, text);
        ValueType::Invalid
    }

    fn declare(&mut self, name: String, value_type: ValueType, span: Span)
        requires
            old(self).scopes@.len() > 0,
        ensures
            final(self).scopes@.len() == old(self).scopes@.len(),
            final(self).functions == old(self).functions,
            final(self).structs == old(self).structs,
            final(self).env() == crate::typing::declared(old(self).env(), name@, kind_of(value_type), span).0,
            final(self).reported(&*old(self), crate::typing::declared(old(self).env(), name@, kind_of(value_type), span).1),
    {
        let ghost env = self.env();
        let last = self.scopes.len() - 1;
        assert(env.scopes.last() == entries_view(self.scopes@[last as int]@));
        let found = find_named(&self.scopes[last], name.as_str());
        proof {
            lemma_find_named(self.scopes@[last as int]@, entries_view(self.scopes@[last as int]@), name@, found);
        }
        if found.is_some() {
            let text = message("duplicate declaration `", name.as_str(), "`");
            self.error(span, text);
        } else {
            let ghost name_view = name@;
            let ghost kind = kind_of(value_type);
            let mut scope = self.scopes.pop().unwrap();
            scope.push((name, value_type));
            self.scopes.push(scope);
            proof {
                let expected = crate::typing::with_binding(env, name_view, kind);
                assert(entries_view(self.scopes@[last as int]@) =~= env.scopes.last().push((name_view, kind)));
                assert(scopes_view(self.scopes@) =~= expected.scopes);
                assert(diagnostics(self.errors@) =~= diagnostics(old(self).errors@) + Seq::<Diagnostic>::empty());
            }
        }
    }

    fn require_bool(&mut self, actual: &ValueType, span: Span)
        ensures
            final(self).functions == old(self).functions,
            final(self).structs == old(self).structs,
            final(self).scopes == old(self).scopes,
            final(self).reported(&*old(self), crate::typing::require(Kind::Bool, kind_of(*actual), span, "condition"@)),
    {
        self.require_same(&ValueType::Bool, actual, span, "condition");
    }

    fn require_same(&mut self, expected: &ValueType, actual: &ValueType, span: Span, context: &str)
        ensures
            final(self).scopes == old(self).scopes,
            final(self).functions == old(self).functions,
            final(self).structs == old(self).structs,
            final(self).reported(&*old(self), crate::typing::require(kind_of(*expected), kind_of(*actual), span, context@)),
    {
        proof {
            lemma_same_kind(*expected, *actual);
        }
        if !actual.is_invalid() && !value_type_equal(expected, actual) {
            let mut text = text(context);
            text.append(" requires ");
            text.append(expected.display_name());
            text.append(", found ");
            text.append(actual.display_name());
            proof {
                lemma_display_kind(*expected);
                lemma_display_kind(*actual);
            }
            self.error(span, text);
        } else {
            assert(diagnostics(self.errors@) =~= diagnostics(old(self).errors@) + Seq::<Diagnostic>::empty());
        }
    }
}

} // verus!
