//! The abstract syntax tree produced by the parser.
//!
//! Every node keeps the byte span that produced it so later stages can point
//! diagnostics back at the source.

use vstd::prelude::*;

use crate::lexer::Span;

verus! {

/// A complete K source file.
#[derive(Clone, Debug, PartialEq, Eq)]
pub struct Program {
    pub structs: Vec<StructDefinition>,
    pub extern_functions: Vec<ExternFunction>,
    pub functions: Vec<Function>,
    pub span: Span,
}

#[derive(Clone, Debug, PartialEq, Eq)]
pub struct StructDefinition {
    pub name: String,
    pub fields: Vec<StructField>,
    pub span: Span,
}

#[derive(Clone, Debug, PartialEq, Eq)]
pub struct StructField {
    pub name: String,
    pub ty: Type,
    pub span: Span,
}

/// A function declared with `extern`: defined outside the compilation unit.
#[derive(Clone, Debug, PartialEq, Eq)]
pub struct ExternFunction {
    pub return_type: Type,
    pub name: String,
    pub parameters: Vec<Parameter>,
    pub span: Span,
}

/// A function definition.
#[derive(Clone, Debug, PartialEq, Eq)]
pub struct Function {
    pub return_type: Type,
    pub name: String,
    pub parameters: Vec<Parameter>,
    pub body: Block,
    pub span: Span,
}

/// A named function parameter.
#[derive(Clone, Debug, PartialEq, Eq)]
pub struct Parameter {
    pub ty: Type,
    pub name: String,
    pub span: Span,
}

/// The types a program can write. A pointer records whether it is
/// `volatile`-qualified.
#[derive(Debug, PartialEq, Eq)]
pub enum Type {
    Void,
    Int,
    Char,
    U8,
    U16,
    U32,
    U64,
    I32,
    I64,
    Bool,
    Pointer(Box<Type>, bool),
    Struct(String),
}

/// A braced sequence of statements.
#[derive(Debug, PartialEq, Eq)]
pub struct Block {
    pub statements: Vec<Statement>,
    pub span: Span,
}

#[derive(Debug, PartialEq, Eq)]
pub enum Statement {
    /// Local storage without an initializer, such as `struct Token token;`.
    Declare { ty: Type, name: String, span: Span },
    Let { name: String, value: Expression, span: Span },
    Assign { target: Expression, value: Expression, span: Span },
    Return { value: Option<Expression>, span: Span },
    If { condition: Expression, then_branch: Block, else_branch: Option<Block>, span: Span },
    While { condition: Expression, body: Block, span: Span },
    Block(Block),
    Expression { expression: Expression, span: Span },
}

/// Expressions before name resolution and type checking.
#[derive(Debug, PartialEq, Eq)]
pub enum Expression {
    Integer { value: String, span: Span },
    Character { value: u8, span: Span },
    String { value: Vec<u8>, span: Span },
    Boolean { value: bool, span: Span },
    Name { value: String, span: Span },
    Unary { operator: UnaryOperator, operand: Box<Expression>, span: Span },
    Binary { left: Box<Expression>, operator: BinaryOperator, right: Box<Expression>, span: Span },
    Call { callee: Box<Expression>, arguments: Vec<Expression>, span: Span },
    Index { base: Box<Expression>, index: Box<Expression>, span: Span },
    Field { base: Box<Expression>, field: String, span: Span },
    Cast { ty: Type, operand: Box<Expression>, span: Span },
}

#[derive(Clone, Copy, Debug, PartialEq, Eq, Structural)]
pub enum UnaryOperator {
    Negate,
    AddressOf,
    Dereference,
    BitwiseNot,
}

#[derive(Clone, Copy, Debug, PartialEq, Eq, Structural)]
pub enum BinaryOperator {
    Add,
    Subtract,
    Multiply,
    Divide,
    Equal,
    NotEqual,
    Less,
    LessEqual,
    Greater,
    GreaterEqual,
    BitwiseAnd,
    BitwiseOr,
    BitwiseXor,
    ShiftLeft,
    ShiftRight,
}

/// The span an expression was parsed from.
pub open spec fn expression_span(e: Expression) -> Span {
    match e {
        Expression::Integer { span, .. } => span,
        Expression::Character { span, .. } => span,
        Expression::String { span, .. } => span,
        Expression::Boolean { span, .. } => span,
        Expression::Name { span, .. } => span,
        Expression::Unary { span, .. } => span,
        Expression::Binary { span, .. } => span,
        Expression::Call { span, .. } => span,
        Expression::Index { span, .. } => span,
        Expression::Field { span, .. } => span,
        Expression::Cast { span, .. } => span,
    }
}

impl Expression {
    pub fn span(&self) -> (r: Span)
        ensures
            r == expression_span(*self),
    {
        match self {
            Expression::Integer { span, .. } => *span,
            Expression::Character { span, .. } => *span,
            Expression::String { span, .. } => *span,
            Expression::Boolean { span, .. } => *span,
            Expression::Name { span, .. } => *span,
            Expression::Unary { span, .. } => *span,
            Expression::Binary { span, .. } => *span,
            Expression::Call { span, .. } => *span,
            Expression::Index { span, .. } => *span,
            Expression::Field { span, .. } => *span,
            Expression::Cast { span, .. } => *span,
        }
    }
}

// ---------------------------------------------------------------------------
// Sameness of syntax trees. Vectors are compared by their contents, so two
// trees are the same when they have the same shape, spans, names and values.

pub open spec fn same_expression(a: Expression, b: Expression) -> bool
    decreases a,
{
    match (a, b) {
        (Expression::Integer { value: v1, span: s1 }, Expression::Integer { value: v2, span: s2 }) =>
            v1 == v2 && s1 == s2,
        (Expression::Character { value: v1, span: s1 }, Expression::Character { value: v2, span: s2 }) =>
            v1 == v2 && s1 == s2,
        (Expression::String { value: v1, span: s1 }, Expression::String { value: v2, span: s2 }) =>
            v1@ == v2@ && s1 == s2,
        (Expression::Boolean { value: v1, span: s1 }, Expression::Boolean { value: v2, span: s2 }) =>
            v1 == v2 && s1 == s2,
        (Expression::Name { value: v1, span: s1 }, Expression::Name { value: v2, span: s2 }) =>
            v1 == v2 && s1 == s2,
        (
            Expression::Unary { operator: o1, operand: e1, span: s1 },
            Expression::Unary { operator: o2, operand: e2, span: s2 },
        ) => o1 == o2 && s1 == s2 && same_expression(*e1, *e2),
        (
            Expression::Binary { left: l1, operator: o1, right: r1, span: s1 },
            Expression::Binary { left: l2, operator: o2, right: r2, span: s2 },
        ) => o1 == o2 && s1 == s2 && same_expression(*l1, *l2) && same_expression(*r1, *r2),
        (
            Expression::Call { callee: c1, arguments: a1, span: s1 },
            Expression::Call { callee: c2, arguments: a2, span: s2 },
        ) => s1 == s2 && same_expression(*c1, *c2) && a1@.len() == a2@.len() && forall|i: int|
            0 <= i < a1@.len() ==> same_expression(#[trigger] a1@[i], a2@[i]),
        (
            Expression::Index { base: b1, index: i1, span: s1 },
            Expression::Index { base: b2, index: i2, span: s2 },
        ) => s1 == s2 && same_expression(*b1, *b2) && same_expression(*i1, *i2),
        (
            Expression::Field { base: b1, field: f1, span: s1 },
            Expression::Field { base: b2, field: f2, span: s2 },
        ) => s1 == s2 && f1 == f2 && same_expression(*b1, *b2),
        (
            Expression::Cast { ty: t1, operand: e1, span: s1 },
            Expression::Cast { ty: t2, operand: e2, span: s2 },
        ) => s1 == s2 && t1 == t2 && same_expression(*e1, *e2),
        _ => false,
    }
}

pub open spec fn same_option_expression(a: Option<Expression>, b: Option<Expression>) -> bool {
    match (a, b) {
        (Some(x), Some(y)) => same_expression(x, y),
        (None, None) => true,
        _ => false,
    }
}

pub open spec fn same_block(a: Block, b: Block) -> bool
    decreases a, 0int,
{
    a.span == b.span && a.statements@.len() == b.statements@.len() && forall|i: int|
        0 <= i < a.statements@.len() ==> same_statement(
            #[trigger] a.statements@[i],
            b.statements@[i],
        )
}

pub open spec fn same_statement(a: Statement, b: Statement) -> bool
    decreases a, 1int,
{
    match (a, b) {
        (
            Statement::Declare { ty: t1, name: n1, span: s1 },
            Statement::Declare { ty: t2, name: n2, span: s2 },
        ) => t1 == t2 && n1 == n2 && s1 == s2,
        (
            Statement::Let { name: n1, value: v1, span: s1 },
            Statement::Let { name: n2, value: v2, span: s2 },
        ) => n1 == n2 && s1 == s2 && same_expression(v1, v2),
        (
            Statement::Assign { target: t1, value: v1, span: s1 },
            Statement::Assign { target: t2, value: v2, span: s2 },
        ) => s1 == s2 && same_expression(t1, t2) && same_expression(v1, v2),
        (Statement::Return { value: v1, span: s1 }, Statement::Return { value: v2, span: s2 }) =>
            s1 == s2 && same_option_expression(v1, v2),
        (
            Statement::If { condition: c1, then_branch: t1, else_branch: e1, span: s1 },
            Statement::If { condition: c2, then_branch: t2, else_branch: e2, span: s2 },
        ) => s1 == s2 && same_expression(c1, c2) && same_block(t1, t2) && match (e1, e2) {
            (Some(x), Some(y)) => same_block(x, y),
            (None, None) => true,
            _ => false,
        },
        (
            Statement::While { condition: c1, body: b1, span: s1 },
            Statement::While { condition: c2, body: b2, span: s2 },
        ) => s1 == s2 && same_expression(c1, c2) && same_block(b1, b2),
        (Statement::Block(b1), Statement::Block(b2)) => same_block(b1, b2),
        (
            Statement::Expression { expression: e1, span: s1 },
            Statement::Expression { expression: e2, span: s2 },
        ) => s1 == s2 && same_expression(e1, e2),
        _ => false,
    }
}

// ---------------------------------------------------------------------------
// Exact copies. The derived `Clone` implementations are not visible to the
// verifier, so the stages that copy syntax use these instead.

pub fn copy_string(s: &String) -> (r: String)
    ensures
        r == *s,
{
    s.clone()
}

pub fn copy_bytes(v: &Vec<u8>) -> (r: Vec<u8>)
    ensures
        r@ == v@,
{
    let r = v.clone();
    assert(r@ =~= v@);
    r
}

impl Type {
    pub fn duplicate(&self) -> (r: Type)
        ensures
            r == *self,
        decreases self,
    {
        match self {
            Type::Void => Type::Void,
            Type::Int => Type::Int,
            Type::Char => Type::Char,
            Type::U8 => Type::U8,
            Type::U16 => Type::U16,
            Type::U32 => Type::U32,
            Type::U64 => Type::U64,
            Type::I32 => Type::I32,
            Type::I64 => Type::I64,
            Type::Bool => Type::Bool,
            Type::Pointer(inner, volatile) => Type::Pointer(Box::new((**inner).duplicate()), *volatile),
            Type::Struct(name) => Type::Struct(copy_string(name)),
        }
    }
}

impl Clone for Type {
    fn clone(&self) -> (r: Self)
        ensures
            r == *self,
    {
        self.duplicate()
    }
}

impl Expression {
    pub fn duplicate(&self) -> (r: Expression)
        ensures
            same_expression(r, *self),
        decreases self,
    {
        match self {
            Expression::Integer { value, span } => Expression::Integer { value: copy_string(value), span: *span },
            Expression::Character { value, span } => Expression::Character { value: *value, span: *span },
            Expression::String { value, span } => Expression::String { value: copy_bytes(value), span: *span },
            Expression::Boolean { value, span } => Expression::Boolean { value: *value, span: *span },
            Expression::Name { value, span } => Expression::Name { value: copy_string(value), span: *span },
            Expression::Unary { operator, operand, span } => Expression::Unary {
                operator: *operator,
                operand: Box::new((**operand).duplicate()),
                span: *span,
            },
            Expression::Binary { left, operator, right, span } => Expression::Binary {
                left: Box::new((**left).duplicate()),
                operator: *operator,
                right: Box::new((**right).duplicate()),
                span: *span,
            },
            Expression::Call { callee, arguments, span } => {
                let callee = Box::new((**callee).duplicate());
                let mut copied: Vec<Expression> = Vec::new();
                let mut i: usize = 0;
                #[verifier::loop_isolation(false)]
                while i < arguments.len()
                    invariant
                        0 <= i <= arguments@.len(),
                        copied@.len() == i,
                        forall|k: int| 0 <= k < i ==> same_expression(#[trigger] copied@[k], arguments@[k]),
                    decreases arguments@.len() - i,
                {
                    proof {
                        assert(decreases_to!(*self => self->arguments));
                        assert(decreases_to!(*arguments => arguments@));
                        assert(decreases_to!(arguments@ => arguments@[i as int]));
                    }
                    copied.push(arguments[i].duplicate());
                    i = i + 1;
                }
                Expression::Call { callee, arguments: copied, span: *span }
            },
            Expression::Index { base, index, span } => Expression::Index {
                base: Box::new((**base).duplicate()),
                index: Box::new((**index).duplicate()),
                span: *span,
            },
            Expression::Field { base, field, span } => Expression::Field {
                base: Box::new((**base).duplicate()),
                field: copy_string(field),
                span: *span,
            },
            Expression::Cast { ty, operand, span } => Expression::Cast {
                ty: ty.duplicate(),
                operand: Box::new((**operand).duplicate()),
                span: *span,
            },
        }
    }
}

impl Clone for Expression {
    fn clone(&self) -> (r: Self)
        ensures
            same_expression(r, *self),
    {
        self.duplicate()
    }
}

impl Block {
    pub fn duplicate(&self) -> (r: Block)
        ensures
            same_block(r, *self),
        decreases self,
    {
        let mut copied: Vec<Statement> = Vec::new();
        let mut i: usize = 0;
        #[verifier::loop_isolation(false)]
        while i < self.statements.len()
            invariant
                0 <= i <= self.statements@.len(),
                copied@.len() == i,
                forall|k: int| 0 <= k < i ==> same_statement(#[trigger] copied@[k], self.statements@[k]),
            decreases self.statements@.len() - i,
        {
            copied.push(self.statements[i].duplicate());
            i = i + 1;
        }
        Block { statements: copied, span: self.span }
    }
}

impl Statement {
    pub fn duplicate(&self) -> (r: Statement)
        ensures
            same_statement(r, *self),
        decreases self,
    {
        match self {
            Statement::Declare { ty, name, span } => Statement::Declare {
                ty: ty.duplicate(),
                name: copy_string(name),
                span: *span,
            },
            Statement::Let { name, value, span } => Statement::Let {
                name: copy_string(name),
                value: value.duplicate(),
                span: *span,
            },
            Statement::Assign { target, value, span } => Statement::Assign {
                target: target.duplicate(),
                value: value.duplicate(),
                span: *span,
            },
            Statement::Return { value, span } => Statement::Return {
                value: match value {
                    Some(v) => Some(v.duplicate()),
                    None => None,
                },
                span: *span,
            },
            Statement::If { condition, then_branch, else_branch, span } => Statement::If {
                condition: condition.duplicate(),
                then_branch: then_branch.duplicate(),
                else_branch: match else_branch {
                    Some(b) => Some(b.duplicate()),
                    None => None,
                },
                span: *span,
            },
            Statement::While { condition, body, span } => Statement::While {
                condition: condition.duplicate(),
                body: body.duplicate(),
                span: *span,
            },
            Statement::Block(block) => Statement::Block(block.duplicate()),
            Statement::Expression { expression, span } => Statement::Expression {
                expression: expression.duplicate(),
                span: *span,
            },
        }
    }
}

impl Clone for Block {
    fn clone(&self) -> (r: Self)
        ensures
            same_block(r, *self),
    {
        self.duplicate()
    }
}

impl Clone for Statement {
    fn clone(&self) -> (r: Self)
        ensures
            same_statement(r, *self),
    {
        self.duplicate()
    }
}

pub open spec fn same_struct(a: StructDefinition, b: StructDefinition) -> bool {
    a.name == b.name && a.span == b.span && a.fields@ == b.fields@
}

pub open spec fn same_extern(a: ExternFunction, b: ExternFunction) -> bool {
    a.return_type == b.return_type && a.name == b.name && a.span == b.span && a.parameters@
        == b.parameters@
}

pub open spec fn same_function(a: Function, b: Function) -> bool {
    a.return_type == b.return_type && a.name == b.name && a.span == b.span && a.parameters@
        == b.parameters@ && same_block(a.body, b.body)
}

impl StructField {
    pub fn duplicate(&self) -> (r: StructField)
        ensures
            r == *self,
    {
        StructField { name: copy_string(&self.name), ty: self.ty.duplicate(), span: self.span }
    }
}

impl Parameter {
    pub fn duplicate(&self) -> (r: Parameter)
        ensures
            r == *self,
    {
        Parameter { ty: self.ty.duplicate(), name: copy_string(&self.name), span: self.span }
    }
}

pub fn copy_parameters(v: &Vec<Parameter>) -> (r: Vec<Parameter>)
    ensures
        r@ == v@,
{
    let mut out: Vec<Parameter> = Vec::new();
    let mut i: usize = 0;
    while i < v.len()
        invariant
            0 <= i <= v@.len(),
            out@ == v@.take(i as int),
        decreases v@.len() - i,
    {
        out.push(v[i].duplicate());
        i = i + 1;
        assert(out@ =~= v@.take(i as int));
    }
    assert(v@.take(v@.len() as int) =~= v@);
    out
}

impl StructDefinition {
    pub fn duplicate(&self) -> (r: StructDefinition)
        ensures
            same_struct(r, *self),
    {
        let mut fields: Vec<StructField> = Vec::new();
        let mut i: usize = 0;
        while i < self.fields.len()
            invariant
                0 <= i <= self.fields@.len(),
                fields@ == self.fields@.take(i as int),
            decreases self.fields@.len() - i,
        {
            fields.push(self.fields[i].duplicate());
            i = i + 1;
            assert(fields@ =~= self.fields@.take(i as int));
        }
        assert(self.fields@.take(self.fields@.len() as int) =~= self.fields@);
        StructDefinition { name: copy_string(&self.name), fields, span: self.span }
    }
}

impl ExternFunction {
    pub fn duplicate(&self) -> (r: ExternFunction)
        ensures
            same_extern(r, *self),
    {
        ExternFunction {
            return_type: self.return_type.duplicate(),
            name: copy_string(&self.name),
            parameters: copy_parameters(&self.parameters),
            span: self.span,
        }
    }
}

impl Function {
    pub fn duplicate(&self) -> (r: Function)
        ensures
            same_function(r, *self),
    {
        Function {
            return_type: self.return_type.duplicate(),
            name: copy_string(&self.name),
            parameters: copy_parameters(&self.parameters),
            body: self.body.duplicate(),
            span: self.span,
        }
    }
}

} // verus!
