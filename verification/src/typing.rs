//! K's typing rules, stated over plain values.
//!
//! The checker in [`crate::sema`] is proved to report exactly the
//! diagnostics these rules give, in the same order, and to compute the same
//! types. Names are compared by their text.

use vstd::prelude::*;

use crate::ast::{BinaryOperator, Block, Expression, Function, Program, Statement, Type, UnaryOperator};
use crate::lexer::Span;
use crate::text::decimal;

verus! {

/// A written type, with struct names as text.
pub enum TypeView {
    Void,
    Int,
    Char,
    U8,
    U16,
    U32,
    U64,
    I32,
    I64,
    Bool,
    Pointer(Box<TypeView>, bool),
    Struct(Seq<char>),
}

/// The type of a value, with struct names as text.
pub enum Kind {
    Void,
    Int,
    Char,
    U8,
    U16,
    U32,
    U64,
    I32,
    I64,
    Bool,
    Pointer(Box<Kind>, bool),
    Struct(Seq<char>),
    Function(TypeView, Seq<TypeView>),
    Invalid,
}

pub open spec fn type_view(ty: Type) -> TypeView
    decreases ty,
{
    match ty {
        Type::Void => TypeView::Void,
        Type::Int => TypeView::Int,
        Type::Char => TypeView::Char,
        Type::U8 => TypeView::U8,
        Type::U16 => TypeView::U16,
        Type::U32 => TypeView::U32,
        Type::U64 => TypeView::U64,
        Type::I32 => TypeView::I32,
        Type::I64 => TypeView::I64,
        Type::Bool => TypeView::Bool,
        Type::Pointer(inner, volatile) => TypeView::Pointer(Box::new(type_view(*inner)), volatile),
        Type::Struct(name) => TypeView::Struct(name@),
    }
}

pub open spec fn type_views(types: Seq<Type>) -> Seq<TypeView> {
    types.map_values(|ty: Type| type_view(ty))
}

/// The kind of value a written type denotes.
pub open spec fn kind_of_type(ty: TypeView) -> Kind
    decreases ty,
{
    match ty {
        TypeView::Void => Kind::Void,
        TypeView::Int => Kind::Int,
        TypeView::Char => Kind::Char,
        TypeView::U8 => Kind::U8,
        TypeView::U16 => Kind::U16,
        TypeView::U32 => Kind::U32,
        TypeView::U64 => Kind::U64,
        TypeView::I32 => Kind::I32,
        TypeView::I64 => Kind::I64,
        TypeView::Bool => Kind::Bool,
        TypeView::Pointer(inner, volatile) => Kind::Pointer(Box::new(kind_of_type(*inner)), volatile),
        TypeView::Struct(name) => Kind::Struct(name),
    }
}

/// The integer kinds: the operands of arithmetic, bitwise operations and casts.
pub open spec fn is_integer_kind(k: Kind) -> bool {
    match k {
        Kind::Int | Kind::Char | Kind::U8 | Kind::U16 | Kind::U32 | Kind::U64 | Kind::I32 | Kind::I64 => true,
        _ => false,
    }
}

/// Pointers and integers may be cast to each other.
pub open spec fn castable_kind(k: Kind) -> bool {
    is_integer_kind(k) || k is Pointer
}

/// The word diagnostics use for a kind.
pub open spec fn kind_text(k: Kind) -> Seq<char> {
    match k {
        Kind::Int => "int"@,
        Kind::Void => "void"@,
        Kind::Char => "char"@,
        Kind::U8 => "u8"@,
        Kind::U16 => "u16"@,
        Kind::U32 => "u32"@,
        Kind::U64 => "u64"@,
        Kind::I32 => "i32"@,
        Kind::I64 => "i64"@,
        Kind::Bool => "bool"@,
        Kind::Pointer(_, _) => "pointer"@,
        Kind::Struct(_) => "struct"@,
        Kind::Function(_, _) => "function"@,
        Kind::Invalid => "invalid expression"@,
    }
}

/// A diagnostic: where and what.
pub struct Diagnostic {
    pub span: Span,
    pub message: Seq<char>,
}

/// The names in scope while checking.
pub struct Env {
    /// Functions, extern declarations and their signatures.
    pub functions: Seq<(Seq<char>, Kind)>,
    /// Structs and their fields.
    pub structs: Seq<(Seq<char>, Seq<(Seq<char>, TypeView)>)>,
    /// Local scopes, outermost first.
    pub scopes: Seq<Seq<(Seq<char>, Kind)>>,
}

/// The value of the last entry with this name.
pub open spec fn lookup<T>(entries: Seq<(Seq<char>, T)>, name: Seq<char>) -> Option<T>
    decreases entries.len(),
{
    if entries.len() == 0 {
        None
    } else if entries.last().0 == name {
        Some(entries.last().1)
    } else {
        lookup(entries.drop_last(), name)
    }
}

/// A name in the innermost scope that has it.
pub open spec fn lookup_scopes(scopes: Seq<Seq<(Seq<char>, Kind)>>, name: Seq<char>) -> Option<Kind>
    decreases scopes.len(),
{
    if scopes.len() == 0 {
        None
    } else {
        match lookup(scopes.last(), name) {
            Some(k) => Some(k),
            None => lookup_scopes(scopes.drop_last(), name),
        }
    }
}

/// The signature of an intrinsic, as a kind.
pub open spec fn intrinsic_kind(name: Seq<char>) -> Option<Kind> {
    match crate::sema::intrinsic(name) {
        Some((ret, params)) => Some(Kind::Function(type_view(ret), type_views(params))),
        None => None,
    }
}

/// What a name denotes: a local (innermost first), a function, or an
/// intrinsic.
pub open spec fn resolve(env: Env, name: Seq<char>) -> Option<Kind> {
    match lookup_scopes(env.scopes, name) {
        Some(k) => Some(k),
        None => match lookup(env.functions, name) {
            Some(k) => Some(k),
            None => intrinsic_kind(name),
        },
    }
}

/// A kind with the diagnostics found while computing it.
pub struct Typed {
    pub kind: Kind,
    pub errors: Seq<Diagnostic>,
}

pub open spec fn typed(kind: Kind, errors: Seq<Diagnostic>) -> Typed {
    Typed { kind, errors }
}

pub open spec fn diagnostic(span: Span, message: Seq<char>) -> Seq<Diagnostic> {
    seq![Diagnostic { span, message }]
}

/// The diagnostic when `actual` is not `expected` (nothing if `actual` is
/// already invalid).
pub open spec fn require(expected: Kind, actual: Kind, span: Span, context: Seq<char>) -> Seq<Diagnostic> {
    if actual != Kind::Invalid && expected != actual {
        diagnostic(
            span,
            context + " requires "@ + kind_text(expected) + ", found "@ + kind_text(actual),
        )
    } else {
        Seq::empty()
    }
}

/// The rule of a binary operator on two checked operands.
pub open spec fn binary_rule(operator: BinaryOperator, left: Kind, right: Kind, span: Span) -> Typed {
    if left == Kind::Invalid || right == Kind::Invalid {
        typed(Kind::Invalid, Seq::empty())
    } else {
        match operator {
            BinaryOperator::Equal | BinaryOperator::NotEqual | BinaryOperator::Less
            | BinaryOperator::LessEqual | BinaryOperator::Greater | BinaryOperator::GreaterEqual => if left
                != right {
                typed(
                    Kind::Invalid,
                    diagnostic(
                        span,
                        "comparison requires matching types, found "@ + kind_text(left) + " and "@
                            + kind_text(right),
                    ),
                )
            } else {
                typed(Kind::Bool, Seq::empty())
            },
            _ => if left != right || !is_integer_kind(left) {
                typed(
                    Kind::Invalid,
                    diagnostic(
                        span,
                        "integer operation requires matching integer types, found "@ + kind_text(left)
                            + " and "@ + kind_text(right),
                    ),
                )
            } else {
                typed(left, Seq::empty())
            },
        }
    }
}

/// The struct a field access reads from, with the diagnostic of a base that
/// is neither a struct nor a pointer.
pub open spec fn field_base(base: Kind, span: Span) -> (Option<Seq<char>>, Seq<Diagnostic>) {
    match base {
        Kind::Struct(name) => (Some(name), Seq::empty()),
        Kind::Pointer(inner, _) => match *inner {
            Kind::Struct(name) => (Some(name), Seq::empty()),
            _ => (None, Seq::empty()),
        },
        Kind::Invalid => (None, Seq::empty()),
        _ => (None, diagnostic(span, "field access requires a struct"@)),
    }
}

/// The type of a struct's field.
pub open spec fn field_type(env: Env, name: Seq<char>, field: Seq<char>) -> Option<TypeView> {
    match lookup(env.structs, name) {
        Some(fields) => lookup(fields, field),
        None => None,
    }
}

/// The kind and diagnostics of an expression.
#[verifier::opaque]
pub open spec fn expression_typed(env: Env, e: Expression) -> Typed
    decreases e, 1int, 0int,
{
    match e {
        Expression::Integer { .. } => typed(Kind::Int, Seq::empty()),
        Expression::Character { .. } => typed(Kind::Char, Seq::empty()),
        Expression::String { .. } => typed(Kind::Pointer(Box::new(Kind::Char), false), Seq::empty()),
        Expression::Boolean { .. } => typed(Kind::Bool, Seq::empty()),
        Expression::Name { value, span } => match resolve(env, value@) {
            Some(k) => typed(k, Seq::empty()),
            None => typed(Kind::Invalid, diagnostic(span, "undefined name `"@ + value@ + "`"@)),
        },
        Expression::Unary { operator, operand, span } => {
            let inner = expression_typed(env, *operand);
            let k = inner.kind;
            match operator {
                UnaryOperator::Negate | UnaryOperator::BitwiseNot => if is_integer_kind(k) || k
                    == Kind::Invalid {
                    typed(k, inner.errors)
                } else {
                    typed(
                        Kind::Invalid,
                        inner.errors + diagnostic(
                            span,
                            "cannot "@ + (if operator == UnaryOperator::Negate {
                                "negate"@
                            } else {
                                "apply bitwise not to"@
                            }) + " "@ + kind_text(k),
                        ),
                    )
                },
                UnaryOperator::AddressOf => if k == Kind::Invalid {
                    typed(Kind::Invalid, inner.errors)
                } else {
                    typed(Kind::Pointer(Box::new(k), false), inner.errors)
                },
                UnaryOperator::Dereference => match k {
                    Kind::Pointer(target, _) => typed(*target, inner.errors),
                    Kind::Invalid => typed(Kind::Invalid, inner.errors),
                    _ => typed(Kind::Invalid, inner.errors + diagnostic(span, "cannot dereference "@ + kind_text(k))),
                },
            }
        },
        Expression::Binary { left, operator, right, span } => {
            let l = expression_typed(env, *left);
            let r = expression_typed(env, *right);
            let b = binary_rule(operator, l.kind, r.kind, span);
            typed(b.kind, l.errors + r.errors + b.errors)
        },
        Expression::Call { callee, arguments, span } => {
            let c = expression_typed(env, *callee);
            match c.kind {
                Kind::Function(ret, parameters) => {
                    let arity = if arguments@.len() != parameters.len() {
                        diagnostic(
                            span,
                            "expected "@ + decimal(parameters.len()) + " arguments, found "@ + decimal(
                                arguments@.len(),
                            ),
                        )
                    } else {
                        Seq::empty()
                    };
                    let count = if arguments@.len() < parameters.len() {
                        arguments@.len()
                    } else {
                        parameters.len()
                    };
                    typed(
                        kind_of_type(ret),
                        c.errors + arity + arguments_errors(env, arguments@, parameters, count as int),
                    )
                },
                _ => typed(
                    Kind::Invalid,
                    c.errors + (if c.kind != Kind::Invalid {
                        diagnostic(span, "cannot call "@ + kind_text(c.kind))
                    } else {
                        Seq::empty()
                    }) + unchecked_arguments_errors(env, arguments@, arguments@.len() as int),
                ),
            }
        },
        Expression::Index { base, index, span } => {
            let b = expression_typed(env, *base);
            let i = expression_typed(env, *index);
            let errors = b.errors + i.errors + require(Kind::Int, i.kind, crate::ast::expression_span(*index), "index"@);
            match b.kind {
                Kind::Pointer(target, _) => typed(*target, errors),
                Kind::Invalid => typed(Kind::Invalid, errors),
                _ => typed(Kind::Invalid, errors + diagnostic(span, "cannot index "@ + kind_text(b.kind))),
            }
        },
        Expression::Field { base, field, span } => {
            let b = expression_typed(env, *base);
            let (name, base_errors) = field_base(b.kind, span);
            match name {
                Some(name) => match field_type(env, name, field@) {
                    Some(ty) => typed(kind_of_type(ty), b.errors + base_errors),
                    None => typed(
                        Kind::Invalid,
                        b.errors + base_errors + diagnostic(
                            span,
                            "unknown field `"@ + field@ + "` on struct `"@ + name + "`"@,
                        ),
                    ),
                },
                None => typed(Kind::Invalid, b.errors + base_errors),
            }
        },
        Expression::Cast { ty, operand, span } => {
            let o = expression_typed(env, *operand);
            let target = kind_of_type(type_view(ty));
            if o.kind == Kind::Invalid {
                typed(Kind::Invalid, o.errors)
            } else if castable_kind(o.kind) && castable_kind(target) {
                typed(target, o.errors)
            } else {
                typed(
                    Kind::Invalid,
                    o.errors + diagnostic(span, "cannot cast "@ + kind_text(o.kind) + " to "@ + kind_text(target)),
                )
            }
        },
    }
}

/// The diagnostics of the first `count` arguments of a call, each checked
/// against its parameter.
#[verifier::opaque]
pub open spec fn arguments_errors(env: Env, arguments: Seq<Expression>, parameters: Seq<TypeView>, count: int) -> Seq<Diagnostic>
    decreases arguments, 0int, count,
{
    if count <= 0 || count > arguments.len() {
        Seq::empty()
    } else {
        let a = expression_typed(env, arguments[count - 1]);
        arguments_errors(env, arguments, parameters, count - 1) + a.errors + require(
            kind_of_type(parameters[count - 1]),
            a.kind,
            crate::ast::expression_span(arguments[count - 1]),
            "argument"@,
        )
    }
}

/// The diagnostics of the first `count` arguments of a call that cannot be
/// made.
#[verifier::opaque]
pub open spec fn unchecked_arguments_errors(env: Env, arguments: Seq<Expression>, count: int) -> Seq<Diagnostic>
    decreases arguments, 0int, count,
{
    if count <= 0 || count > arguments.len() {
        Seq::empty()
    } else {
        unchecked_arguments_errors(env, arguments, count - 1) + expression_typed(env, arguments[count - 1]).errors
    }
}

/// The kind and diagnostics of an assignment target.
pub open spec fn lvalue_typed(env: Env, e: Expression) -> Typed {
    match e {
        Expression::Name { .. } | Expression::Unary { operator: UnaryOperator::Dereference, .. }
        | Expression::Index { .. } | Expression::Field { .. } => expression_typed(env, e),
        _ => typed(
            Kind::Invalid,
            diagnostic(crate::ast::expression_span(e), "assignment target must be a variable or memory location"@),
        ),
    }
}

// ---------------------------------------------------------------------------
// Statements.

/// An environment with one more binding in its innermost scope.
pub open spec fn with_binding(env: Env, name: Seq<char>, kind: Kind) -> Env {
    Env { scopes: env.scopes.update(env.scopes.len() - 1, env.scopes.last().push((name, kind))), ..env }
}

/// Declares a name in the innermost scope; a name the scope already has is
/// a duplicate declaration.
pub open spec fn declared(env: Env, name: Seq<char>, kind: Kind, span: Span) -> (Env, Seq<Diagnostic>) {
    if lookup(env.scopes.last(), name) is Some {
        (env, diagnostic(span, "duplicate declaration `"@ + name + "`"@))
    } else {
        (with_binding(env, name, kind), Seq::empty())
    }
}

/// The environment after a statement and the diagnostics of the statement.
/// Nested blocks open a scope of their own, which closes after them.
pub open spec fn statement_checked(env: Env, s: Statement, ret: TypeView) -> (Env, Seq<Diagnostic>)
    decreases s, 0int,
{
    match s {
        Statement::Declare { ty, name, span } => declared(env, name@, kind_of_type(type_view(ty)), span),
        Statement::Let { name, value, span } => {
            let v = expression_typed(env, value);
            let (after, errors) = declared(env, name@, v.kind, span);
            (after, v.errors + errors)
        },
        Statement::Assign { target, value, span } => {
            let t = lvalue_typed(env, target);
            let v = expression_typed(env, value);
            (env, t.errors + v.errors + require(t.kind, v.kind, span, "assignment"@))
        },
        Statement::Return { value, span } => match value {
            Some(value) => {
                let v = expression_typed(env, value);
                (env, v.errors + require(kind_of_type(ret), v.kind, span, "return value"@))
            },
            None => (
                env,
                if ret != TypeView::Void {
                    diagnostic(span, "expected a "@ + kind_text(kind_of_type(ret)) + " return value"@)
                } else {
                    Seq::empty()
                },
            ),
        },
        Statement::If { condition, then_branch, else_branch, .. } => {
            let c = expression_typed(env, condition);
            let errors = c.errors + require(Kind::Bool, c.kind, crate::ast::expression_span(condition), "condition"@)
                + nested_errors(env, then_branch, ret);
            match else_branch {
                Some(else_branch) => (env, errors + nested_errors(env, else_branch, ret)),
                None => (env, errors),
            }
        },
        Statement::While { condition, body, .. } => {
            let c = expression_typed(env, condition);
            (
                env,
                c.errors + require(Kind::Bool, c.kind, crate::ast::expression_span(condition), "condition"@)
                    + nested_errors(env, body, ret),
            )
        },
        Statement::Block(block) => (env, nested_errors(env, block, ret)),
        Statement::Expression { expression, .. } => (env, expression_typed(env, expression).errors),
    }
}

/// The diagnostics of a block checked in a scope of its own.
pub open spec fn nested_errors(env: Env, block: Block, ret: TypeView) -> Seq<Diagnostic>
    decreases block, 0int,
{
    let inner = Env { scopes: env.scopes.push(Seq::empty()), ..env };
    block_checked(inner, block.statements@, block.statements@.len() as int, ret).1
}

/// The environment after the first `count` statements and their
/// diagnostics.
pub open spec fn block_checked(env: Env, statements: Seq<Statement>, count: int, ret: TypeView) -> (
    Env,
    Seq<Diagnostic>,
)
    decreases statements, count,
{
    if count <= 0 || count > statements.len() {
        (env, Seq::empty())
    } else {
        let (before, earlier) = block_checked(env, statements, count - 1, ret);
        let (after, errors) = statement_checked(before, statements[count - 1], ret);
        (after, earlier + errors)
    }
}

// ---------------------------------------------------------------------------
// Programs.

/// The signature of a function, as a kind.
pub open spec fn signature(ret: Type, parameters: Seq<crate::ast::Parameter>) -> Kind {
    Kind::Function(type_view(ret), parameters.map_values(|p: crate::ast::Parameter| type_view(p.ty)))
}

/// The function table: extern declarations, then definitions, each name
/// once; a name seen again is a duplicate function.
pub open spec fn function_table(program: Program, externs: int, functions: int) -> (
    Seq<(Seq<char>, Kind)>,
    Seq<Diagnostic>,
)
    decreases externs + functions,
{
    if functions > 0 && functions <= program.functions@.len() && 0 <= externs <= program.extern_functions@.len() {
        let (table, errors) = function_table(program, externs, functions - 1);
        let f = program.functions@[functions - 1];
        if lookup(table, f.name@) is Some {
            (table, errors + diagnostic(f.span, "duplicate function `"@ + f.name@ + "`"@))
        } else {
            (table.push((f.name@, signature(f.return_type, f.parameters@))), errors)
        }
    } else if functions == 0 && externs > 0 && externs <= program.extern_functions@.len() {
        let (table, errors) = function_table(program, externs - 1, 0);
        let f = program.extern_functions@[externs - 1];
        if lookup(table, f.name@) is Some {
            (table, errors + diagnostic(f.span, "duplicate function `"@ + f.name@ + "`"@))
        } else {
            (table.push((f.name@, signature(f.return_type, f.parameters@))), errors)
        }
    } else {
        (Seq::empty(), Seq::empty())
    }
}

/// The fields of a struct; a field named again is a duplicate field but is
/// still recorded.
pub open spec fn field_table(fields: Seq<crate::ast::StructField>, count: int) -> (
    Seq<(Seq<char>, TypeView)>,
    Seq<Diagnostic>,
)
    decreases count,
{
    if count <= 0 || count > fields.len() {
        (Seq::empty(), Seq::empty())
    } else {
        let (table, errors) = field_table(fields, count - 1);
        let f = fields[count - 1];
        (
            table.push((f.name@, type_view(f.ty))),
            errors + if lookup(table, f.name@) is Some {
                diagnostic(f.span, "duplicate field `"@ + f.name@ + "`"@)
            } else {
                Seq::empty()
            },
        )
    }
}

/// The struct table: each struct name once; a name seen again is a
/// duplicate struct and its fields are not checked.
pub open spec fn struct_table(structs: Seq<crate::ast::StructDefinition>, count: int) -> (
    Seq<(Seq<char>, Seq<(Seq<char>, TypeView)>)>,
    Seq<Diagnostic>,
)
    decreases count,
{
    if count <= 0 || count > structs.len() {
        (Seq::empty(), Seq::empty())
    } else {
        let (table, errors) = struct_table(structs, count - 1);
        let s = structs[count - 1];
        if lookup(table, s.name@) is Some {
            (table, errors + diagnostic(s.span, "duplicate struct `"@ + s.name@ + "`"@))
        } else {
            let (fields, field_errors) = field_table(s.fields@, s.fields@.len() as int);
            (table.push((s.name@, fields)), errors + field_errors)
        }
    }
}

/// The parameters bound in order in one scope.
pub open spec fn parameters_declared(env: Env, parameters: Seq<crate::ast::Parameter>, count: int) -> (
    Env,
    Seq<Diagnostic>,
)
    decreases count,
{
    if count <= 0 || count > parameters.len() {
        (env, Seq::empty())
    } else {
        let (before, errors) = parameters_declared(env, parameters, count - 1);
        let p = parameters[count - 1];
        let (after, more) = declared(before, p.name@, kind_of_type(type_view(p.ty)), p.span);
        (after, errors + more)
    }
}

/// The diagnostics of a function: its parameters and body are checked in
/// one scope, and a non-void function must definitely return.
pub open spec fn function_errors(env: Env, f: Function) -> Seq<Diagnostic> {
    let start = Env { scopes: seq![Seq::empty()], ..env };
    let (with_parameters, parameter_errors) = parameters_declared(start, f.parameters@, f.parameters@.len() as int);
    let ret = type_view(f.return_type);
    let (_, body_errors) = block_checked(with_parameters, f.body.statements@, f.body.statements@.len() as int, ret);
    parameter_errors + body_errors + if ret != TypeView::Void && !crate::sema::block_returns(f.body) {
        diagnostic(f.span, "missing return statement in non-void function `"@ + f.name@ + "`"@)
    } else {
        Seq::empty()
    }
}

/// The diagnostics of the first `count` functions.
pub open spec fn functions_errors(env: Env, functions: Seq<Function>, count: int) -> Seq<Diagnostic>
    decreases count,
{
    if count <= 0 || count > functions.len() {
        Seq::empty()
    } else {
        functions_errors(env, functions, count - 1) + function_errors(env, functions[count - 1])
    }
}

/// The checking environment of a program: its function and struct tables.
pub open spec fn program_env(program: Program) -> Env {
    Env {
        functions: function_table(program, program.extern_functions@.len() as int, program.functions@.len() as int).0,
        structs: struct_table(program.structs@, program.structs@.len() as int).0,
        scopes: Seq::empty(),
    }
}

/// Every diagnostic of a program, in the order the checker finds them:
/// duplicate functions, then struct and field problems, then each function.
pub open spec fn program_errors(program: Program) -> Seq<Diagnostic> {
    function_table(program, program.extern_functions@.len() as int, program.functions@.len() as int).1
        + struct_table(program.structs@, program.structs@.len() as int).1 + functions_errors(
        program_env(program),
        program.functions@,
        program.functions@.len() as int,
    )
}

// ---------------------------------------------------------------------------
// Scoping.

/// Two environments differ at most in their innermost scope.
pub open spec fn same_outside(a: Env, b: Env) -> bool {
    &&& a.functions == b.functions
    &&& a.structs == b.structs
    &&& a.scopes.len() == b.scopes.len()
    &&& a.scopes.drop_last() == b.scopes.drop_last()
}

/// Checking a statement changes at most the innermost scope.
pub proof fn lemma_statement_scoping(env: Env, s: Statement, ret: TypeView)
    requires
        env.scopes.len() > 0,
    ensures
        same_outside(statement_checked(env, s, ret).0, env),
{
    match s {
        Statement::Declare { ty, name, span } => {
            assert(declared(env, name@, kind_of_type(type_view(ty)), span).0.scopes.drop_last() =~= env.scopes.drop_last());
        },
        Statement::Let { name, value, span } => {
            let v = expression_typed(env, value);
            assert(declared(env, name@, v.kind, span).0.scopes.drop_last() =~= env.scopes.drop_last());
        },
        _ => {},
    }
}

/// Checking statements changes at most the innermost scope.
pub proof fn lemma_block_scoping(env: Env, statements: Seq<Statement>, count: int, ret: TypeView)
    requires
        env.scopes.len() > 0,
    ensures
        same_outside(block_checked(env, statements, count, ret).0, env),
    decreases count,
{
    if count > 0 && count <= statements.len() {
        lemma_block_scoping(env, statements, count - 1, ret);
        let before = block_checked(env, statements, count - 1, ret).0;
        lemma_statement_scoping(before, statements[count - 1], ret);
    }
}

} // verus!
