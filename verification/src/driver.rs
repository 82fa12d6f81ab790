//! Host-independent compiler orchestration: source buffers in, assembly out.
//!
//! Reading and writing files is left to the command-line program; the driver
//! only strings the stages together and merges the programs of several
//! source buffers into one compilation unit.

use vstd::prelude::*;

use crate::ast::{ExternFunction, Function, Program, StructDefinition, StructField, same_extern, same_function, same_struct};
use crate::codegen::{CodegenError, emit_for_target, emission_outcome};
use crate::ir::lowering_of;
use crate::grammar::program_from;
use crate::reading::same_program;
use crate::lexer::{LexError, Span, SpannedToken, stream_error, token_stream};
use crate::parser::{ParseError, parse, reports};
use crate::syntax_error::items_stop;
use crate::sema::{SemanticError, check, diagnostics, report, same_type, semantic_report, type_equal};
use vstd::string::StringSliceAdditionalSpecFns;
use crate::target::{Target, target_implemented, target_name};
use crate::text::{str_equal, text};

verus! {

/// Why a compilation failed.
#[derive(Clone, Debug, PartialEq, Eq)]
pub enum CompileError {
    Parse(ParseError),
    Semantic(Vec<SemanticError>),
    Codegen(CodegenError),
    UnsupportedTarget(Target),
}

impl CompileError {
    /// The diagnostic text; semantic diagnostics come one per line.
    pub fn to_string(&self) -> (r: String)
        ensures
            r@ == compile_error_text(*self),
    {
        match self {
            CompileError::Parse(error) => error.to_string(),
            CompileError::Semantic(errors) => report(errors),
            CompileError::Codegen(error) => error.to_string(),
            CompileError::UnsupportedTarget(target) => {
                let mut out = text("target `");
                out.append(target.name());
                out.append("` is not implemented");
                out
            },
        }
    }
}

/// The text of a compilation failure.
pub open spec fn compile_error_text(error: CompileError) -> Seq<char> {
    match error {
        CompileError::Parse(e) => "parse error at "@ + crate::lexer::span_text(e.span) + ": "@ + e.message@,
        CompileError::Semantic(errors) => semantic_report(errors@),
        CompileError::Codegen(e) => "code generation error: "@ + e.message@,
        CompileError::UnsupportedTarget(target) => "target `"@ + target_name(target)
            + "` is not implemented"@,
    }
}

// ---------------------------------------------------------------------------
// Combining programs.

/// The merged declarations of several programs.
pub struct Merged {
    pub structs: Seq<StructDefinition>,
    pub extern_functions: Seq<ExternFunction>,
    pub functions: Seq<Function>,
}

/// A declaration that was already made.
pub enum Duplicate {
    Struct(StructDefinition),
    Function(Function),
}

pub open spec fn function_names(functions: Seq<Function>) -> Seq<Seq<char>> {
    functions.map_values(|f: Function| f.name@)
}

pub open spec fn extern_names(externs: Seq<ExternFunction>) -> Seq<Seq<char>> {
    externs.map_values(|f: ExternFunction| f.name@)
}

/// Two field lists declare the same fields: same names and types, in order.
pub open spec fn same_fields(a: Seq<StructField>, b: Seq<StructField>) -> bool {
    a.len() == b.len() && forall|i: int|
        0 <= i < a.len() ==> #[trigger] a[i].name@ == b[i].name@ && same_type(a[i].ty, b[i].ty)
}

/// The last struct with this name.
pub open spec fn struct_named(structs: Seq<StructDefinition>, name: Seq<char>) -> Option<StructDefinition>
    decreases structs.len(),
{
    if structs.len() == 0 {
        None
    } else if structs.last().name@ == name {
        Some(structs.last())
    } else {
        struct_named(structs.drop_last(), name)
    }
}

/// Adds structs in order. Several files may declare the same struct; a
/// struct whose name was taken by a struct with other fields is a duplicate.
pub open spec fn merge_structs(merged: Seq<StructDefinition>, added: Seq<StructDefinition>) -> Result<
    Seq<StructDefinition>,
    StructDefinition,
>
    decreases added.len(),
{
    if added.len() == 0 {
        Ok(merged)
    } else {
        match merge_structs(merged, added.drop_last()) {
            Err(duplicate) => Err(duplicate),
            Ok(so_far) => match struct_named(so_far, added.last().name@) {
                None => Ok(so_far.push(added.last())),
                Some(existing) => if same_fields(existing.fields@, added.last().fields@) {
                    Ok(so_far)
                } else {
                    Err(added.last())
                },
            },
        }
    }
}

/// Adds functions in order; a function whose name was taken is a duplicate.
pub open spec fn merge_functions(merged: Seq<Function>, added: Seq<Function>) -> Result<Seq<Function>, Function>
    decreases added.len(),
{
    if added.len() == 0 {
        Ok(merged)
    } else {
        match merge_functions(merged, added.drop_last()) {
            Err(duplicate) => Err(duplicate),
            Ok(so_far) => if function_names(so_far).contains(added.last().name@) {
                Err(added.last())
            } else {
                Ok(so_far.push(added.last()))
            },
        }
    }
}

/// Adds extern declarations in order, keeping the first of each name.
pub open spec fn merge_externs(merged: Seq<ExternFunction>, added: Seq<ExternFunction>) -> Seq<ExternFunction>
    decreases added.len(),
{
    if added.len() == 0 {
        merged
    } else {
        let so_far = merge_externs(merged, added.drop_last());
        if extern_names(so_far).contains(added.last().name@) {
            so_far
        } else {
            so_far.push(added.last())
        }
    }
}

/// Merges the programs in order: each program's structs, then its
/// functions, then its extern declarations.
pub open spec fn merge_programs(programs: Seq<Program>) -> Result<Merged, Duplicate>
    decreases programs.len(),
{
    if programs.len() == 0 {
        Ok(Merged { structs: Seq::empty(), extern_functions: Seq::empty(), functions: Seq::empty() })
    } else {
        let program = programs.last();
        match merge_programs(programs.drop_last()) {
            Err(duplicate) => Err(duplicate),
            Ok(merged) => match merge_structs(merged.structs, program.structs@) {
                Err(duplicate) => Err(Duplicate::Struct(duplicate)),
                Ok(structs) => match merge_functions(merged.functions, program.functions@) {
                    Err(duplicate) => Err(Duplicate::Function(duplicate)),
                    Ok(functions) => Ok(
                        Merged {
                            structs,
                            extern_functions: merge_externs(merged.extern_functions, program.extern_functions@),
                            functions,
                        },
                    ),
                },
            },
        }
    }
}

/// The extern declarations that no function of the unit defines.
pub open spec fn undefined_externs(externs: Seq<ExternFunction>, functions: Seq<Function>) -> Seq<ExternFunction>
    decreases externs.len(),
{
    if externs.len() == 0 {
        externs
    } else {
        let kept = undefined_externs(externs.drop_last(), functions);
        if function_names(functions).contains(externs.last().name@) {
            kept
        } else {
            kept.push(externs.last())
        }
    }
}

/// The diagnostic of a declaration made twice.
pub open spec fn duplicate_error(duplicate: Duplicate) -> (Span, Seq<char>) {
    match duplicate {
        Duplicate::Struct(s) => (s.span, "duplicate struct `"@ + s.name@ + "` in multi-file compilation"@),
        Duplicate::Function(f) => (
            f.span,
            "duplicate function `"@ + f.name@ + "` in multi-file compilation"@,
        ),
    }
}

/// Two programs hold the same declarations.
pub open spec fn same_declarations(
    program: Program,
    structs: Seq<StructDefinition>,
    extern_functions: Seq<ExternFunction>,
    functions: Seq<Function>,
) -> bool {
    &&& program.structs@.len() == structs.len()
    &&& forall|i: int| 0 <= i < structs.len() ==> same_struct(#[trigger] program.structs@[i], structs[i])
    &&& program.extern_functions@.len() == extern_functions.len()
    &&& forall|i: int|
        0 <= i < extern_functions.len() ==> same_extern(#[trigger] program.extern_functions@[i], extern_functions[i])
    &&& program.functions@.len() == functions.len()
    &&& forall|i: int| 0 <= i < functions.len() ==> same_function(#[trigger] program.functions@[i], functions[i])
}

/// What combining programs gives. No program gives an empty unit; one
/// program gives a copy of itself. Several programs give their structs and
/// functions in order, and their extern declarations, the first of each
/// name, less those a function defines; the unit spans from the start of
/// the first program to the end of the last. A struct declared again with
/// the same fields is kept once; a struct declared again with other fields,
/// or a function defined twice, is an error at its second declaration.
pub open spec fn combination(programs: Seq<Program>, r: Result<Program, CompileError>) -> bool {
    if programs.len() == 0 {
        r matches Ok(p) && same_declarations(p, Seq::empty(), Seq::empty(), Seq::empty()) && p.span
            == Span { start: 0, end: 0 }
    } else if programs.len() == 1 {
        r matches Ok(p) && same_declarations(
            p,
            programs[0].structs@,
            programs[0].extern_functions@,
            programs[0].functions@,
        ) && p.span == programs[0].span
    } else {
        match merge_programs(programs) {
            Err(duplicate) => r matches Err(CompileError::Semantic(errors)) && errors@.len() == 1
                && errors@[0].span == duplicate_error(duplicate).0 && errors@[0].message@ == duplicate_error(
                duplicate,
            ).1,
            Ok(merged) => r matches Ok(p) && same_declarations(
                p,
                merged.structs,
                undefined_externs(merged.extern_functions, merged.functions),
                merged.functions,
            ) && p.span == Span { start: programs[0].span.start, end: programs.last().span.end },
        }
    }
}

pub open spec fn same_structs(a: Seq<StructDefinition>, b: Seq<StructDefinition>) -> bool {
    a.len() == b.len() && forall|i: int| 0 <= i < a.len() ==> same_struct(#[trigger] a[i], b[i])
}

pub open spec fn same_functions(a: Seq<Function>, b: Seq<Function>) -> bool {
    a.len() == b.len() && forall|i: int| 0 <= i < a.len() ==> same_function(#[trigger] a[i], b[i])
}

pub open spec fn same_externs(a: Seq<ExternFunction>, b: Seq<ExternFunction>) -> bool {
    a.len() == b.len() && forall|i: int| 0 <= i < a.len() ==> same_extern(#[trigger] a[i], b[i])
}

proof fn lemma_same_function_names(a: Seq<Function>, b: Seq<Function>)
    requires
        same_functions(a, b),
    ensures
        function_names(a) == function_names(b),
{
    assert(function_names(a) =~= function_names(b));
}

proof fn lemma_same_extern_names(a: Seq<ExternFunction>, b: Seq<ExternFunction>)
    requires
        same_externs(a, b),
    ensures
        extern_names(a) == extern_names(b),
{
    assert(extern_names(a) =~= extern_names(b));
}

/// The index of the last struct with this name.
fn find_struct(structs: &Vec<StructDefinition>, name: &String) -> (r: Option<usize>)
    ensures
        match struct_named(structs@, name@) {
            None => r is None,
            Some(found) => r matches Some(k) && k < structs@.len() && structs@[k as int] == found,
        },
{
    let mut i = structs.len();
    assert(structs@.take(i as int) =~= structs@);
    while i > 0
        invariant
            i <= structs@.len(),
            struct_named(structs@, name@) == struct_named(structs@.take(i as int), name@),
        decreases i,
    {
        let ghost prefix = structs@.take(i as int);
        assert(prefix.last() == structs@[i - 1]);
        assert(prefix.drop_last() =~= structs@.take(i - 1));
        if str_equal(structs[i - 1].name.as_str(), name.as_str()) {
            return Some(i - 1);
        }
        i = i - 1;
    }
    assert(structs@.take(0) =~= Seq::<StructDefinition>::empty());
    None
}

/// Whether two field lists declare the same fields.
fn fields_agree(a: &Vec<StructField>, b: &Vec<StructField>) -> (r: bool)
    ensures
        r == same_fields(a@, b@),
{
    if a.len() != b.len() {
        return false;
    }
    let mut i: usize = 0;
    while i < a.len()
        invariant
            i <= a@.len(),
            a@.len() == b@.len(),
            forall|k: int| 0 <= k < i ==> #[trigger] a@[k].name@ == b@[k].name@ && same_type(a@[k].ty, b@[k].ty),
        decreases a@.len() - i,
    {
        if !str_equal(a[i].name.as_str(), b[i].name.as_str()) || !type_equal(&a[i].ty, &b[i].ty) {
            return false;
        }
        i = i + 1;
    }
    true
}

/// Structs related one to one keep the same last struct of each name.
proof fn lemma_same_struct_named(a: Seq<StructDefinition>, b: Seq<StructDefinition>, name: Seq<char>)
    requires
        same_structs(a, b),
    ensures
        match (struct_named(a, name), struct_named(b, name)) {
            (None, None) => true,
            (Some(x), Some(y)) => same_struct(x, y),
            _ => false,
        },
    decreases a.len(),
{
    if a.len() > 0 {
        assert(same_struct(a.last(), b.last()));
        if a.last().name@ != name {
            let (c, d) = (a.drop_last(), b.drop_last());
            assert forall|i: int| 0 <= i < c.len() implies same_struct(#[trigger] c[i], d[i]) by {
                assert(same_struct(a[i], b[i]));
            }
            lemma_same_struct_named(c, d, name);
        }
    }
}

fn has_function(functions: &Vec<Function>, name: &String) -> (r: bool)
    ensures
        r == function_names(functions@).contains(name@),
{
    let mut i: usize = 0;
    while i < functions.len()
        invariant
            i <= functions@.len(),
            forall|k: int| 0 <= k < i ==> functions@[k].name@ != name@,
        decreases functions@.len() - i,
    {
        if str_equal(functions[i].name.as_str(), name.as_str()) {
            assert(function_names(functions@)[i as int] == name@);
            return true;
        }
        i = i + 1;
    }
    proof {
        if function_names(functions@).contains(name@) {
            let k = choose|k: int| 0 <= k < functions@.len() && function_names(functions@)[k] == name@;
            assert(functions@[k].name@ == name@);
        }
    }
    false
}

fn has_extern(externs: &Vec<ExternFunction>, name: &String) -> (r: bool)
    ensures
        r == extern_names(externs@).contains(name@),
{
    let mut i: usize = 0;
    while i < externs.len()
        invariant
            i <= externs@.len(),
            forall|k: int| 0 <= k < i ==> externs@[k].name@ != name@,
        decreases externs@.len() - i,
    {
        if str_equal(externs[i].name.as_str(), name.as_str()) {
            assert(extern_names(externs@)[i as int] == name@);
            return true;
        }
        i = i + 1;
    }
    proof {
        if extern_names(externs@).contains(name@) {
            let k = choose|k: int| 0 <= k < externs@.len() && extern_names(externs@)[k] == name@;
            assert(externs@[k].name@ == name@);
        }
    }
    false
}

/// The diagnostic of a declaration made twice.
fn duplicate_diagnostic(opening: &str, name: &String, span: Span) -> (r: SemanticError)
    ensures
        r.span == span,
        r.message@ == opening@ + name@ + "` in multi-file compilation"@,
{
    let mut message = text(opening);
    message.append(name.as_str());
    message.append("` in multi-file compilation");
    SemanticError { span, message }
}

/// Adds one program's structs.
fn merge_struct_list(merged: &mut Vec<StructDefinition>, added: &Vec<StructDefinition>) -> (r: Result<(), SemanticError>)
    ensures
        forall|spec_merged: Seq<StructDefinition>|
            same_structs(old(merged)@, spec_merged) ==> match #[trigger] merge_structs(spec_merged, added@) {
                Ok(structs) => r is Ok && same_structs(final(merged)@, structs),
                Err(duplicate) => r matches Err(e) && e.span == duplicate_error(Duplicate::Struct(duplicate)).0
                    && e.message@ == duplicate_error(Duplicate::Struct(duplicate)).1,
            },
{
    let ghost start = merged@;
    let mut j: usize = 0;
    assert(added@.take(0) =~= Seq::<StructDefinition>::empty());
    while j < added.len()
        invariant
            j <= added@.len(),
            start == old(merged)@,
            forall|spec_merged: Seq<StructDefinition>|
                same_structs(start, spec_merged) ==> #[trigger] merge_structs(spec_merged, added@.take(j as int)) is Ok
                    && same_structs(merged@, merge_structs(spec_merged, added@.take(j as int))->Ok_0),
        decreases added@.len() - j,
    {
        let ghost next = added@.take(j + 1);
        let ghost before = merged@;
        proof {
            assert(next.drop_last() =~= added@.take(j as int));
            assert(next.last() == added@[j as int]);
        }
        let name = &added[j].name;
        match find_struct(merged, name) {
            Some(k) => {
                if fields_agree(&merged[k].fields, &added[j].fields) {
                    proof {
                        assert forall|spec_merged: Seq<StructDefinition>| same_structs(start, spec_merged) implies #[trigger] merge_structs(spec_merged, next) is Ok
                            && same_structs(merged@, merge_structs(spec_merged, next)->Ok_0) by {
                            let so_far = merge_structs(spec_merged, added@.take(j as int))->Ok_0;
                            lemma_same_struct_named(before, so_far, name@);
                        }
                    }
                } else {
                    proof {
                        assert forall|spec_merged: Seq<StructDefinition>| same_structs(start, spec_merged) implies match #[trigger] merge_structs(spec_merged, added@) {
                            Ok(structs) => false,
                            Err(duplicate) => duplicate == added@[j as int],
                        } by {
                            let so_far = merge_structs(spec_merged, added@.take(j as int))->Ok_0;
                            lemma_same_struct_named(before, so_far, name@);
                            lemma_merge_structs_error_persists(spec_merged, added@, j + 1);
                        }
                    }
                    return Err(duplicate_diagnostic("duplicate struct `", name, added[j].span));
                }
            },
            None => {
                merged.push(added[j].duplicate());
                proof {
                    assert forall|spec_merged: Seq<StructDefinition>| same_structs(start, spec_merged) implies #[trigger] merge_structs(spec_merged, next) is Ok
                        && same_structs(merged@, merge_structs(spec_merged, next)->Ok_0) by {
                        let so_far = merge_structs(spec_merged, added@.take(j as int))->Ok_0;
                        lemma_same_struct_named(before, so_far, name@);
                    }
                }
            },
        }
        j = j + 1;
    }
    assert(added@.take(added@.len() as int) =~= added@);
    Ok(())
}

proof fn lemma_merge_structs_error_persists(merged: Seq<StructDefinition>, added: Seq<StructDefinition>, k: int)
    requires
        0 <= k <= added.len(),
        merge_structs(merged, added.take(k)) is Err,
    ensures
        merge_structs(merged, added) == merge_structs(merged, added.take(k)),
    decreases added.len() - k,
{
    if k < added.len() {
        assert(added.take(k + 1).drop_last() =~= added.take(k));
        lemma_merge_structs_error_persists(merged, added, k + 1);
    } else {
        assert(added.take(k) =~= added);
    }
}

/// Adds one program's functions.
fn merge_function_list(merged: &mut Vec<Function>, added: &Vec<Function>) -> (r: Result<(), SemanticError>)
    ensures
        forall|spec_merged: Seq<Function>|
            same_functions(old(merged)@, spec_merged) ==> match #[trigger] merge_functions(spec_merged, added@) {
                Ok(functions) => r is Ok && same_functions(final(merged)@, functions),
                Err(duplicate) => r matches Err(e) && e.span == duplicate_error(Duplicate::Function(duplicate)).0
                    && e.message@ == duplicate_error(Duplicate::Function(duplicate)).1,
            },
{
    let ghost start = merged@;
    let mut j: usize = 0;
    assert(added@.take(0) =~= Seq::<Function>::empty());
    while j < added.len()
        invariant
            j <= added@.len(),
            start == old(merged)@,
            forall|spec_merged: Seq<Function>|
                same_functions(start, spec_merged) ==> #[trigger] merge_functions(spec_merged, added@.take(j as int)) is Ok
                    && same_functions(merged@, merge_functions(spec_merged, added@.take(j as int))->Ok_0),
        decreases added@.len() - j,
    {
        let ghost next = added@.take(j + 1);
        let ghost before = merged@;
        proof {
            assert(next.drop_last() =~= added@.take(j as int));
            assert(next.last() == added@[j as int]);
        }
        if has_function(merged, &added[j].name) {
            proof {
                assert forall|spec_merged: Seq<Function>| same_functions(start, spec_merged) implies match #[trigger] merge_functions(spec_merged, added@) {
                    Ok(functions) => false,
                    Err(duplicate) => duplicate == added@[j as int],
                } by {
                    let so_far = merge_functions(spec_merged, added@.take(j as int));
                    lemma_same_function_names(before, so_far->Ok_0);
                    lemma_merge_functions_error_persists(spec_merged, added@, j + 1);
                }
            }
            return Err(duplicate_diagnostic("duplicate function `", &added[j].name, added[j].span));
        }
        merged.push(added[j].duplicate());
        proof {
            assert forall|spec_merged: Seq<Function>| same_functions(start, spec_merged) implies #[trigger] merge_functions(spec_merged, next) is Ok
                && same_functions(merged@, merge_functions(spec_merged, next)->Ok_0) by {
                let so_far = merge_functions(spec_merged, added@.take(j as int));
                lemma_same_function_names(before, so_far->Ok_0);
            }
        }
        j = j + 1;
    }
    assert(added@.take(added@.len() as int) =~= added@);
    Ok(())
}

proof fn lemma_merge_functions_error_persists(merged: Seq<Function>, added: Seq<Function>, k: int)
    requires
        0 <= k <= added.len(),
        merge_functions(merged, added.take(k)) is Err,
    ensures
        merge_functions(merged, added) == merge_functions(merged, added.take(k)),
    decreases added.len() - k,
{
    if k < added.len() {
        assert(added.take(k + 1).drop_last() =~= added.take(k));
        lemma_merge_functions_error_persists(merged, added, k + 1);
    } else {
        assert(added.take(k) =~= added);
    }
}

/// Adds one program's extern declarations, keeping the first of each name.
fn merge_extern_list(merged: &mut Vec<ExternFunction>, added: &Vec<ExternFunction>)
    requires
        exists|spec_merged: Seq<ExternFunction>| same_externs(old(merged)@, spec_merged),
    ensures
        forall|spec_merged: Seq<ExternFunction>|
            same_externs(old(merged)@, spec_merged) ==> same_externs(
                final(merged)@,
                #[trigger] merge_externs(spec_merged, added@),
            ),
{
    let ghost start = merged@;
    let mut j: usize = 0;
    assert(added@.take(0) =~= Seq::<ExternFunction>::empty());
    while j < added.len()
        invariant
            j <= added@.len(),
            start == old(merged)@,
            forall|spec_merged: Seq<ExternFunction>|
                same_externs(start, spec_merged) ==> same_externs(
                    merged@,
                    #[trigger] merge_externs(spec_merged, added@.take(j as int)),
                ),
        decreases added@.len() - j,
    {
        let ghost next = added@.take(j + 1);
        let ghost before = merged@;
        proof {
            assert(next.drop_last() =~= added@.take(j as int));
            assert(next.last() == added@[j as int]);
        }
        if !has_extern(merged, &added[j].name) {
            merged.push(added[j].duplicate());
        }
        proof {
            assert forall|spec_merged: Seq<ExternFunction>| same_externs(start, spec_merged) implies same_externs(
                merged@,
                #[trigger] merge_externs(spec_merged, next),
            ) by {
                let so_far = merge_externs(spec_merged, added@.take(j as int));
                assert(same_externs(before, so_far));
                lemma_same_extern_names(before, so_far);
            }
        }
        j = j + 1;
    }
    assert(added@.take(added@.len() as int) =~= added@);
}

/// Keeps the extern declarations that no function defines.
fn drop_defined_externs(externs: &Vec<ExternFunction>, functions: &Vec<Function>) -> (r: Vec<ExternFunction>)
    ensures
        forall|spec_externs: Seq<ExternFunction>, spec_functions: Seq<Function>|
            same_externs(externs@, spec_externs) && same_functions(functions@, spec_functions) ==> same_externs(
                r@,
                #[trigger] undefined_externs(spec_externs, spec_functions),
            ),
{
    let mut kept: Vec<ExternFunction> = Vec::new();
    let mut j: usize = 0;
    assert(externs@.take(0) =~= Seq::<ExternFunction>::empty());
    while j < externs.len()
        invariant
            j <= externs@.len(),
            forall|spec_externs: Seq<ExternFunction>, spec_functions: Seq<Function>|
                same_externs(externs@.take(j as int), spec_externs) && same_functions(functions@, spec_functions)
                    ==> same_externs(kept@, #[trigger] undefined_externs(spec_externs, spec_functions)),
        decreases externs@.len() - j,
    {
        let ghost before = kept@;
        let ghost next = externs@.take(j + 1);
        let defined = has_function(functions, &externs[j].name);
        if !defined {
            kept.push(externs[j].duplicate());
        }
        proof {
            assert forall|spec_externs: Seq<ExternFunction>, spec_functions: Seq<Function>|
                same_externs(next, spec_externs) && same_functions(functions@, spec_functions) implies same_externs(
                kept@,
                #[trigger] undefined_externs(spec_externs, spec_functions),
            ) by {
                let shorter = spec_externs.drop_last();
                assert(same_externs(externs@.take(j as int), shorter)) by {
                    assert forall|i: int| 0 <= i < shorter.len() implies same_extern(
                        #[trigger] externs@.take(j as int)[i],
                        shorter[i],
                    ) by {
                        assert(next[i] == externs@.take(j as int)[i]);
                        assert(same_extern(next[i], spec_externs[i]));
                    }
                }
                let previous = undefined_externs(shorter, spec_functions);
                assert(same_externs(before, previous));
                lemma_same_function_names(functions@, spec_functions);
                assert(same_extern(next[j as int], spec_externs[j as int]));
                assert(spec_externs.last() == spec_externs[j as int]);
                assert(externs@[j as int] == next[j as int]);
            }
        }
        j = j + 1;
    }
    assert(externs@.take(externs@.len() as int) =~= externs@);
    kept
}

proof fn lemma_merge_programs_error_persists(programs: Seq<Program>, k: int)
    requires
        0 <= k <= programs.len(),
        merge_programs(programs.take(k)) is Err,
    ensures
        merge_programs(programs) == merge_programs(programs.take(k)),
    decreases programs.len() - k,
{
    if k < programs.len() {
        assert(programs.take(k + 1).drop_last() =~= programs.take(k));
        lemma_merge_programs_error_persists(programs, k + 1);
    } else {
        assert(programs.take(k) =~= programs);
    }
}

fn copy_structs(v: &Vec<StructDefinition>) -> (r: Vec<StructDefinition>)
    ensures
        same_structs(r@, v@),
{
    let mut out: Vec<StructDefinition> = Vec::new();
    let mut i: usize = 0;
    while i < v.len()
        invariant
            i <= v@.len(),
            out@.len() == i,
            forall|k: int| 0 <= k < i ==> same_struct(#[trigger] out@[k], v@[k]),
        decreases v@.len() - i,
    {
        out.push(v[i].duplicate());
        i = i + 1;
    }
    out
}

fn copy_externs(v: &Vec<ExternFunction>) -> (r: Vec<ExternFunction>)
    ensures
        same_externs(r@, v@),
{
    let mut out: Vec<ExternFunction> = Vec::new();
    let mut i: usize = 0;
    while i < v.len()
        invariant
            i <= v@.len(),
            out@.len() == i,
            forall|k: int| 0 <= k < i ==> same_extern(#[trigger] out@[k], v@[k]),
        decreases v@.len() - i,
    {
        out.push(v[i].duplicate());
        i = i + 1;
    }
    out
}

fn copy_functions(v: &Vec<Function>) -> (r: Vec<Function>)
    ensures
        same_functions(r@, v@),
{
    let mut out: Vec<Function> = Vec::new();
    let mut i: usize = 0;
    while i < v.len()
        invariant
            i <= v@.len(),
            out@.len() == i,
            forall|k: int| 0 <= k < i ==> same_function(#[trigger] out@[k], v@[k]),
        decreases v@.len() - i,
    {
        out.push(v[i].duplicate());
        i = i + 1;
    }
    out
}

/// Combines several parsed programs into one compilation unit, in order.
pub fn combine_programs(programs: &[Program]) -> (r: Result<Program, CompileError>)
    ensures
        combination(programs@, r),
{
    if programs.len() == 0 {
        return Ok(
            Program {
                structs: Vec::new(),
                extern_functions: Vec::new(),
                functions: Vec::new(),
                span: Span::new(0, 0),
            },
        );
    }
    if programs.len() == 1 {
        let program = &programs[0];
        return Ok(
            Program {
                structs: copy_structs(&program.structs),
                extern_functions: copy_externs(&program.extern_functions),
                functions: copy_functions(&program.functions),
                span: program.span,
            },
        );
    }
    let mut structs: Vec<StructDefinition> = Vec::new();
    let mut extern_functions: Vec<ExternFunction> = Vec::new();
    let mut functions: Vec<Function> = Vec::new();
    let mut i: usize = 0;
    assert(programs@.take(0) =~= Seq::<Program>::empty());
    while i < programs.len()
        invariant
            i <= programs@.len(),
            programs@.len() >= 2,
            merge_programs(programs@.take(i as int)) is Ok,
            same_structs(structs@, merge_programs(programs@.take(i as int))->Ok_0.structs),
            same_externs(extern_functions@, merge_programs(programs@.take(i as int))->Ok_0.extern_functions),
            same_functions(functions@, merge_programs(programs@.take(i as int))->Ok_0.functions),
        decreases programs@.len() - i,
    {
        let ghost next = programs@.take(i + 1);
        let ghost merged = merge_programs(programs@.take(i as int))->Ok_0;
        proof {
            assert(next.drop_last() =~= programs@.take(i as int));
            assert(next.last() == programs@[i as int]);
        }
        let program = &programs[i];
        match merge_struct_list(&mut structs, &program.structs) {
            Ok(()) => {},
            Err(e) => {
                proof {
                    assert(merge_structs(merged.structs, program.structs@) is Err);
                    lemma_merge_programs_error_persists(programs@, i + 1);
                }
                return Err(CompileError::Semantic(vec![e]));
            },
        }
        let ghost merged_structs = merge_structs(merged.structs, program.structs@)->Ok_0;
        match merge_function_list(&mut functions, &program.functions) {
            Ok(()) => {},
            Err(e) => {
                proof {
                    assert(merge_functions(merged.functions, program.functions@) is Err);
                    lemma_merge_programs_error_persists(programs@, i + 1);
                }
                return Err(CompileError::Semantic(vec![e]));
            },
        }
        merge_extern_list(&mut extern_functions, &program.extern_functions);
        proof {
            assert(merge_externs(merged.extern_functions, program.extern_functions@) == merge_programs(next)->Ok_0.extern_functions);
        }
        i = i + 1;
    }
    assert(programs@.take(programs@.len() as int) =~= programs@);
    let kept = drop_defined_externs(&extern_functions, &functions);
    let ghost merged = merge_programs(programs@)->Ok_0;
    proof {
        assert(same_externs(kept@, undefined_externs(merged.extern_functions, merged.functions)));
    }
    Ok(
        Program {
            structs,
            extern_functions: kept,
            functions,
            span: Span::new(programs[0].span.start, programs[programs.len() - 1].span.end),
        },
    )
}

// ---------------------------------------------------------------------------
// Compiling.

/// The source reads as this program, and as no other.
pub open spec fn parsed_from(source: &str, p: Program) -> bool {
    exists|tokens: Seq<SpannedToken>|
        #[trigger] token_stream(source.spec_bytes(), 0, tokens) && program_from(tokens, p) && forall|q: Program|
            program_from(tokens, q) ==> same_program(q, p)
}

/// The source does not parse: it has a lexical error, which the syntax
/// error keeps, or its tokens read as no program and the error is the one
/// where reading them stops.
pub open spec fn parse_refused(source: &str, e: ParseError) -> bool {
    &&& forall|le: LexError|
        #[trigger] stream_error(source.spec_bytes(), 0, le) ==> e.span == le.span && e.message@ == le.message@
    &&& (exists|le: LexError| #[trigger] stream_error(source.spec_bytes(), 0, le)) || exists|tokens: Seq<SpannedToken>|
        #[trigger] token_stream(source.spec_bytes(), 0, tokens) && reports(e, items_stop(tokens, 0)) && forall|
            p: Program,
        | !program_from(tokens, p)
}

/// The source reads as some program.
pub open spec fn source_parses(source: &str) -> bool {
    exists|p: Program| parsed_from(source, p)
}

/// Every source before the `k`-th reads as a program.
pub open spec fn parsed_before(sources: Seq<&str>, k: int) -> bool {
    forall|j: int| 0 <= j < k ==> #[trigger] source_parses(sources[j])
}

/// What compiling parsed programs together gives: their combination's
/// error; or the checker's diagnostics; or the assembly of the lowered
/// program, or the reason it has none.
pub open spec fn combined_outcome(parsed: Seq<Program>, target: Target, r: Result<String, CompileError>) -> bool {
    exists|combined: Result<Program, CompileError>|
        #[trigger] combination(parsed, combined) && match combined {
            Err(e) => r == Err::<String, CompileError>(e),
            Ok(program) => if crate::typing::program_errors(program).len() > 0 {
                r matches Err(CompileError::Semantic(errors)) && diagnostics(errors@) == crate::typing::program_errors(
                    program,
                )
            } else {
                exists|typed: crate::ir::TypedProgram|
                    #[trigger] lowering_of(program, Ok(typed)) && match crate::codegen::program_assembly(typed, target) {
                        Ok(text) => r matches Ok(assembly) && assembly@ == text,
                        Err(message) => r matches Err(CompileError::Codegen(e)) && e.message@ == message,
                    }
            },
        }
}

/// What compiling source buffers for a target gives. A target without a
/// backend is refused before anything else. A source that does not parse
/// is reported: the first one, with its lexical error if it has one, else
/// with the syntax error where reading its tokens stops. Otherwise the
/// sources read as programs whose combination is checked, lowered and
/// emitted.
pub open spec fn compile_outcome(sources: Seq<&str>, target: Target, r: Result<String, CompileError>) -> bool {
    if !target_implemented(target) {
        r == Err::<String, CompileError>(CompileError::UnsupportedTarget(target))
    } else {
        match r {
            Err(CompileError::UnsupportedTarget(_)) => false,
            Err(CompileError::Parse(e)) => exists|k: int|
                0 <= k < sources.len() && #[trigger] parse_refused(sources[k], e) && parsed_before(sources, k),
            _ => exists|parsed: Seq<Program>|
                {
                    &&& parsed.len() == sources.len()
                    &&& forall|k: int| 0 <= k < sources.len() ==> parsed_from(sources[k], #[trigger] parsed[k])
                    &&& #[trigger] combined_outcome(parsed, target, r)
                },
        }
    }
}

/// Compiles one source buffer for the default target.
pub fn compile_source(source: &str) -> (r: Result<String, CompileError>)
    ensures
        compile_outcome(seq![source], Target::X86_64SystemV, r),
{
    compile_source_for_target(source, Target::default())
}

/// Compiles one source buffer for a target.
pub fn compile_source_for_target(source: &str, target: Target) -> (r: Result<String, CompileError>)
    ensures
        compile_outcome(seq![source], target, r),
{
    let sources = [source];
    assert(sources@ =~= seq![source]);
    compile_sources_for_target(&sources, target)
}

/// Compiles several source buffers together for the default target.
pub fn compile_sources(sources: &[&str]) -> (r: Result<String, CompileError>)
    ensures
        compile_outcome(sources@, Target::X86_64SystemV, r),
{
    compile_sources_for_target(sources, Target::default())
}

/// Compiles several source buffers together for a target.
pub fn compile_sources_for_target(sources: &[&str], target: Target) -> (r: Result<String, CompileError>)
    ensures
        compile_outcome(sources@, target, r),
{
    if !target.is_implemented() {
        return Err(CompileError::UnsupportedTarget(target));
    }
    let mut parsed: Vec<Program> = Vec::new();
    let mut i: usize = 0;
    while i < sources.len()
        invariant
            i <= sources@.len(),
            parsed@.len() == i,
            target_implemented(target),
            forall|k: int| 0 <= k < i ==> parsed_from(sources@[k], #[trigger] parsed@[k]),
        decreases sources@.len() - i,
    {
        match parse(sources[i]) {
            Ok(program) => {
                proof {
                    assert(parsed_from(sources@[i as int], program));
                }
                parsed.push(program);
            },
            Err(error) => {
                let r = Err(CompileError::Parse(error));
                proof {
                    assert(parse_refused(sources@[i as int], error));
                    assert(r->Err_0->Parse_0 == error);
                    assert forall|j: int| 0 <= j < i implies #[trigger] source_parses(sources@[j]) by {
                        assert(parsed_from(sources@[j], parsed@[j]));
                    }
                    assert(parsed_before(sources@, i as int));
                    assert(match r {
                        Err(CompileError::Parse(e)) => exists|k: int|
                            0 <= k < sources@.len() && #[trigger] parse_refused(sources@[k], e) && parsed_before(sources@, k),
                        _ => false,
                    });

                }
                return r;
            },
        }
        i = i + 1;
    }
    let ghost programs = parsed@;
    let combined = match combine_programs(parsed.as_slice()) {
        Ok(program) => program,
        Err(error) => {
            proof {
                assert(combination(programs, Err::<Program, CompileError>(error)));
                assert(combined_outcome(programs, target, Err::<String, CompileError>(error)));
            }
            return Err(error);
        },
    };
    proof {
        assert(combination(programs, Ok::<Program, CompileError>(combined)));
    }
    match check(&combined) {
        Ok(()) => {},
        Err(errors) => {
            let r = Err(CompileError::Semantic(errors));
            proof {
                assert(combined_outcome(programs, target, r));
            }
            return r;
        },
    }
    let emitted = emit_for_target(&combined, target);
    proof {
        let lowered = choose|lowered: Result<crate::ir::TypedProgram, Seq<SemanticError>>|
            lowering_of(combined, lowered) && #[trigger] emission_outcome(lowered, target, emitted);
        if lowered is Err {
            assert(diagnostics(lowered->Err_0).len() == lowered->Err_0.len());
        }
        let typed = lowered->Ok_0;
        assert(lowering_of(combined, Ok(typed)));
    }
    let r = match emitted {
        Ok(assembly) => Ok(assembly),
        Err(error) => Err(CompileError::Codegen(error)),
    };
    proof {
        let lowered = choose|lowered: Result<crate::ir::TypedProgram, Seq<SemanticError>>|
            lowering_of(combined, lowered) && #[trigger] emission_outcome(lowered, target, emitted);
        let typed = lowered->Ok_0;
        assert(lowering_of(combined, Ok(typed)));
        assert(combined_outcome(programs, target, r));
    }
    r
}

} // verus!
