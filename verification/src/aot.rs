//! Compiling a program ahead of time.
use vstd::prelude::*;

#[allow(unused_imports)]
use crate::jit::analysis::{signatures, solved};
#[allow(unused_imports)]
use crate::jit::compiler::{compiled_right, compiler_error_text};
use crate::jit::compiler::{CompiledFunction, Compiler, CompilerError};
#[allow(unused_imports)]
use crate::jit::delta::Delta;
#[allow(unused_imports)]
use crate::jit::reach::Reach;
use crate::lexer::tokenize;
#[allow(unused_imports)]
use crate::lexer::{read_as, white_marks, words};
use crate::names::NameMap;
use crate::state::{find, Found};
#[allow(unused_imports)]
use crate::state::{item_at, lemma_definition_ends, run_line, Halt, Item, Place};
#[allow(unused_imports)]
use crate::types::Instr;
use crate::types::{Code, Token};

verus! {

/// Why a program could not be compiled ahead of time.
#[derive(Debug)]
pub enum AOTCompileError {
    BadFunctionDefinition,
    TopLevelDisallowed,
    /// The module that the program was to go into could not be made.
    CraneliftModuleError(String),
    CompileError(CompilerError),
}

/// The text that describes `e`.
pub open spec fn aot_error_text(e: AOTCompileError) -> Seq<char> {
    match e {
        AOTCompileError::BadFunctionDefinition => "Bad Function Definition"@,
        AOTCompileError::TopLevelDisallowed => {
            "Top level is not allowed in Ahead of time compilation."@
        },
        AOTCompileError::CraneliftModuleError(why) => "Cranelift module error: "@ + why@,
        AOTCompileError::CompileError(why) => "Compile error: "@ + compiler_error_text(why),
    }
}

impl AOTCompileError {
    /// The text that describes the error to a user.
    pub fn message(&self) -> (r: String)
        ensures
            r@ == aot_error_text(*self),
    {
        match self {
            AOTCompileError::BadFunctionDefinition => "Bad Function Definition".to_string(),
            AOTCompileError::TopLevelDisallowed => {
                "Top level is not allowed in Ahead of time compilation.".to_string()
            },
            AOTCompileError::CraneliftModuleError(why) => "Cranelift module error: ".to_string().concat(
                why.as_str(),
            ),
            AOTCompileError::CompileError(why) => "Compile error: ".to_string().concat(
                why.message().as_str(),
            ),
        }
    }
}

/// The bodies of functions.
pub open spec fn bodies(funcs: Map<Seq<char>, Code>) -> Map<Seq<char>, Seq<Instr>> {
    funcs.map_values(|code: Code| code@)
}

/// The functions that a line defines from token number `p` on, besides those that it has defined
/// before. A line that holds anything but definitions defines none.
pub open spec fn extracted(line: Seq<Token>, p: int, before: Map<Seq<char>, Seq<Instr>>) -> Result<
    Map<Seq<char>, Seq<Instr>>,
    AOTCompileError,
>
    decreases line.len() - p,
{
    match item_at(line, p) {
        Item::End => Ok(before),
        Item::Bad => Err(AOTCompileError::BadFunctionDefinition),
        Item::Definition { name, code, next } => if p < next <= line.len() {
            extracted(line, next, before.insert(name, code))
        } else {
            Ok(before)
        },
        Item::Token => Err(AOTCompileError::TopLevelDisallowed),
    }
}

/// The functions that a line of definitions defines.
pub fn extract_functions(line: &[Token]) -> (r: Result<NameMap<Code>, AOTCompileError>)
    ensures
        match extracted(line@, 0, Map::empty()) {
            Ok(found) => r matches Ok(funcs) && funcs.wf() && bodies(funcs@) == found,
            Err(e) => r matches Err(err) && err == e,
        },
{
    let ghost all = extracted(line@, 0, Map::empty());
    let mut res: NameMap<Code> = NameMap::new();
    let mut at: usize = 0;
    assert(bodies(res@) =~= Map::empty());
    loop
        invariant
            res.wf(),
            at <= line@.len(),
            all == extracted(line@, 0, Map::empty()),
            all == extracted(line@, at as int, bodies(res@)),
        decreases line@.len() - at,
    {
        match find(line, at) {
            Found::End => {
                return Ok(res);
            },
            Found::Bad => {
                return Err(AOTCompileError::BadFunctionDefinition);
            },
            Found::Definition { name, code, next } => {
                let ghost before = res@;
                res.insert(name, code);
                at = next;
                assert(bodies(res@) =~= bodies(before).insert(name@, code@));
            },
            Found::Token => {
                return Err(AOTCompileError::TopLevelDisallowed);
            },
        }
    }
}

/// Whether a program with these functions is compiled as it should be.
pub open spec fn compiled_ahead(
    r: Result<NameMap<CompiledFunction>, AOTCompileError>,
    found: Map<Seq<char>, Seq<Instr>>,
    funcs: NameMap<Code>,
    deltas: Map<Seq<char>, Delta>,
    reaches: Map<Seq<char>, Reach>,
) -> bool {
    &&& funcs.wf()
    &&& bodies(funcs@) == found
    &&& solved(funcs.names(), funcs@, deltas, reaches)
    &&& match r {
        Ok(functions) => compiled_right(
            Ok(functions),
            funcs.names(),
            funcs@,
            signatures(deltas, reaches),
        ),
        Err(AOTCompileError::CompileError(e)) => compiled_right(
            Err(e),
            funcs.names(),
            funcs@,
            signatures(deltas, reaches),
        ),
        Err(_) => false,
    }
}

/// Compiles the functions that tokens define.
pub fn compile_tokens(line: &[Token]) -> (r: Result<NameMap<CompiledFunction>, AOTCompileError>)
    ensures
        match extracted(line@, 0, Map::empty()) {
            Ok(found) => exists|
                funcs: NameMap<Code>,
                deltas: Map<Seq<char>, Delta>,
                reaches: Map<Seq<char>, Reach>,
            | #[trigger] compiled_ahead(r, found, funcs, deltas, reaches),
            Err(e) => r matches Err(err) && err == e,
        },
{
    let functions = match extract_functions(line) {
        Ok(functions) => functions,
        Err(e) => {
            return Err(e);
        },
    };
    let compiler = Compiler::new();
    let compiled = compiler.compile(&functions);
    let ghost (deltas, reaches) = choose|
        deltas: Map<Seq<char>, Delta>,
        reaches: Map<Seq<char>, Reach>,
    | #[trigger]
        solved(functions.names(), functions@, deltas, reaches) && compiled_right(
            compiled,
            functions.names(),
            functions@,
            signatures(deltas, reaches),
        );
    let r = match compiled {
        Ok(program) => Ok(program),
        Err(e) => Err(AOTCompileError::CompileError(e)),
    };
    assert(compiled_ahead(
        r,
        extracted(line@, 0, Map::empty())->Ok_0,
        functions,
        deltas,
        reaches,
    ));
    r
}

/// Compiles the functions that a text defines.
pub fn compile_str(line: &str) -> (r: Result<NameMap<CompiledFunction>, AOTCompileError>)
    ensures
        exists|tokens: Seq<Token>| #[trigger]
            read_as(words(line@, white_marks(line@)), tokens) && match extracted(
                tokens,
                0,
                Map::empty(),
            ) {
                Ok(found) => exists|
                    funcs: NameMap<Code>,
                    deltas: Map<Seq<char>, Delta>,
                    reaches: Map<Seq<char>, Reach>,
                | #[trigger] compiled_ahead(r, found, funcs, deltas, reaches),
                Err(e) => r matches Err(err) && err == e,
            },
{
    let parsed = tokenize(line);
    compile_tokens(parsed.as_slice())
}

/// The definitions that a line holds from token number `p` on, up to the first thing that is none.
pub open spec fn definitions_from(line: Seq<Token>, p: int) -> Seq<(Seq<char>, Seq<Instr>)>
    decreases line.len() - p,
{
    match item_at(line, p) {
        Item::Definition { name, code, next } => if p < next <= line.len() {
            seq![(name, code)] + definitions_from(line, next)
        } else {
            Seq::empty()
        },
        _ => Seq::empty(),
    }
}

/// Functions, with definitions that come later taking the place of those that came before.
pub open spec fn with_definitions(
    before: Map<Seq<char>, Seq<Instr>>,
    defs: Seq<(Seq<char>, Seq<Instr>)>,
) -> Map<Seq<char>, Seq<Instr>>
    decreases defs.len(),
{
    if defs.len() == 0 {
        before
    } else {
        with_definitions(before.insert(defs[0].0, defs[0].1), defs.skip(1))
    }
}

/// A program that can be compiled ahead of time defines, when it is run as a line instead, the same
/// functions, and does nothing else.
pub proof fn law_programs_define_the_same(
    line: Seq<Token>,
    defined: Set<Seq<char>>,
    room: nat,
    c: Place,
    before: Map<Seq<char>, Seq<Instr>>,
)
    requires
        0 <= c.at <= line.len(),
        extracted(line, c.at, before) is Ok,
    ensures
        extracted(line, c.at, before) == Ok::<Map<Seq<char>, Seq<Instr>>, AOTCompileError>(
            with_definitions(before, definitions_from(line, c.at)),
        ),
        run_line(line, defined, room, c) == (
            Place {
                at: line.len() as int,
                undefined: c.undefined + definitions_from(line, c.at),
                stack: c.stack,
            },
            Halt::Finished,
        ),
    decreases line.len() - c.at,
{
    match item_at(line, c.at) {
        Item::Definition { name, code, next } => {
            lemma_definition_ends(line, c.at);
            let c2 = Place { at: next, undefined: c.undefined.push((name, code)), stack: c.stack };
            law_programs_define_the_same(line, defined, room, c2, before.insert(name, code));
            let rest = definitions_from(line, next);
            let all = definitions_from(line, c.at);
            assert(all == seq![(name, code)] + rest);
            assert(all.skip(1) =~= rest);
            assert(c2.undefined + rest =~= c.undefined + all);
        },
        _ => {
            assert(c.undefined + definitions_from(line, c.at) =~= c.undefined);
        },
    }
}

} // verus!
