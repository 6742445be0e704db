//! What is reported of a step, of a line and of an error says what there was, and nothing else.
use vstd::prelude::*;

#[allow(unused_imports)]
use crate::aot::{aot_error_text, bodies, AOTCompileError};
#[allow(unused_imports)]
use crate::jit::compile::{jit_error_text, JITError};
#[allow(unused_imports)]
use crate::jit::compiler::{compiler_error_text, CompilerError};
#[allow(unused_imports)]
use crate::lexer::{read_as, reads_as, texts_of};
#[allow(unused_imports)]
use crate::machine::{carried_out, ExecRes};
#[allow(unused_imports)]
use crate::semantics::{ended_by, faulted, overfills, Effect, Outcome, Step};
#[allow(unused_imports)]
use crate::state::{definitions, found_right, says, Found, Halt, Item, Progress};
#[allow(unused_imports)]
use crate::types::{error_text, Code, ExecError, Instr, Token, Value};

verus! {

/// What carrying out an instruction gives back, and the stack that it leaves, say which step it was.
pub proof fn law_results_say_the_step(
    r: Result<ExecRes, ExecError>,
    after: Seq<Value>,
    s: Seq<Value>,
    n: nat,
    effect: Effect,
    name: Seq<char>,
    e: ExecError,
    trapped: bool,
    defined: Set<Seq<char>>,
)
    ensures
        carried_out(r, after, Step::Next(s), defined) <==> after == s && r == Ok::<
            ExecRes,
            ExecError,
        >(ExecRes::Executed),
        carried_out(r, after, Step::Skip(s, n), defined) <==> after == s && (r matches Ok(
            ExecRes::Skip(k),
        ) && k == n),
        carried_out(r, after, Step::Perform(s, effect), defined) <==> after == s && r == Ok::<
            ExecRes,
            ExecError,
        >(ExecRes::Perform(effect)),
        defined.contains(name) ==> (carried_out(r, after, Step::Call(s, name), defined) <==> after
            == s && (r matches Ok(ExecRes::Call(callee)) && callee@ == name)),
        !defined.contains(name) ==> (carried_out(r, after, Step::Call(s, name), defined) <==> after
            == s && (r matches Err(ExecError::UnknownFunction(callee)) && callee@ == name)),
        carried_out(r, after, Step::Fail(s, e), defined) <==> after == s && r == Err::<
            ExecRes,
            ExecError,
        >(e),
        !carried_out(r, after, (Step::Fault { trapped }), defined),
{
}

/// What is said of a line says why it does not go on.
pub proof fn law_lines_say_why(
    progress: Progress,
    e: ExecError,
    name: Seq<char>,
    effect: Effect,
    trapped: bool,
)
    ensures
        says(progress, Halt::Finished) <==> progress == Progress::Finished,
        says(progress, Halt::Error(e)) <==> progress == Progress::Failed(e),
        says(progress, Halt::Unknown(name)) <==> (progress matches Progress::Failed(
            ExecError::UnknownFunction(callee),
        ) && callee@ == name),
        says(progress, Halt::Recompile) <==> progress == Progress::Recompile,
        says(progress, Halt::Perform(effect)) <==> progress == Progress::Perform(effect),
        says(progress, Halt::Call(name)) <==> (progress matches Progress::Call(callee) && callee@
            == name),
        says(progress, (Halt::Fault { trapped })) <==> progress == Progress::Fault,
        says(progress, Halt::StackFull) <==> progress == Progress::StackFull,
{
}

/// What is found at a place of a line is what is there.
pub proof fn law_found_is_there(found: Found, name: Seq<char>, code: Seq<Instr>, next: int)
    ensures
        found_right(found, Item::End) <==> found == Found::End,
        found_right(found, Item::Bad) <==> found == Found::Bad,
        found_right(found, Item::Token) <==> found == Found::Token,
        found_right(found, (Item::Definition { name, code, next })) <==> (found matches
            Found::Definition { name: n, code: c, next: x } && n@ == name && c@ == code && x == next),
{
}

/// Each definition counts, in its order, with its name and its whole body.
pub proof fn law_definitions_are_kept(defs: Seq<(String, Code)>)
    ensures
        definitions(defs).len() == defs.len(),
        forall|i: int|
            0 <= i < defs.len() ==> #[trigger] definitions(defs)[i] == (defs[i].0@, defs[i].1@),
{
}

/// Each function of a program counts, with its whole body, and no other.
pub proof fn law_bodies_are_kept(funcs: Map<Seq<char>, Code>, name: Seq<char>)
    ensures
        bodies(funcs).contains_key(name) <==> funcs.contains_key(name),
        funcs.contains_key(name) ==> bodies(funcs)[name] == funcs[name]@,
{
}

/// Each word is read, in its order, and nothing else.
pub proof fn law_every_word_is_read(
    texts: Seq<Seq<char>>,
    tokens: Seq<Token>,
    strings: Seq<String>,
)
    ensures
        read_as(texts, tokens) <==> tokens.len() == texts.len() && forall|i: int|
            0 <= i < texts.len() ==> reads_as(texts[i], #[trigger] tokens[i]),
        texts_of(strings).len() == strings.len(),
        forall|i: int| 0 <= i < strings.len() ==> #[trigger] texts_of(strings)[i] == strings[i]@,
{
}

/// A step needs room just where it leaves more values than there is room for.
pub proof fn law_what_needs_room(step: Step, s: Seq<Value>, room: nat)
    ensures
        overfills(Step::Next(s), room) <==> s.len() > room,
        !(step is Next) ==> !overfills(step, room),
{
}

/// What ends a run with an error: `quit` stops it; operands that are not there, or do not suit, lead
/// it astray; anything else fails.
pub proof fn law_errors_end_runs(e: ExecError, log: Seq<Effect>)
    ensures
        ended_by(e, log) == Outcome::Stopped(log) <==> e == ExecError::Quit,
        ended_by(e, log) == Outcome::Astray(log) <==> e == ExecError::MissingArguments || e
            == ExecError::InvalidPick || e == ExecError::InvalidDropRange,
        ended_by(e, log) == Outcome::Failed(log) <==> e == ExecError::InvalidSkip || e
            == ExecError::BadFunctionDefinition || e == ExecError::InvalidExponent || (e
            is UnknownFunction),
        faulted(true, log) == Outcome::Failed(log),
        faulted(false, log) == Outcome::Astray(log),
{
}

/// No two errors are described by the same text, and what describes an unknown function ends with
/// its name.
pub proof fn law_errors_are_told_apart(e: ExecError, other: ExecError)
    ensures
        error_text(e) == error_text(other) ==> (e is UnknownFunction && other is UnknownFunction
            && e->UnknownFunction_0@ == other->UnknownFunction_0@) || e == other,
        e matches ExecError::UnknownFunction(name) ==> error_text(e).len() > name@.len()
            && error_text(e).skip(error_text(e).len() - name@.len()) == name@,
{
    reveal_strlit("Unknown function ");
    reveal_strlit("Missing arguments. Not enough elements on stack");
    reveal_strlit("Invalid Skip");
    reveal_strlit("Invalid Pick");
    reveal_strlit("Invalid DropRange");
    reveal_strlit("Bad function definition");
    reveal_strlit("Invalid exponent, must have non-negative exponent");
    reveal_strlit("Quit");
    assert("Invalid Skip"@[8] == 'S');
    assert("Invalid Pick"@[8] == 'P');
    assert("Missing arguments. Not enough elements on stack"@[0] == 'M');
    assert("Bad function definition"@[0] == 'B');
    assert("Quit"@[0] == 'Q');
    assert("Invalid Skip"@.len() == 12);
    assert("Invalid Pick"@.len() == 12);
    assert("Invalid DropRange"@.len() == 17);
    assert("Invalid exponent, must have non-negative exponent"@.len() == 49);
    assert("Invalid Skip"@[0] == 'I');
    assert("Invalid Pick"@[0] == 'I');
    assert("Invalid DropRange"@[0] == 'I');
    assert("Invalid exponent, must have non-negative exponent"@[0] == 'I');
    if let ExecError::UnknownFunction(name) = e {
        let text = error_text(e);
        assert(text[0] == 'U');
        assert(text.skip(text.len() - name@.len()) =~= name@);
        if let ExecError::UnknownFunction(other_name) = other {
            if error_text(e) == error_text(other) {
                let text2 = error_text(other);
                assert(text2.skip(text2.len() - other_name@.len()) =~= other_name@);
                assert(text.len() == text2.len());
                assert(name@.len() == other_name@.len());
                assert(name@ == other_name@);
            }
        }
    }
    if let ExecError::UnknownFunction(name) = other {
        assert(error_text(other)[0] == 'U');
        if error_text(e) == error_text(other) {
            assert(error_text(e)[0] == 'U');
            assert(e is UnknownFunction);
        }
    }
}

/// What describes an error that another one caused ends with what describes the other one.
pub proof fn law_causes_are_told(e: CompilerError, why: JITError, text: String)
    ensures
        ({
            let whole = aot_error_text(AOTCompileError::CompileError(e));
            let cause = compiler_error_text(e);
            whole.len() > cause.len() && whole.skip(whole.len() - cause.len()) == cause
        }),
        ({
            let whole = compiler_error_text(CompilerError::JITError(why));
            let cause = jit_error_text(why);
            whole.len() > cause.len() && whole.skip(whole.len() - cause.len()) == cause
        }),
        ({
            let whole = compiler_error_text(CompilerError::ModuleError(text));
            whole.len() > text@.len() && whole.skip(whole.len() - text@.len()) == text@
        }),
        ({
            let whole = aot_error_text(AOTCompileError::CraneliftModuleError(text));
            whole.len() > text@.len() && whole.skip(whole.len() - text@.len()) == text@
        }),
{
    reveal_strlit("Compile error: ");
    reveal_strlit("JIT Compilation Error: ");
    reveal_strlit("Module (cranelift) Error: ");
    reveal_strlit("Cranelift module error: ");
    let a = aot_error_text(AOTCompileError::CompileError(e));
    assert(a.skip(a.len() - compiler_error_text(e).len()) =~= compiler_error_text(e));
    let b = compiler_error_text(CompilerError::JITError(why));
    assert(b.skip(b.len() - jit_error_text(why).len()) =~= jit_error_text(why));
    let c = compiler_error_text(CompilerError::ModuleError(text));
    assert(c.skip(c.len() - text@.len()) =~= text@);
    let d = aot_error_text(AOTCompileError::CraneliftModuleError(text));
    assert(d.skip(d.len() - text@.len()) =~= text@);
}

} // verus!
