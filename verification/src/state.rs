//! The state of a machine, and the lines of code that change it.
use vstd::prelude::*;

#[allow(unused_imports)]
use crate::jit::analysis::{signatures, solved};
#[allow(unused_imports)]
use crate::jit::cfg_laws::unknown_calls_fail;
#[allow(unused_imports)]
use crate::jit::compiler::{compiled_right, law_compiled_call_is_call, plans_of};
use crate::jit::compiler::{CompiledFunction, Compiler, CompilerError};
#[allow(unused_imports)]
use crate::jit::correct::compiled_program;
#[allow(unused_imports)]
use crate::jit::delta::Delta;
#[allow(unused_imports)]
use crate::jit::plan::run_plan;
#[allow(unused_imports)]
use crate::jit::reach::Reach;
#[allow(unused_imports)]
use crate::jit::sound::{call_function, program};
use crate::lexer::tokenize;
#[allow(unused_imports)]
use crate::lexer::{read_as, white_marks, words};
use crate::machine::{execute, faults, needs_room, ExecRes};
use crate::names::NameMap;
use crate::semantics::Effect;
#[allow(unused_imports)]
use crate::semantics::{
    ended_by, faulted, overfills, perform, run_raw, step, Outcome, Step, Surroundings, World,
};
use crate::stack::Stack;
#[allow(unused_imports)]
use crate::types::{token_instr, Value};
use crate::types::{Code, ExecError, Instr, Token};

verus! {

/// Why a machine could not be set up.
#[derive(Debug)]
pub enum InitError {
    /// The module that compiled functions go into could not be made.
    ModuleError(String),
    /// There is no memory for the stack.
    IoError(std::io::Error),
}

/// The primary struct representing the state of the Clac++ machine.
pub struct ClacState {
    /// The functions that have been defined since the last time that all functions were compiled.
    pub undefined_functions: Vec<(String, Code)>,
    pub stack: Stack,
    /// Map of defined functions.
    pub funcmap: NameMap<Code>,
}

/// Definitions as mathematical values.
pub open spec fn definitions(defs: Seq<(String, Code)>) -> Seq<(Seq<char>, Seq<Instr>)> {
    defs.map_values(|def: (String, Code)| (def.0@, def.1@))
}

/// Where the definition ends whose body starts at `p`: before the next token that is part of the
/// syntax of definitions, or at the end of the line.
pub open spec fn body_end(line: Seq<Token>, p: int) -> int
    decreases line.len() - p,
{
    if p < 0 || p >= line.len() || line[p].is_definition_syntax() {
        p
    } else {
        body_end(line, p + 1)
    }
}

/// The instructions that the tokens from `p` to `q` stand for.
pub open spec fn code_between(line: Seq<Token>, p: int, q: int) -> Seq<Instr> {
    line.subrange(p, q).map_values(|token: Token| token_instr(token))
}

/// What is at a place in a line.
pub enum Item {
    /// The end of the line.
    End,
    /// A definition that is not one.
    Bad,
    /// A definition, and where the line goes on after it.
    Definition { name: Seq<char>, code: Seq<Instr>, next: int },
    /// A token that is to be carried out.
    Token,
}

/// What is at a place in a line.
pub open spec fn item_at(line: Seq<Token>, p: int) -> Item {
    if p >= line.len() {
        Item::End
    } else {
        match line[p] {
            Token::Colon => if p + 1 < line.len() && line[p + 1] is Identifier {
                let q = body_end(line, p + 2);
                if q < line.len() && line[q] is Semicolon {
                    Item::Definition {
                        name: line[p + 1]->Identifier_0@,
                        code: code_between(line, p + 2, q),
                        next: q + 1,
                    }
                } else {
                    Item::Bad
                }
            } else {
                Item::Bad
            },
            Token::Semicolon => Item::Bad,
            _ => Item::Token,
        }
    }
}

/// Where a line has got to.
pub struct Place {
    /// The number of the next token.
    pub at: int,
    /// The functions that have been defined and not been compiled.
    pub undefined: Seq<(Seq<char>, Seq<Instr>)>,
    pub stack: Seq<Value>,
}

/// Why a line does not go on by itself.
pub enum Halt {
    Finished,
    Error(ExecError),
    Unknown(Seq<char>),
    Recompile,
    Perform(Effect),
    Call(Seq<char>),
    Fault { trapped: bool },
    StackFull,
}

/// How far a line goes by itself, and why it stops there. `defined` are the functions that can be
/// called and `room` is the number of values that the stack has room for.
pub open spec fn run_line(line: Seq<Token>, defined: Set<Seq<char>>, room: nat, c: Place) -> (
    Place,
    Halt,
)
    decreases line.len() - c.at,
{
    if c.at < 0 {
        (c, Halt::Finished)
    } else {
        match item_at(line, c.at) {
            Item::End => (c, Halt::Finished),
            Item::Bad => (c, Halt::Error(ExecError::BadFunctionDefinition)),
            Item::Definition { name, code, next } => if c.at < next <= line.len() {
                run_line(
                    line,
                    defined,
                    room,
                    Place { at: next, undefined: c.undefined.push((name, code)), stack: c.stack },
                )
            } else {
                (c, Halt::Finished)
            },
            Item::Token => if line[c.at] is Identifier && c.undefined.len() > 0 {
                (c, Halt::Recompile)
            } else if overfills(step(token_instr(line[c.at]), c.stack), room) {
                (c, Halt::StackFull)
            } else {
                match step(token_instr(line[c.at]), c.stack) {
                    Step::Next(s) => run_line(
                        line,
                        defined,
                        room,
                        Place { at: c.at + 1, stack: s, ..c },
                    ),
                    Step::Skip(s, n) => if c.at + 1 + n <= line.len() {
                        run_line(
                            line,
                            defined,
                            room,
                            Place { at: c.at + 1 + n, stack: s, ..c },
                        )
                    } else {
                        (Place { stack: s, ..c }, Halt::Error(ExecError::InvalidSkip))
                    },
                    Step::Perform(s, effect) => (
                        Place { at: c.at + 1, stack: s, ..c },
                        Halt::Perform(effect),
                    ),
                    Step::Call(s, name) => if defined.contains(name) {
                        (Place { at: c.at + 1, stack: s, ..c }, Halt::Call(name))
                    } else {
                        (Place { stack: s, ..c }, Halt::Unknown(name))
                    },
                    Step::Fail(s, e) => (Place { stack: s, ..c }, Halt::Error(e)),
                    Step::Fault { trapped } => (c, Halt::Fault { trapped }),
                }
            },
        }
    }
}

/// Why a line does not go on by itself.
#[derive(Debug)]
pub enum Progress {
    /// The line is done.
    Finished,
    Failed(ExecError),
    /// The functions that have been defined have to be compiled, and then the line goes on.
    Recompile,
    /// The world is asked for an effect. Its reply, if it has one, is to be pushed, and then the
    /// line goes on.
    Perform(Effect),
    /// A function is to be called, and then the line goes on.
    Call(String),
    /// The next instruction means nothing.
    Fault,
    /// The next instruction leaves more values than there is room for.
    StackFull,
}

/// Whether it is said why a line does not go on.
pub open spec fn says(progress: Progress, halt: Halt) -> bool {
    match halt {
        Halt::Finished => progress is Finished,
        Halt::Error(e) => progress == Progress::Failed(e),
        Halt::Unknown(name) => progress matches Progress::Failed(ExecError::UnknownFunction(callee))
            && callee@ == name,
        Halt::Recompile => progress is Recompile,
        Halt::Perform(effect) => progress == Progress::Perform(effect),
        Halt::Call(name) => progress matches Progress::Call(callee) && callee@ == name,
        Halt::Fault { .. } => progress is Fault,
        Halt::StackFull => progress is StackFull,
    }
}

/// The body of a definition ends no earlier than it starts.
proof fn lemma_body_end(line: Seq<Token>, p: int)
    requires
        0 <= p <= line.len(),
    ensures
        p <= body_end(line, p) <= line.len(),
        forall|i: int| p <= i < body_end(line, p) ==> !(#[trigger] line[i]).is_definition_syntax(),
        body_end(line, p) < line.len() ==> line[body_end(line, p)].is_definition_syntax(),
    decreases line.len() - p,
{
    if p < line.len() && !line[p].is_definition_syntax() {
        lemma_body_end(line, p + 1);
    }
}

/// A definition ends behind where it starts.
pub proof fn lemma_definition_ends(line: Seq<Token>, p: int)
    requires
        0 <= p <= line.len(),
    ensures
        item_at(line, p) matches Item::Definition { next, .. } ==> p < next <= line.len(),
{
    if p + 2 <= line.len() {
        lemma_body_end(line, p + 2);
    }
}

/// What is at a place in a line: a definition that is whole, if there is one.
pub enum Found {
    End,
    Bad,
    Definition { name: String, code: Code, next: usize },
    Token,
}

/// Whether what has been found is what is there.
pub open spec fn found_right(found: Found, item: Item) -> bool {
    match item {
        Item::End => found is End,
        Item::Bad => found is Bad,
        Item::Definition { name, code, next } => {
            &&& found is Definition
            &&& found->name@ == name
            &&& found->code@ == code
            &&& found->next == next
        },
        Item::Token => found is Token,
    }
}

/// Reads the body of a definition up to where it ends.
fn read_body(line: &[Token], from: usize) -> (r: (Code, usize))
    requires
        from <= line@.len(),
    ensures
        r.1 == body_end(line@, from as int),
        r.0@ == code_between(line@, from as int, r.1 as int),
        r.1 <= line@.len(),
{
    let mut code: Code = Vec::new();
    let mut q: usize = from;
    assert(code@ =~= code_between(line@, from as int, q as int));
    proof {
        lemma_body_end(line@, from as int);
    }
    while q < line.len()
        invariant
            from <= q <= line@.len(),
            body_end(line@, q as int) == body_end(line@, from as int),
            code@ == code_between(line@, from as int, q as int),
        decreases line@.len() - q,
    {
        match &line[q] {
            Token::Colon | Token::Semicolon => {
                return (code, q);
            },
            token => {
                code.push(token.clone().to_instruction());
                q = q + 1;
                assert(code@ =~= code_between(line@, from as int, q as int));
            },
        }
    }
    (code, q)
}

/// What is at a place in a line.
pub fn find(line: &[Token], p: usize) -> (r: Found)
    requires
        p <= line@.len(),
    ensures
        found_right(r, item_at(line@, p as int)),
        r matches Found::Definition { next, .. } ==> p < next <= line@.len(),
        r is Token ==> p < line@.len() && !line@[p as int].is_definition_syntax(),
{
    if p == line.len() {
        return Found::End;
    }
    match &line[p] {
        Token::Colon => {
            if line.len() - p < 2 {
                return Found::Bad;
            }
            match &line[p + 1] {
                Token::Identifier(name) => {
                    let (code, q) = read_body(line, p + 2);
                    proof {
                        lemma_body_end(line@, p + 2);
                    }
                    if q == line.len() {
                        return Found::Bad;
                    }
                    match &line[q] {
                        Token::Semicolon => Found::Definition {
                            name: name.clone(),
                            code,
                            next: q + 1,
                        },
                        _ => Found::Bad,
                    }
                },
                _ => Found::Bad,
            }
        },
        Token::Semicolon => Found::Bad,
        _ => Found::Token,
    }
}

impl ClacState {
    /// The stack and the map of functions are in order.
    pub open spec fn wf(self) -> bool {
        self.stack.wf() && self.funcmap.wf()
    }

    /// Where the machine stands before token number `at` of a line.
    pub open spec fn place(self, at: int) -> Place {
        Place { at, undefined: definitions(self.undefined_functions@), stack: self.stack@ }
    }

    /// A machine whose stack is empty and has `capacity` bytes, and in which nothing is defined.
    pub fn new(capacity: usize) -> (r: Result<ClacState, InitError>)
        ensures
            r matches Ok(state) ==> state.wf() && state.stack@ == Seq::<Value>::empty()
                && state.stack.room() == capacity as nat / 8 && state.undefined_functions@.len()
                == 0 && state.funcmap@ == Map::<Seq<char>, Code>::empty(),
            r matches Err(e) ==> e is IoError,
            capacity > isize::MAX ==> r is Err,
    {
        match Stack::new(capacity) {
            Ok(stack) => Ok(
                ClacState { undefined_functions: Vec::new(), stack, funcmap: NameMap::new() },
            ),
            Err(e) => Err(InitError::IoError(e)),
        }
    }

    /// Execute a slice of [`Token`]s representing a line of Clac++ code, from a given one on, as
    /// far as it goes by itself. The result is the number of the token to go on with, and why it
    /// stops.
    pub fn execute_tokens(&mut self, line: &[Token], from: usize) -> (r: (usize, Progress))
        requires
            old(self).wf(),
            from <= line@.len(),
        ensures
            final(self).wf(),
            final(self).stack.room() == old(self).stack.room(),
            final(self).funcmap == old(self).funcmap,
            r.0 <= line@.len(),
            ({
                let (c, halt) = run_line(
                    line@,
                    old(self).funcmap@.dom(),
                    old(self).stack.room(),
                    old(self).place(from as int),
                );
                final(self).place(r.0 as int) == c && says(r.1, halt)
            }),
    {
        let ghost defined = self.funcmap@.dom();
        let ghost room = self.stack.room();
        let ghost whole = run_line(line@, defined, room, self.place(from as int));
        let mut at: usize = from;
        loop
            invariant
                self.wf(),
                self.stack.room() == room,
                self.funcmap == old(self).funcmap,
                defined == self.funcmap@.dom(),
                room == old(self).stack.room(),
                at <= line@.len(),
                whole == run_line(line@, defined, room, old(self).place(from as int)),
                whole == run_line(line@, defined, room, self.place(at as int)),
            decreases line@.len() - at,
        {
            let ghost c = self.place(at as int);
            match find(line, at) {
                Found::End => {
                    return (at, Progress::Finished);
                },
                Found::Bad => {
                    return (at, Progress::Failed(ExecError::BadFunctionDefinition));
                },
                Found::Definition { name, code, next } => {
                    let ghost before = self.undefined_functions@;
                    self.undefined_functions.push((name, code));
                    at = next;
                    assert(definitions(self.undefined_functions@) =~= definitions(before).push(
                        (name@, code@),
                    ));
                },
                Found::Token => {
                    let token = &line[at];
                    assert(c.undefined.len() == self.undefined_functions@.len());
                    if let Token::Identifier(_) = token {
                        if self.undefined_functions.len() > 0 {
                            return (at, Progress::Recompile);
                        }
                    }
                    let instr = token.clone().to_instruction();
                    if needs_room(&self.stack, &instr) {
                        return (at, Progress::StackFull);
                    }
                    if faults(&self.stack, &instr) {
                        return (at, Progress::Fault);
                    }
                    match execute(&mut self.stack, &self.funcmap, &instr) {
                        Ok(ExecRes::Executed) => {
                            at = at + 1;
                        },
                        Ok(ExecRes::Skip(n)) => {
                            if n > line.len() - at - 1 {
                                return (at, Progress::Failed(ExecError::InvalidSkip));
                            }
                            at = at + 1 + n;
                        },
                        Ok(ExecRes::Perform(effect)) => {
                            return (at + 1, Progress::Perform(effect));
                        },
                        Ok(ExecRes::Call(name)) => {
                            return (at + 1, Progress::Call(name));
                        },
                        Err(e) => {
                            return (at, Progress::Failed(e));
                        },
                    }
                },
            }
        }
    }

    /// Execute a line of Clac++ code in a string, as far as it goes by itself. The result is the
    /// tokens of the line, the number of the one to go on with, and why it stops.
    pub fn execute_str(&mut self, line: &str) -> (r: (Vec<Token>, usize, Progress))
        requires
            old(self).wf(),
        ensures
            final(self).wf(),
            final(self).stack.room() == old(self).stack.room(),
            final(self).funcmap == old(self).funcmap,
            read_as(words(line@, white_marks(line@)), r.0@),
            r.1 <= r.0@.len(),
            ({
                let (c, halt) = run_line(
                    r.0@,
                    old(self).funcmap@.dom(),
                    old(self).stack.room(),
                    old(self).place(0),
                );
                final(self).place(r.1 as int) == c && says(r.2, halt)
            }),
    {
        let parsed = tokenize(line);
        let (at, progress) = self.execute_tokens(parsed.as_slice(), 0);
        (parsed, at, progress)
    }

    /// Takes the functions that have been defined since the last time into the map of functions,
    /// and compiles all of them.
    pub fn reset_module_and_recompile_all(&mut self) -> (r: Result<
        NameMap<CompiledFunction>,
        CompilerError,
    >)
        requires
            old(self).wf(),
        ensures
            final(self).wf(),
            final(self).stack == old(self).stack,
            final(self).undefined_functions@.len() == 0,
            final(self).funcmap@ == redefined(
                old(self).funcmap@,
                old(self).undefined_functions@,
            ),
            exists|deltas: Map<Seq<char>, Delta>, reaches: Map<Seq<char>, Reach>| #[trigger]
                solved(
                    final(self).funcmap.names(),
                    final(self).funcmap@,
                    deltas,
                    reaches,
                ) && compiled_right(
                    r,
                    final(self).funcmap.names(),
                    final(self).funcmap@,
                    signatures(deltas, reaches),
                ),
    {
        let ghost start = self.funcmap@;
        let ghost all = self.undefined_functions@;
        let ghost mut done: int = 0;
        assert(all.take(0) =~= Seq::empty());
        assert(all.skip(0) =~= all);
        while self.undefined_functions.len() > 0
            invariant
                self.wf(),
                self.stack == old(self).stack,
                start == old(self).funcmap@,
                all == old(self).undefined_functions@,
                0 <= done <= all.len(),
                self.undefined_functions@ == all.skip(done),
                self.funcmap@ == redefined(start, all.take(done)),
            decreases self.undefined_functions@.len(),
        {
            assert(all.skip(done)[0] == all[done]);
            let (name, f) = self.undefined_functions.remove(0);
            self.funcmap.insert(name, f);
            proof {
                assert(all.take(done + 1).drop_last() =~= all.take(done));
                assert(all.take(done + 1).last() == all[done]);
                done = done + 1;
                assert(self.undefined_functions@ =~= all.skip(done));
            }
        }
        assert(all.take(done) =~= all);
        let compiler = Compiler::new();
        compiler.compile(&self.funcmap)
    }
}

/// Functions, with definitions that come later taking the place of those that came before.
pub open spec fn redefined(funcs: Map<Seq<char>, Code>, defs: Seq<(String, Code)>) -> Map<
    Seq<char>,
    Code,
>
    decreases defs.len(),
{
    if defs.len() == 0 {
        funcs
    } else {
        redefined(funcs, defs.drop_last()).insert(defs.last().0@, defs.last().1)
    }
}

/// The last definition of a name is the one that stands; a name that is not defined again keeps
/// what it stood for.
pub proof fn law_last_definition_stands(
    funcs: Map<Seq<char>, Code>,
    defs: Seq<(String, Code)>,
    name: Seq<char>,
)
    ensures
        forall|i: int|
            0 <= i < defs.len() && (#[trigger] defs[i]).0@ == name && (forall|j: int|
                i < j < defs.len() ==> (#[trigger] defs[j]).0@ != name) ==> redefined(
                funcs,
                defs,
            ).contains_key(name) && redefined(funcs, defs)[name] == defs[i].1,
        (forall|i: int| 0 <= i < defs.len() ==> (#[trigger] defs[i]).0@ != name) ==> (redefined(
            funcs,
            defs,
        ).contains_key(name) <==> funcs.contains_key(name)) && redefined(funcs, defs)[name]
            == funcs[name],
    decreases defs.len(),
{
    if defs.len() > 0 {
        let fewer = defs.drop_last();
        law_last_definition_stands(funcs, fewer, name);
        assert forall|i: int|
            0 <= i < defs.len() && (#[trigger] defs[i]).0@ == name && (forall|j: int|
                i < j < defs.len() ==> (#[trigger] defs[j]).0@ != name) implies redefined(
            funcs,
            defs,
        ).contains_key(name) && redefined(funcs, defs)[name] == defs[i].1 by {
            if i < defs.len() - 1 {
                assert(defs[defs.len() - 1].0@ != name);
                assert(fewer[i] == defs[i]);
                assert forall|j: int| i < j < fewer.len() implies (#[trigger] fewer[j]).0@
                    != name by {
                    assert(fewer[j] == defs[j]);
                }
            }
        }
        if forall|i: int| 0 <= i < defs.len() ==> (#[trigger] defs[i]).0@ != name {
            assert(defs[defs.len() - 1].0@ != name);
            assert forall|i: int| 0 <= i < fewer.len() implies (#[trigger] fewer[i]).0@ != name by {
                assert(fewer[i] == defs[i]);
            }
        }
    }
}

/// What a line comes to if the world performs the effects that it is asked for, and functions that
/// are called are carried out; `None` if the stack runs full, or functions have to be compiled.
pub open spec fn session(
    line: Seq<Token>,
    defined: Set<Seq<char>>,
    room: nat,
    c: Place,
    log: Seq<Effect>,
    env: Surroundings,
) -> Option<Outcome>
    decreases line.len() - c.at,
{
    let (c2, halt) = run_line(line, defined, room, c);
    match halt {
        Halt::Finished => Some(Outcome::Done(World { stack: c2.stack, log })),
        Halt::Error(ExecError::Quit) => Some(Outcome::Stopped(log)),
        Halt::Error(e) => Some(ended_by(e, log)),
        Halt::Unknown(_) => Some(Outcome::Failed(log)),
        Halt::Fault { trapped } => Some(faulted(trapped, log)),
        Halt::Recompile => None,
        Halt::StackFull => None,
        Halt::Perform(effect) => {
            let w = perform(c2.stack, log, effect, env);
            if c.at < c2.at <= line.len() {
                session(line, defined, room, Place { stack: w.stack, ..c2 }, w.log, env)
            } else {
                None
            }
        },
        Halt::Call(name) => match (env.call)(name, World { stack: c2.stack, log }) {
            Outcome::Done(w) => if c.at < c2.at <= line.len() {
                session(line, defined, room, Place { stack: w.stack, ..c2 }, w.log, env)
            } else {
                None
            },
            other => Some(other),
        },
    }
}

/// Whether no token of a line is part of the syntax of definitions.
pub open spec fn without_definitions(line: Seq<Token>) -> bool {
    forall|i: int| 0 <= i < line.len() ==> !(#[trigger] line[i]).is_definition_syntax()
}

/// As far as a line goes by itself, it does what a function does whose body it is.
proof fn lemma_line_like_body(
    line: Seq<Token>,
    defined: Set<Seq<char>>,
    room: nat,
    c: Place,
    log: Seq<Effect>,
    env: Surroundings,
)
    requires
        without_definitions(line),
        0 <= c.at <= line.len(),
        c.undefined.len() == 0,
        unknown_calls_fail(defined, env),
    ensures
        ({
            let code = code_between(line, 0, line.len() as int);
            let o = run_raw(code, c.at, World { stack: c.stack, log }, env);
            let (c2, halt) = run_line(line, defined, room, c);
            &&& c2.undefined == c.undefined
            &&& match halt {
                Halt::Finished => o == Outcome::Done(World { stack: c2.stack, log }),
                Halt::Error(ExecError::Quit) => o == Outcome::Stopped(log),
                Halt::Error(e) => o == ended_by(e, log),
                Halt::Unknown(_) => o == Outcome::Failed(log),
                Halt::Fault { trapped } => o == faulted(trapped, log),
                Halt::Recompile => false,
                Halt::StackFull => true,
                Halt::Perform(effect) => {
                    &&& c.at < c2.at <= line.len()
                    &&& o == run_raw(code, c2.at, perform(c2.stack, log, effect, env), env)
                },
                Halt::Call(name) => {
                    &&& c.at < c2.at <= line.len()
                    &&& o == match (env.call)(name, World { stack: c2.stack, log }) {
                        Outcome::Done(w) => run_raw(code, c2.at, w, env),
                        other => other,
                    }
                },
            }
        }),
    decreases line.len() - c.at,
{
    let code = code_between(line, 0, line.len() as int);
    let w = World { stack: c.stack, log };
    assert(code.len() == line.len());
    if c.at < line.len() {
        assert(!line[c.at].is_definition_syntax());
        assert(code[c.at] == token_instr(line[c.at]));
        if !overfills(step(token_instr(line[c.at]), c.stack), room) {
            match step(code[c.at], c.stack) {
                Step::Next(s) => {
                    lemma_line_like_body(
                        line,
                        defined,
                        room,
                        Place { at: c.at + 1, stack: s, ..c },
                        log,
                        env,
                    );
                },
                Step::Skip(s, n) => {
                    if c.at + 1 + n <= line.len() {
                        lemma_line_like_body(
                            line,
                            defined,
                            room,
                            Place { at: c.at + 1 + n, stack: s, ..c },
                            log,
                            env,
                        );
                    }
                },
                Step::Call(s, name) => {
                    let v = World { stack: s, log };
                    assert(!defined.contains(name) ==> (env.call)(name, v) == Outcome::Failed(
                        v.log,
                    ));
                },
                _ => {},
            }
        }
    }
}

/// A line without definitions does what a function does whose body it is, unless the stack runs
/// full.
pub proof fn law_line_runs_like_body(
    line: Seq<Token>,
    defined: Set<Seq<char>>,
    room: nat,
    c: Place,
    log: Seq<Effect>,
    env: Surroundings,
)
    requires
        without_definitions(line),
        0 <= c.at <= line.len(),
        c.undefined.len() == 0,
        unknown_calls_fail(defined, env),
        session(line, defined, room, c, log, env) is Some,
    ensures
        session(line, defined, room, c, log, env) == Some(
            run_raw(
                code_between(line, 0, line.len() as int),
                c.at,
                World { stack: c.stack, log },
                env,
            ),
        ),
    decreases line.len() - c.at,
{
    lemma_line_like_body(line, defined, room, c, log, env);
    let (c2, halt) = run_line(line, defined, room, c);
    match halt {
        Halt::Perform(effect) => {
            let w = perform(c2.stack, log, effect, env);
            law_line_runs_like_body(
                line,
                defined,
                room,
                Place { stack: w.stack, ..c2 },
                w.log,
                env,
            );
        },
        Halt::Call(name) => {
            if let Outcome::Done(w) = (env.call)(name, World { stack: c2.stack, log }) {
                law_line_runs_like_body(
                    line,
                    defined,
                    room,
                    Place { stack: w.stack, ..c2 },
                    w.log,
                    env,
                );
            }
        },
        _ => {},
    }
}

/// What a line meets whose calls are calls of compiled functions.
pub open spec fn compiled_surroundings(
    functions: Map<Seq<char>, CompiledFunction>,
    reply: spec_fn(Seq<Effect>) -> Value,
    depth: nat,
) -> Surroundings {
    Surroundings {
        reply,
        call: |name: Seq<char>, w: World|
            match run_plan(
                functions[name].wrapper,
                Seq::empty(),
                w,
                compiled_program(plans_of(functions), reply, depth),
            ) {
                Some(o) => o,
                None => Outcome::Astray(w.log),
            },
    }
}

/// A line comes to the same whether the functions that it calls are compiled or interpreted, unless
/// it goes astray, or a function with a signature is called with fewer values on the stack than the
/// signature says.
pub proof fn law_line_runs_compiled(
    names: Seq<Seq<char>>,
    funcs: Map<Seq<char>, Code>,
    deltas: Map<Seq<char>, Delta>,
    reaches: Map<Seq<char>, Reach>,
    functions: NameMap<CompiledFunction>,
    reply: spec_fn(Seq<Effect>) -> Value,
    depth: nat,
    line: Seq<Token>,
    room: nat,
    c: Place,
    log: Seq<Effect>,
)
    requires
        solved(names, funcs, deltas, reaches),
        names.len() <= usize::MAX,
        forall|x: Seq<char>| #[trigger] funcs.contains_key(x) ==> names.contains(x),
        compiled_right(Ok(functions), names, funcs, signatures(deltas, reaches)),
        session(
            line,
            funcs.dom(),
            room,
            c,
            log,
            program(funcs, signatures(deltas, reaches), reply, depth),
        ) matches Some(o) && !(o is Astray),
    ensures
        session(
            line,
            funcs.dom(),
            room,
            c,
            log,
            compiled_surroundings(functions@, reply, depth),
        ) == session(
            line,
            funcs.dom(),
            room,
            c,
            log,
            program(funcs, signatures(deltas, reaches), reply, depth),
        ),
    decreases line.len() - c.at,
{
    let sigs = signatures(deltas, reaches);
    let env = program(funcs, sigs, reply, depth);
    let compiled = compiled_surroundings(functions@, reply, depth);
    let (c2, halt) = run_line(line, funcs.dom(), room, c);
    match halt {
        Halt::Perform(effect) => {
            let w = perform(c2.stack, log, effect, env);
            assert(w == perform(c2.stack, log, effect, compiled));
            if c.at < c2.at <= line.len() {
                law_line_runs_compiled(
                    names,
                    funcs,
                    deltas,
                    reaches,
                    functions,
                    reply,
                    depth,
                    line,
                    room,
                    Place { stack: w.stack, ..c2 },
                    w.log,
                );
            }
        },
        Halt::Call(name) => {
            let v = World { stack: c2.stack, log };
            lemma_calls_are_defined(line, funcs.dom(), room, c);
            assert(plans_of(functions@).dom().contains(name));
            law_compiled_call_is_call(
                names,
                funcs,
                deltas,
                reaches,
                functions,
                reply,
                depth,
                name,
                v,
            );
            assert((env.call)(name, v) == call_function(funcs, sigs, reply, depth, name, v));
            assert((compiled.call)(name, v) == (env.call)(name, v));
            if let Outcome::Done(w) = (env.call)(name, v) {
                if c.at < c2.at <= line.len() {
                    law_line_runs_compiled(
                        names,
                        funcs,
                        deltas,
                        reaches,
                        functions,
                        reply,
                        depth,
                        line,
                        room,
                        Place { stack: w.stack, ..c2 },
                        w.log,
                    );
                }
            }
        },
        _ => {},
    }
}

/// A line calls no functions but those that are defined.
proof fn lemma_calls_are_defined(line: Seq<Token>, defined: Set<Seq<char>>, room: nat, c: Place)
    ensures
        run_line(line, defined, room, c).1 matches Halt::Call(name) ==> defined.contains(name),
    decreases line.len() - c.at,
{
    if c.at >= 0 {
        match item_at(line, c.at) {
            Item::Definition { name, code, next } => {
                if c.at < next <= line.len() {
                    lemma_calls_are_defined(
                        line,
                        defined,
                        room,
                        Place {
                            at: next,
                            undefined: c.undefined.push((name, code)),
                            stack: c.stack,
                        },
                    );
                }
            },
            Item::Token => match step(token_instr(line[c.at]), c.stack) {
                Step::Next(s) => {
                    lemma_calls_are_defined(
                        line,
                        defined,
                        room,
                        Place { at: c.at + 1, stack: s, ..c },
                    );
                },
                Step::Skip(s, n) => {
                    if c.at + 1 + n <= line.len() {
                        lemma_calls_are_defined(
                            line,
                            defined,
                            room,
                            Place { at: c.at + 1 + n, stack: s, ..c },
                        );
                    }
                },
                _ => {},
            },
            _ => {},
        }
    }
}

/// What comes after a line that was typed in.
#[derive(Debug)]
pub enum AfterLine {
    /// The stack is shown, and the next line is asked for.
    ShowStack,
    /// The next line is asked for.
    NextLine,
    /// The machine stops.
    Leave,
    /// The machine stops with an error.
    Fail(ExecError),
}

/// What comes after a line that came out as `outcome`.
pub fn after_line(outcome: Result<(), ExecError>, hide_stack: bool) -> (r: AfterLine)
    ensures
        outcome is Ok ==> if hide_stack {
            r is NextLine
        } else {
            r is ShowStack
        },
        outcome matches Err(e) ==> if e is Quit {
            r is Leave
        } else {
            r == AfterLine::Fail(e)
        },
{
    match outcome {
        Ok(()) => if hide_stack {
            AfterLine::NextLine
        } else {
            AfterLine::ShowStack
        },
        Err(ExecError::Quit) => AfterLine::Leave,
        Err(e) => AfterLine::Fail(e),
    }
}

} // verus!
