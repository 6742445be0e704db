//! What lines do with what is written in them: definitions of any length, numbers, calls and names.
use vstd::prelude::*;

#[allow(unused_imports)]
use crate::aot::{extracted, AOTCompileError};
#[allow(unused_imports)]
use crate::builtins::builtin_instr;
#[allow(unused_imports)]
use crate::semantics::{below, overfills, step, Step};
#[allow(unused_imports)]
use crate::state::{body_end, code_between, item_at, run_line, Halt, Item, Place};
#[allow(unused_imports)]
use crate::types::{token_instr, ExecError, Instr, Token, Value};

verus! {

/// A definition as it is written.
pub open spec fn definition(name: String, body: Seq<Token>) -> Seq<Token> {
    seq![Token::Colon, Token::Identifier(name)] + body + seq![Token::Semicolon]
}

/// Whether tokens can stand in the body of a definition.
pub open spec fn can_be_body(body: Seq<Token>) -> bool {
    forall|i: int| 0 <= i < body.len() ==> !(#[trigger] body[i] is Colon) && !(body[i] is Semicolon)
}

/// Whether instructions are those of tokens, one for each and in their order.
pub open spec fn spelled_by(code: Seq<Instr>, body: Seq<Token>) -> bool {
    &&& code.len() == body.len()
    &&& forall|i: int| 0 <= i < body.len() ==> #[trigger] code[i] == token_instr(body[i])
}

/// A body ends at the first token that cannot be part of one.
proof fn lemma_body_ends(line: Seq<Token>, p: int, q: int)
    requires
        0 <= p <= q <= line.len(),
        forall|i: int| p <= i < q ==> !(#[trigger] line[i]).is_definition_syntax(),
        q < line.len() ==> line[q].is_definition_syntax(),
    ensures
        body_end(line, p) == q,
    decreases q - p,
{
    if p < q {
        assert(!line[p].is_definition_syntax());
        lemma_body_ends(line, p + 1, q);
    }
}

/// A definition of any length is read whole, wherever it stands: its body has one instruction for
/// each token between the name and the semicolon, and the line goes on behind the semicolon.
pub proof fn law_definition_is_read_whole(
    before: Seq<Token>,
    name: String,
    body: Seq<Token>,
    after: Seq<Token>,
)
    requires
        can_be_body(body),
    ensures
        item_at(before + definition(name, body) + after, before.len() as int) matches
            Item::Definition { name: found, code, next } && {
            &&& found == name@
            &&& code.len() == body.len()
            &&& forall|i: int| 0 <= i < body.len() ==> #[trigger] code[i] == token_instr(body[i])
            &&& next == before.len() + body.len() + 3
        },
{
    let p = before.len() as int;
    let q = p + 2 + body.len();
    let line = before + definition(name, body) + after;
    assert(line[p] is Colon);
    assert(line[p + 1] == Token::Identifier(name));
    assert(line[q] is Semicolon);
    assert forall|i: int| p + 2 <= i < q implies !(#[trigger] line[i]).is_definition_syntax() by {
        assert(line[i] == body[i - p - 2]);
    }
    lemma_body_ends(line, p + 2, q);
    let code = code_between(line, p + 2, q);
    assert forall|i: int| 0 <= i < body.len() implies #[trigger] code[i] == token_instr(body[i]) by {
        assert(line[p + 2 + i] == body[i]);
    }
}

/// What starts like a definition is none if a colon comes before the semicolon, or the line ends, or
/// what stands behind the colon is no name. A semicolon starts nothing.
pub proof fn law_what_is_no_definition(
    before: Seq<Token>,
    name: String,
    body: Seq<Token>,
    other: Token,
    after: Seq<Token>,
)
    requires
        can_be_body(body),
        !(other is Identifier),
    ensures
        item_at(before.push(Token::Semicolon) + after, before.len() as int) is Bad,
        item_at(before.push(Token::Colon), before.len() as int) is Bad,
        item_at(before.push(Token::Colon).push(other) + after, before.len() as int) is Bad,
        item_at(
            before.push(Token::Colon).push(Token::Identifier(name)) + body,
            before.len() as int,
        ) is Bad,
        item_at(
            (before.push(Token::Colon).push(Token::Identifier(name)) + body).push(Token::Colon)
                + after,
            before.len() as int,
        ) is Bad,
{
    let p = before.len() as int;
    let q = p + 2 + body.len();
    let head = before.push(Token::Colon).push(Token::Identifier(name));
    assert((before.push(Token::Semicolon) + after)[p] is Semicolon);
    assert(before.push(Token::Colon)[p] is Colon);
    let line = before.push(Token::Colon).push(other) + after;
    assert(line[p] is Colon && line[p + 1] == other);
    let open_ended = head + body;
    assert(open_ended[p] is Colon && open_ended[p + 1] == Token::Identifier(name));
    assert forall|i: int| p + 2 <= i < q implies !(
    #[trigger] open_ended[i]).is_definition_syntax() by {
        assert(open_ended[i] == body[i - p - 2]);
    }
    lemma_body_ends(open_ended, p + 2, q);
    let nested = (head + body).push(Token::Colon) + after;
    assert(nested[p] is Colon && nested[p + 1] == Token::Identifier(name));
    assert(nested[q] is Colon);
    assert forall|i: int| p + 2 <= i < q implies !(#[trigger] nested[i]).is_definition_syntax() by {
        assert(nested[i] == body[i - p - 2]);
    }
    lemma_body_ends(nested, p + 2, q);
}

/// A token that is neither a colon nor a semicolon is carried out, and there is nothing behind the
/// end of a line.
pub proof fn law_other_tokens_are_carried_out(line: Seq<Token>, p: int)
    requires
        0 <= p <= line.len(),
    ensures
        p < line.len() && !(line[p] is Colon) && !(line[p] is Semicolon) ==> item_at(line, p) is Token,
        p == line.len() <==> item_at(line, p) is End,
{
}

/// A line that comes to a definition goes on behind it. The function is among those to be compiled
/// then, behind those before it, and nothing else has changed.
pub proof fn law_line_keeps_definition(
    before: Seq<Token>,
    name: String,
    body: Seq<Token>,
    after: Seq<Token>,
    code: Seq<Instr>,
    undefined: Seq<(Seq<char>, Seq<Instr>)>,
    stack: Seq<Value>,
    defined: Set<Seq<char>>,
    room: nat,
)
    requires
        can_be_body(body),
        spelled_by(code, body),
    ensures
        ({
            let line = before + definition(name, body) + after;
            run_line(line, defined, room, Place { at: before.len() as int, undefined, stack })
                == run_line(
                line,
                defined,
                room,
                Place {
                    at: (before.len() + body.len() + 3) as int,
                    undefined: undefined.push((name@, code)),
                    stack,
                },
            )
        }),
{
    law_definition_is_read_whole(before, name, body, after);
    let line = before + definition(name, body) + after;
    let read = item_at(line, before.len() as int)->code;
    assert(read =~= code);
}

/// What is no definition ends a line with an error, and a line that is at its end is done. Nothing
/// has changed then.
pub proof fn law_line_ends(line: Seq<Token>, defined: Set<Seq<char>>, room: nat, c: Place)
    requires
        0 <= c.at <= line.len(),
    ensures
        c.at == line.len() ==> run_line(line, defined, room, c) == (c, Halt::Finished),
        item_at(line, c.at) is Bad ==> run_line(line, defined, room, c) == (
            c,
            Halt::Error(ExecError::BadFunctionDefinition),
        ),
{
}

/// The values that tokens stand for that are numbers.
pub open spec fn are_numbers(line: Seq<Token>, values: Seq<Value>) -> bool {
    &&& line.len() == values.len()
    &&& forall|i: int| 0 <= i < line.len() ==> #[trigger] line[i] == Token::Literal(values[i])
}

/// A line of numbers pushes them in their order, if there is room for all of them; else it stops
/// when there is no room for the next one.
pub proof fn law_line_of_numbers(
    line: Seq<Token>,
    values: Seq<Value>,
    defined: Set<Seq<char>>,
    room: nat,
    c: Place,
)
    requires
        are_numbers(line, values),
        0 <= c.at <= line.len(),
        c.stack.len() <= room,
    ensures
        c.stack.len() + (line.len() - c.at) <= room ==> run_line(line, defined, room, c) == (
            Place {
                at: line.len() as int,
                stack: c.stack + values.skip(c.at),
                undefined: c.undefined,
            },
            Halt::Finished,
        ),
        c.stack.len() + (line.len() - c.at) > room ==> run_line(line, defined, room, c) == (
            Place {
                at: c.at + (room - c.stack.len()),
                stack: c.stack + values.subrange(c.at, c.at + (room - c.stack.len())),
                undefined: c.undefined,
            },
            Halt::StackFull,
        ),
    decreases line.len() - c.at,
{
    if c.at == line.len() {
        assert(c.stack + values.skip(c.at) =~= c.stack);
    } else {
        let v = values[c.at];
        assert(line[c.at] == Token::Literal(v));
        if c.stack.len() == room {
            assert(c.stack + values.subrange(c.at, c.at) =~= c.stack);
        } else {
            let c2 = Place { at: c.at + 1, stack: c.stack.push(v), ..c };
            law_line_of_numbers(line, values, defined, room, c2);
            assert(c2.stack + values.skip(c2.at) =~= c.stack + values.skip(c.at));
            if c.stack.len() + (line.len() - c.at) > room {
                let e = c.at + (room - c.stack.len());
                assert(c2.stack + values.subrange(c2.at, e) =~= c.stack + values.subrange(
                    c.at,
                    e,
                ));
            }
        }
    }
}

/// A name in a line: functions that have been defined and not been compiled have to be compiled
/// first. Otherwise a name that is not built in calls its function, with the stack as it is, if there
/// is one, and else is unknown.
pub proof fn law_line_calls(
    line: Seq<Token>,
    name: String,
    defined: Set<Seq<char>>,
    room: nat,
    c: Place,
)
    requires
        0 <= c.at < line.len(),
        line[c.at] == Token::Identifier(name),
    ensures
        c.undefined.len() > 0 ==> run_line(line, defined, room, c) == (c, Halt::Recompile),
        c.undefined.len() == 0 && builtin_instr(name@) is None && defined.contains(name@)
            ==> run_line(line, defined, room, c) == (
            Place { at: c.at + 1, ..c },
            Halt::Call(name@),
        ),
        c.undefined.len() == 0 && builtin_instr(name@) is None && !defined.contains(name@)
            ==> run_line(line, defined, room, c) == (c, Halt::Unknown(name@)),
{
}

/// A token that is to be carried out does in a line what its instruction does: the line goes on
/// behind it, or behind as many as it passes over, or stops to ask the world, or ends with the error
/// and the stack that the instruction leaves.
pub proof fn law_line_is_steps(line: Seq<Token>, defined: Set<Seq<char>>, room: nat, c: Place)
    requires
        0 <= c.at < line.len(),
        !(line[c.at] is Colon) && !(line[c.at] is Semicolon),
        line[c.at] is Identifier ==> c.undefined.len() == 0,
    ensures
        match step(token_instr(line[c.at]), c.stack) {
            Step::Next(s) => run_line(line, defined, room, c) == if s.len() > room {
                (c, Halt::StackFull)
            } else {
                run_line(line, defined, room, Place { at: c.at + 1, stack: s, ..c })
            },
            Step::Skip(s, n) => run_line(line, defined, room, c) == if n < line.len() - c.at {
                run_line(line, defined, room, Place { at: c.at + 1 + n, stack: s, ..c })
            } else {
                (Place { stack: s, ..c }, Halt::Error(ExecError::InvalidSkip))
            },
            Step::Perform(s, effect) => run_line(line, defined, room, c) == (
                Place { at: c.at + 1, stack: s, ..c },
                Halt::Perform(effect),
            ),
            Step::Fail(s, e) => run_line(line, defined, room, c) == (
                Place { stack: s, ..c },
                Halt::Error(e),
            ),
            Step::Fault { trapped } => run_line(line, defined, room, c) == (
                c,
                Halt::Fault { trapped },
            ),
            Step::Call(_, _) => true,
        },
{
}

/// A step leaves at most one value more than there was.
proof fn lemma_step_adds_one(instr: Instr, s: Seq<Value>)
    ensures
        step(instr, s) matches Step::Next(s2) ==> s2.len() <= s.len() + 1,
        step(instr, s) matches Step::Skip(s2, _) ==> s2.len() <= s.len(),
        step(instr, s) matches Step::Perform(s2, _) ==> s2.len() <= s.len(),
        step(instr, s) matches Step::Call(s2, _) ==> s2.len() <= s.len(),
        step(instr, s) matches Step::Fail(s2, _) ==> s2.len() <= s.len(),
{
}

/// A line never leaves more values than there is room for, and stops for want of room only where
/// all of it is taken.
pub proof fn law_line_keeps_to_its_room(
    line: Seq<Token>,
    defined: Set<Seq<char>>,
    room: nat,
    c: Place,
)
    requires
        0 <= c.at <= line.len(),
        c.stack.len() <= room,
    ensures
        run_line(line, defined, room, c).0.stack.len() <= room,
        run_line(line, defined, room, c).1 is StackFull ==> run_line(
            line,
            defined,
            room,
            c,
        ).0.stack.len() == room,
    decreases line.len() - c.at,
{
    match item_at(line, c.at) {
        Item::Definition { name, code, next } => {
            if c.at < next <= line.len() {
                law_line_keeps_to_its_room(
                    line,
                    defined,
                    room,
                    Place { at: next, undefined: c.undefined.push((name, code)), stack: c.stack },
                );
            }
        },
        Item::Token => {
            let instr = token_instr(line[c.at]);
            lemma_step_adds_one(instr, c.stack);
            if !overfills(step(instr, c.stack), room) {
                match step(instr, c.stack) {
                    Step::Next(s) => {
                        law_line_keeps_to_its_room(
                            line,
                            defined,
                            room,
                            Place { at: c.at + 1, stack: s, ..c },
                        );
                    },
                    Step::Skip(s, n) => {
                        if c.at + 1 + n <= line.len() {
                            law_line_keeps_to_its_room(
                                line,
                                defined,
                                room,
                                Place { at: c.at + 1 + n, stack: s, ..c },
                            );
                        }
                    },
                    _ => {},
                }
            }
        },
        _ => {},
    }
}

/// A program goes on behind each definition with the function defined, whatever its length; it ends
/// behind the last.
pub proof fn law_program_keeps_definition(
    before: Seq<Token>,
    name: String,
    body: Seq<Token>,
    after: Seq<Token>,
    code: Seq<Instr>,
    funcs: Map<Seq<char>, Seq<Instr>>,
)
    requires
        can_be_body(body),
        spelled_by(code, body),
    ensures
        ({
            let line = before + definition(name, body) + after;
            extracted(line, before.len() as int, funcs) == extracted(
                line,
                (before.len() + body.len() + 3) as int,
                funcs.insert(name@, code),
            )
        }),
        extracted(before, before.len() as int, funcs) == Ok::<
            Map<Seq<char>, Seq<Instr>>,
            AOTCompileError,
        >(funcs),
{
    law_definition_is_read_whole(before, name, body, after);
    let line = before + definition(name, body) + after;
    let read = item_at(line, before.len() as int)->code;
    assert(read =~= code);
}

/// A program holds nothing but definitions.
pub proof fn law_program_holds_definitions(
    line: Seq<Token>,
    p: int,
    funcs: Map<Seq<char>, Seq<Instr>>,
)
    requires
        0 <= p < line.len(),
    ensures
        !(line[p] is Colon) && !(line[p] is Semicolon) ==> extracted(line, p, funcs) == Err::<
            Map<Seq<char>, Seq<Instr>>,
            AOTCompileError,
        >(AOTCompileError::TopLevelDisallowed),
        item_at(line, p) is Bad ==> extracted(line, p, funcs) == Err::<
            Map<Seq<char>, Seq<Instr>>,
            AOTCompileError,
        >(AOTCompileError::BadFunctionDefinition),
{
}

} // verus!
