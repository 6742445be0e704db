//! What callers may count on: laws of the functions that are called, whatever they give back.
use vstd::prelude::*;

#[allow(unused_imports)]
use crate::arithmetic_laws::{
    law_division, law_less_than, law_powers, law_sums_and_products, stands_for_integer,
};
#[allow(unused_imports)]
use crate::builtins::{compute, lookup, pow};
#[allow(unused_imports)]
use crate::definition_laws::{can_be_body, definition, law_definition_is_read_whole};
#[allow(unused_imports)]
use crate::jit::cfg::{resolve_drops_and_picks, resolved};
#[allow(unused_imports)]
use crate::jit::delta::{combine_branching_deltas, Delta, GuessMap};
#[allow(unused_imports)]
use crate::jit::reach::{combine_branching_reaches, combine_sequential_reaches, Reach};
#[allow(unused_imports)]
use crate::jit::reach_laws::law_reach_is_tight;
#[allow(unused_imports)]
use crate::jit::straight_laws::{law_pick_is_joined, pushes};
#[allow(unused_imports)]
use crate::lexer::{parse, read_as, reads_as, tokenize, white_space};
#[allow(unused_imports)]
use crate::semantics::{basic_step, step, Step};
#[allow(unused_imports)]
use crate::state::{after_line, find, AfterLine, Found};
#[allow(unused_imports)]
use crate::text_laws::{law_white_space_parts, words_of};
#[allow(unused_imports)]
use crate::types::{token_instr, ArithOp, BasicBlockInstr, ExecError, Instr, Token, Value};
#[allow(unused_imports)]
use crate::word_laws::{does, is_builtin_name, law_builtin_names};

verus! {

/// What is computed: sums, differences and products of the integers, as far as cells hold them, and
/// their order.
pub proof fn law_what_is_computed(a: Value, b: Value, r: Option<Value>)
    ensures
        call_ensures(compute, (ArithOp::Add, a, b), r) ==> (r matches Some(v) && stands_for_integer(
            v,
            a + b,
        )),
        call_ensures(compute, (ArithOp::Sub, a, b), r) ==> (r matches Some(v) && stands_for_integer(
            v,
            a - b,
        )),
        call_ensures(compute, (ArithOp::Mul, a, b), r) ==> (r matches Some(v) && stands_for_integer(
            v,
            a * b,
        )),
        call_ensures(compute, (ArithOp::Lt, a, b), r) ==> if b - a > 0 {
            r == Some(1i64)
        } else {
            r == Some(0i64)
        },
{
    law_sums_and_products(a, b);
    law_less_than(a, b);
}

/// Quotient and remainder make up the dividend, wherever they can be asked for.
pub proof fn law_what_is_divided(a: Value, b: Value, q: Option<Value>, r: Option<Value>)
    requires
        call_requires(compute, (ArithOp::Div, a, b)),
        b != 0,
        !(a == i64::MIN && b == -1),
        call_ensures(compute, (ArithOp::Div, a, b), q),
        call_ensures(compute, (ArithOp::Rem, a, b), r),
    ensures
        q is Some && r is Some,
        a == q->0 * b + r->0,
        b > 0 ==> -b < r->0 < b,
        b < 0 ==> b < r->0 < -b,
        a >= 0 ==> r->0 >= 0,
        a <= 0 ==> r->0 <= 0,
{
    law_division(a, b);
}

/// Powers, one after the other: 1, and each the one before multiplied once more; of exponents that 32
/// bits hold without a sign, and no others.
pub proof fn law_what_is_raised(a: Value, n: Value, p: Option<Value>, more: Option<Value>)
    requires
        n < i64::MAX,
        call_ensures(pow, (a, n), p),
        call_ensures(pow, (a, (n + 1) as i64), more),
    ensures
        p is Some <==> 0 <= n < 0x1_0000_0000,
        n == 0 ==> p == Some(1i64),
        p is Some && more is Some ==> stands_for_integer(more->0, p->0 * a),
{
    law_powers(a, n);
    law_powers(a, (n + 1) as i64);
    if p is Some {
        law_sums_and_products(p->0, a);
    }
}

/// What is looked up is there just where there is a builtin of that name.
pub proof fn law_what_is_looked_up(name: &str, r: Option<Instr>)
    requires
        call_ensures(lookup, (name,), r),
    ensures
        r is Some <==> is_builtin_name(name@),
        r matches Some(instr) ==> forall|token: Token|
            token is Identifier && token->Identifier_0@ == name@ ==> #[trigger] token_instr(token)
                == instr,
{
    law_builtin_names(name@);
}

/// A word that is read does to a stack what the word does.
pub proof fn law_what_is_read(word: &str, token: Token, before: Seq<Value>, after: Step)
    requires
        call_ensures(parse, (word,), token),
        does(word@, before, after),
    ensures
        !(token is Colon) && !(token is Semicolon),
        step(token_instr(token), before) == after,
{
    assert(reads_as(word@, token));
}

/// A text that white space parts has the tokens of its parts, one for each word.
pub proof fn law_what_is_tokenized(line: &str, a: Seq<char>, c: char, b: Seq<char>, r: Vec<Token>)
    requires
        white_space(c),
        line@ == a.push(c) + b,
        call_ensures(tokenize, (line,), r),
    ensures
        r@.len() == words_of(a).len() + words_of(b).len(),
        forall|i: int|
            0 <= i < words_of(a).len() ==> reads_as(words_of(a)[i], #[trigger] r@[i]),
        forall|i: int|
            words_of(a).len() <= i < r@.len() ==> reads_as(
                words_of(b)[i - words_of(a).len()],
                #[trigger] r@[i],
            ),
{
    law_white_space_parts(a, c, b);
    assert(read_as(words_of(line@), r@));
}

/// Code in a row reaches as far as it has to and no further; a branch as far as its wider side.
pub proof fn law_what_reaches_combine(a: usize, d: isize, b: usize, r: Reach)
    ensures
        call_ensures(
            combine_sequential_reaches,
            ((Reach::Num(a), Delta::Num(d)), Reach::Num(b)),
            r,
        ) ==> if b - d > usize::MAX {
            r is Unbounded
        } else {
            r matches Reach::Num(n) && n >= a && n + d >= b && (n == a || n + d == b)
        },
        call_ensures(combine_branching_reaches, (Reach::Num(a), Reach::Num(b)), r) ==> (r matches
            Reach::Num(n) && n >= a && n >= b && (n == a || n == b)),
{
}

/// A branch has the delta that both its sides have, or the one that has an end.
pub proof fn law_what_deltas_combine(x: isize, y: isize, r: Option<Delta>)
    ensures
        call_ensures(combine_branching_deltas, (Delta::Num(x), Delta::Num(y)), r) ==> if x == y {
            r == Some(Delta::Num(x))
        } else {
            r is None
        },
        call_ensures(combine_branching_deltas, (Delta::Never, Delta::Num(y)), r) ==> r == Some(
            Delta::Num(y),
        ),
        call_ensures(combine_branching_deltas, (Delta::Num(x), Delta::Never), r) ==> r == Some(
            Delta::Num(x),
        ),
{
}

/// An instruction comes to nothing on a stack with fewer values than are found to be its reach.
pub proof fn law_what_reach_is_found(
    instr: &BasicBlockInstr,
    known: &GuessMap<Reach>,
    r: Reach,
    s: Seq<Value>,
)
    requires
        call_ensures(BasicBlockInstr::reach, (instr, known), r),
        !(instr is FunctionCall),
    ensures
        r is Unbounded <==> instr is BadPick || instr is BadDropRange,
        r matches Reach::Num(n) && s.len() < n ==> !(basic_step(*instr, s) is Next) && !(basic_step(
            *instr,
            s,
        ) is Perform),
{
    if r matches Reach::Num(n) && s.len() < n {
        law_reach_is_tight(*instr, known@, s);
    }
}

/// An instruction that comes to its end changes the height of the stack by what is found to be its
/// delta.
pub proof fn law_what_delta_is_found(
    instr: &BasicBlockInstr,
    known: &GuessMap<Delta>,
    d: Option<Delta>,
    s: Seq<Value>,
    s2: Seq<Value>,
)
    requires
        call_ensures(BasicBlockInstr::delta, (instr, known), d),
        !(instr is FunctionCall),
        d is Some,
        basic_step(*instr, s) == Step::Next(s2),
    ensures
        d->0 matches Delta::Num(n) && s2.len() == s.len() + n,
{
}

/// What is found at a definition is all of it: its name, an instruction for each token of its body,
/// and the place behind its end.
pub proof fn law_what_is_found(
    line: &[Token],
    p: usize,
    before: Seq<Token>,
    name: String,
    body: Seq<Token>,
    after: Seq<Token>,
    r: Found,
)
    requires
        can_be_body(body),
        line@ == before + definition(name, body) + after,
        p == before.len(),
        call_ensures(find, (line, p), r),
    ensures
        r matches Found::Definition { name: found, code, next } && {
            &&& found@ == name@
            &&& code@.len() == body.len()
            &&& forall|i: int| 0 <= i < body.len() ==> #[trigger] code@[i] == token_instr(body[i])
            &&& next == before.len() + body.len() + 3
        },
{
    law_definition_is_read_whole(before, name, body, after);
}

/// Operands are joined to `pick` and `drop_range` wherever they are numbers that suit.
pub proof fn law_what_is_joined(code: &[Instr], r: Vec<Instr>, n: Value, rest: Seq<Instr>)
    requires
        1 <= n <= usize::MAX,
        code@ == seq![pushes(n), Instr::BBInstr(BasicBlockInstr::BadPick)] + rest,
        call_ensures(resolve_drops_and_picks, (code,), r),
    ensures
        r@.len() > 0,
        r@[0] == Instr::BBInstr(BasicBlockInstr::ResolvedPick(n as usize)),
        r@.skip(1) == resolved(rest, 0),
{
    law_pick_is_joined(n, rest);
    assert(r@.skip(1) =~= resolved(rest, 0));
}

/// After a line that is done the stack is shown, unless it is hidden; `quit` leaves, and any other
/// error is the one that the machine stops with.
pub proof fn law_what_comes_after_a_line(e: ExecError, hidden: bool, r: AfterLine)
    ensures
        call_ensures(after_line, (Ok::<(), ExecError>(()), hidden), r) ==> if hidden {
            r is NextLine
        } else {
            r is ShowStack
        },
        call_ensures(after_line, (Err::<(), ExecError>(e), hidden), r) ==> if e is Quit {
            r is Leave
        } else {
            r == AfterLine::Fail(e)
        },
{
}

} // verus!
