//! What the words of the language do to a stack, from their text on.
use vstd::prelude::*;
#[allow(unused_imports)]
use vstd::arithmetic::power::pow as int_pow;

#[allow(unused_imports)]
use crate::arithmetic_laws::{
    cell_count, divides_into, law_division, law_division_faults, law_less_than,
    law_one_value_stands_for_an_integer, law_powers, law_subtraction_undoes_addition,
    law_sums_and_products, lemma_power, stands_for_integer,
};
#[allow(unused_imports)]
use crate::builtins::{arith, arith_faults, builtin_basic, builtin_instr, wrap};
#[allow(unused_imports)]
use crate::lexer::{is_digit, magnitude_of, number_of, reads_as, value_of_text};
#[allow(unused_imports)]
use crate::semantics::{below, step, top, without_range, Effect, Step};
#[allow(unused_imports)]
use crate::types::{
    token_instr, ArithOp, BasicBlockInstr, ControlFlowInstr, ExecError, Instr, MemOp, Token, Value,
};

verus! {

/// Whether a word, read as a token and carried out, does this to a stack.
pub open spec fn does(word: Seq<char>, before: Seq<Value>, after: Step) -> bool {
    forall|token: Token| #[trigger]
        reads_as(word, token) ==> !token.is_definition_syntax() && step(token_instr(token), before)
            == after
}

/// Whether a word takes the two topmost values off a stack and puts one in their place.
pub open spec fn gives(word: Seq<char>, s: Seq<Value>, a: Value, b: Value, v: Value) -> bool {
    does(word, s.push(a).push(b), Step::Next(s.push(v)))
}

/// Whether a word finds too few values on a stack. The stack is empty then.
pub open spec fn runs_short(word: Seq<char>, s: Seq<Value>) -> bool {
    does(word, s, Step::Fail(Seq::empty(), ExecError::MissingArguments))
}

/// Whether a word has a meaning of its own that no definition can give it.
pub open spec fn is_reserved(word: Seq<char>) -> bool {
    ||| is_keyword(word)
    ||| is_builtin_name(word)
}

/// The words that the language reads in a way of their own.
pub open spec fn is_keyword(word: Seq<char>) -> bool {
    ||| word == "print"@
    ||| word == "quit"@
    ||| word == "drop"@
    ||| word == "swap"@
    ||| word == "rot"@
    ||| word == "pick"@
    ||| word == "if"@
    ||| word == "skip"@
    ||| word == ":"@
    ||| word == ";"@
}

/// The names of what is built in.
pub open spec fn is_builtin_name(word: Seq<char>) -> bool {
    ||| word == "+"@
    ||| word == "-"@
    ||| word == "*"@
    ||| word == "/"@
    ||| word == "%"@
    ||| word == "<"@
    ||| word == "**"@
    ||| word == "read8"@
    ||| word == "write8"@
    ||| word == "read_native"@
    ||| word == "write_native"@
    ||| word == "width_native"@
    ||| word == "syscall"@
    ||| word == "drop_range"@
}

/// Enough of each word to tell it from the others.
proof fn lemma_spellings()
    ensures
        "print"@.len() == 5 && "print"@[0] == 'p',
        "quit"@.len() == 4 && "quit"@[0] == 'q',
        "drop"@.len() == 4 && "drop"@[0] == 'd',
        "swap"@.len() == 4 && "swap"@[0] == 's' && "swap"@[1] == 'w',
        "rot"@.len() == 3 && "rot"@[0] == 'r',
        "pick"@.len() == 4 && "pick"@[0] == 'p',
        "if"@.len() == 2 && "if"@[0] == 'i',
        "skip"@.len() == 4 && "skip"@[0] == 's' && "skip"@[1] == 'k',
        ":"@.len() == 1 && ":"@[0] == ':',
        ";"@.len() == 1 && ";"@[0] == ';',
        "+"@.len() == 1 && "+"@[0] == '+',
        "-"@.len() == 1 && "-"@[0] == '-',
        "*"@.len() == 1 && "*"@[0] == '*',
        "/"@.len() == 1 && "/"@[0] == '/',
        "%"@.len() == 1 && "%"@[0] == '%',
        "<"@.len() == 1 && "<"@[0] == '<',
        "**"@.len() == 2 && "**"@[0] == '*',
        "read8"@.len() == 5 && "read8"@[0] == 'r',
        "write8"@.len() == 6 && "write8"@[0] == 'w',
        "read_native"@.len() == 11 && "read_native"@[0] == 'r',
        "write_native"@.len() == 12 && "write_native"@[0] == 'w' && "write_native"@[1] == 'r',
        "width_native"@.len() == 12 && "width_native"@[0] == 'w' && "width_native"@[1] == 'i',
        "syscall"@.len() == 7 && "syscall"@[0] == 's',
        "drop_range"@.len() == 10 && "drop_range"@[0] == 'd',
{
    reveal_strlit("print");
    reveal_strlit("quit");
    reveal_strlit("drop");
    reveal_strlit("swap");
    reveal_strlit("rot");
    reveal_strlit("pick");
    reveal_strlit("if");
    reveal_strlit("skip");
    reveal_strlit(":");
    reveal_strlit(";");
    reveal_strlit("+");
    reveal_strlit("-");
    reveal_strlit("*");
    reveal_strlit("/");
    reveal_strlit("%");
    reveal_strlit("<");
    reveal_strlit("**");
    reveal_strlit("read8");
    reveal_strlit("write8");
    reveal_strlit("read_native");
    reveal_strlit("write_native");
    reveal_strlit("width_native");
    reveal_strlit("syscall");
    reveal_strlit("drop_range");
}

/// A text that starts with neither a digit nor a sign spells no number, nor does a sign alone.
proof fn lemma_no_number(text: Seq<char>)
    requires
        text.len() > 0,
        !is_digit(text[0]),
        text[0] == '-' || text[0] == '+' ==> text.len() == 1,
    ensures
        value_of_text(text) is None,
{
    if text[0] == '-' || text[0] == '+' {
        assert(text.skip(1).len() == 0);
    } else {
        assert(magnitude_of(text) is None);
    }
}

/// The name of a builtin is read as an identifier.
proof fn lemma_builtin_name(word: Seq<char>)
    requires
        is_builtin_name(word),
    ensures
        value_of_text(word) is None,
        !is_keyword(word),
        forall|token: Token| #[trigger]
            reads_as(word, token) ==> token is Identifier && token->Identifier_0@ == word,
{
    lemma_spellings();
    lemma_no_number(word);
}

/// `drop`, `swap`, `rot` and `quit`.
pub proof fn law_stack_words(s: Seq<Value>, a: Value, b: Value, c: Value)
    ensures
        does("drop"@, s.push(a), Step::Next(s)),
        does("swap"@, s.push(a).push(b), Step::Next(s.push(b).push(a))),
        does("rot"@, s.push(a).push(b).push(c), Step::Next(s.push(b).push(c).push(a))),
        does("quit"@, s, Step::Fail(s, ExecError::Quit)),
{
    lemma_spellings();
    assert(below(s.push(a), 1) =~= s);
    assert(below(s.push(a).push(b), 2) =~= s);
    assert(below(s.push(a).push(b).push(c), 3) =~= s);
}

/// `+`, `-`, `*` and `<`, on any two values.
pub proof fn law_arithmetic_words(s: Seq<Value>, a: Value, b: Value, v: Value)
    ensures
        stands_for_integer(v, a + b) ==> gives("+"@, s, a, b, v),
        stands_for_integer(v, a - b) ==> gives("-"@, s, a, b, v),
        stands_for_integer(v, a * b) ==> gives("*"@, s, a, b, v),
        b - a > 0 ==> gives("<"@, s, a, b, 1),
        b - a <= 0 ==> gives("<"@, s, a, b, 0),
{
    lemma_spellings();
    lemma_builtin_name("+"@);
    lemma_builtin_name("-"@);
    lemma_builtin_name("*"@);
    lemma_builtin_name("<"@);
    assert(below(s.push(a).push(b), 2) =~= s);
    law_sums_and_products(a, b);
    law_less_than(a, b);
    if stands_for_integer(v, a + b) {
        law_one_value_stands_for_an_integer(v, arith(ArithOp::Add, a, b)->0, a + b);
    }
    if stands_for_integer(v, a - b) {
        law_one_value_stands_for_an_integer(v, arith(ArithOp::Sub, a, b)->0, a - b);
    }
    if stands_for_integer(v, a * b) {
        law_one_value_stands_for_an_integer(v, arith(ArithOp::Mul, a, b)->0, a * b);
    }
}

/// `/` and `%`: quotient and remainder make up the dividend, the remainder being smaller than the
/// divisor and of the sign of the dividend. Where cells can hold no quotient and remainder, there is
/// a trap.
pub proof fn law_division_words(s: Seq<Value>, a: Value, b: Value)
    ensures
        (exists|q: Value, r: Value| #[trigger] divides_into(a, b, q, r)) ==> exists|
            q: Value,
            r: Value,
        | #[trigger]
            divides_into(a, b, q, r) && (a >= 0 ==> r >= 0) && (a <= 0 ==> r <= 0) && gives(
                "/"@,
                s,
                a,
                b,
                q,
            ) && gives("%"@, s, a, b, r),
        !(exists|q: Value, r: Value| #[trigger] divides_into(a, b, q, r)) ==> does(
            "/"@,
            s.push(a).push(b),
            Step::Fault { trapped: true },
        ) && does("%"@, s.push(a).push(b), Step::Fault { trapped: true }),
{
    lemma_spellings();
    lemma_builtin_name("/"@);
    lemma_builtin_name("%"@);
    assert(below(s.push(a).push(b), 2) =~= s);
    law_division_faults(ArithOp::Div, a, b);
    law_division_faults(ArithOp::Rem, a, b);
    if !arith_faults(ArithOp::Div, a, b) {
        law_division(a, b);
        let q = arith(ArithOp::Div, a, b)->0;
        let r = arith(ArithOp::Rem, a, b)->0;
        assert(divides_into(a, b, q, r));
        assert(gives("/"@, s, a, b, q));
        assert(gives("%"@, s, a, b, r));
    }
}

/// `**`: the power, where the exponent can be an unsigned number of 32 bits; else an error, with
/// the operands gone.
pub proof fn law_power_word(s: Seq<Value>, a: Value, n: Value, v: Value)
    ensures
        0 <= n < 0x1_0000_0000 && stands_for_integer(v, int_pow(a as int, n as nat)) ==> gives(
            "**"@,
            s,
            a,
            n,
            v,
        ),
        !(0 <= n < 0x1_0000_0000) ==> does(
            "**"@,
            s.push(a).push(n),
            Step::Fail(s, ExecError::InvalidExponent),
        ),
{
    lemma_spellings();
    lemma_builtin_name("**"@);
    assert(below(s.push(a).push(n), 2) =~= s);
    law_powers(a, n);
    if 0 <= n < 0x1_0000_0000 && stands_for_integer(v, int_pow(a as int, n as nat)) {
        lemma_power(a, n);
        law_one_value_stands_for_an_integer(
            v,
            arith(ArithOp::Pow, a, n)->0,
            int_pow(a as int, n as nat),
        );
    }
}

/// Taking a value away and adding it again changes nothing.
pub proof fn law_minus_then_plus(s: Seq<Value>, a: Value, b: Value)
    ensures
        exists|v: Value| #[trigger] gives("-"@, s, a, b, v) && gives("+"@, s, v, b, a),
        exists|v: Value| #[trigger] gives("+"@, s, a, b, v) && gives("-"@, s, v, b, a),
{
    let less = arith(ArithOp::Sub, a, b)->0;
    let more = arith(ArithOp::Add, a, b)->0;
    law_sums_and_products(a, b);
    law_arithmetic_words(s, a, b, less);
    law_arithmetic_words(s, a, b, more);
    law_subtraction_undoes_addition(a, b);
    law_sums_and_products(less, b);
    law_sums_and_products(more, b);
    law_arithmetic_words(s, less, b, a);
    law_arithmetic_words(s, more, b, a);
    assert(gives("-"@, s, a, b, less) && gives("+"@, s, less, b, a));
    assert(gives("+"@, s, a, b, more) && gives("-"@, s, more, b, a));
}

/// `pick` copies the value at the distance that is on top; there is an error where there is none.
pub proof fn law_pick_word(s: Seq<Value>, n: Value)
    requires
        s.len() <= usize::MAX,
    ensures
        1 <= n <= s.len() ==> does("pick"@, s.push(n), Step::Next(s.push(s[s.len() - n]))),
        !(1 <= n <= s.len()) ==> does("pick"@, s.push(n), Step::Fail(s, ExecError::InvalidPick)),
{
    lemma_spellings();
    assert(below(s.push(n), 1) =~= s);
}

/// `drop_range` takes values out from between those below and those above.
pub proof fn law_drop_range_word(
    low: Seq<Value>,
    gone: Seq<Value>,
    kept: Seq<Value>,
    start: Value,
    amt: Value,
)
    requires
        start == gone.len() + kept.len(),
        amt == gone.len(),
        start <= usize::MAX,
    ensures
        does("drop_range"@, (low + gone + kept).push(start).push(amt), Step::Next(low + kept)),
{
    lemma_spellings();
    lemma_builtin_name("drop_range"@);
    let s = low + gone + kept;
    assert(below(s.push(start).push(amt), 2) =~= s);
    assert(without_range(s, start as int, amt as int) =~= low + kept);
}

/// `drop_range` fails where the range is not one of the stack's, with what it has looked at gone.
pub proof fn law_drop_range_word_fails(s: Seq<Value>, start: Value, amt: Value)
    requires
        s.len() <= usize::MAX,
        !(0 <= amt <= start <= s.len()),
        amt <= usize::MAX,
    ensures
        does(
            "drop_range"@,
            s.push(start).push(amt),
            Step::Fail(
                if amt < 0 {
                    s.push(start)
                } else {
                    s
                },
                ExecError::InvalidDropRange,
            ),
        ),
{
    lemma_spellings();
    lemma_builtin_name("drop_range"@);
    assert(below(s.push(start).push(amt), 2) =~= s);
    assert(below(s.push(start).push(amt), 1) =~= s.push(start));
}

/// What the words ask of the world: with which operands, and what they leave on the stack.
pub proof fn law_effect_words(s: Seq<Value>, a: Value, v: Value, byte: u8)
    ensures
        does("print"@, s.push(a), Step::Perform(s, Effect::Print(a))),
        does("read8"@, s.push(a), Step::Perform(s, Effect::Read8(a))),
        does("read_native"@, s.push(a), Step::Perform(s, Effect::ReadNative(a))),
        does(
            "write8"@,
            s.push(a).push(byte as i64),
            Step::Perform(s, Effect::Write8 { addr: a, byte }),
        ),
        !(0 <= v < 256) ==> does("write8"@, s.push(v), Step::Fault { trapped: false }),
        does(
            "write_native"@,
            s.push(a).push(v),
            Step::Perform(s, Effect::WriteNative { addr: a, value: v }),
        ),
{
    lemma_spellings();
    lemma_builtin_name("read8"@);
    lemma_builtin_name("read_native"@);
    lemma_builtin_name("write8"@);
    lemma_builtin_name("write_native"@);
    assert(below(s.push(a), 1) =~= s);
    assert(below(s.push(a).push(v), 2) =~= s);
    assert(below(s.push(a).push(byte as i64), 2) =~= s);
}

/// `syscall` takes the number of the call and then its operands in the order in which they were
/// pushed.
pub proof fn law_syscall_word(
    s: Seq<Value>,
    number: Value,
    a1: Value,
    a2: Value,
    a3: Value,
    a4: Value,
    a5: Value,
    a6: Value,
)
    ensures
        does(
            "syscall"@,
            s + seq![number, a1, a2, a3, a4, a5, a6],
            Step::Perform(s, Effect::Syscall { number, a1, a2, a3, a4, a5, a6 }),
        ),
{
    lemma_spellings();
    lemma_builtin_name("syscall"@);
    let all = s + seq![number, a1, a2, a3, a4, a5, a6];
    assert(below(all, 7) =~= s);
}

/// `width_native` pushes the number of bits of a cell.
pub proof fn law_width_word(s: Seq<Value>)
    ensures
        does("width_native"@, s, Step::Next(s.push(64))),
        vstd::arithmetic::power2::pow2(64) == cell_count(),
{
    lemma_spellings();
    lemma_builtin_name("width_native"@);
    vstd::arithmetic::power2::lemma2_to64();
}

/// `if` goes on where it finds a value other than zero, and else passes over three instructions.
/// `skip` passes over as many as it is told to.
pub proof fn law_branch_words(s: Seq<Value>, v: Value)
    ensures
        does("if"@, s.push(0), Step::Skip(s, 3)),
        v != 0 ==> does("if"@, s.push(v), Step::Next(s)),
        0 <= v <= usize::MAX ==> does("skip"@, s.push(v), Step::Skip(s, v as nat)),
        v < 0 ==> does("skip"@, s.push(v), Step::Fail(s, ExecError::InvalidSkip)),
{
    lemma_spellings();
    assert(below(s.push(v), 1) =~= s);
    assert(below(s.push(0), 1) =~= s);
}

/// How many values each word needs.
pub proof fn law_words_run_short(s: Seq<Value>)
    ensures
        s.len() == 0 ==> {
            &&& runs_short("print"@, s)
            &&& runs_short("drop"@, s)
            &&& runs_short("pick"@, s)
            &&& runs_short("if"@, s)
            &&& runs_short("skip"@, s)
            &&& runs_short("read8"@, s)
            &&& runs_short("read_native"@, s)
            &&& runs_short("write8"@, s)
            &&& runs_short("drop_range"@, s)
        },
        s.len() == 1 && 0 <= s[0] < 256 ==> runs_short("write8"@, s),
        s.len() == 1 && 0 <= s[0] <= usize::MAX ==> runs_short("drop_range"@, s),
        s.len() < 2 ==> {
            &&& runs_short("swap"@, s)
            &&& runs_short("+"@, s)
            &&& runs_short("-"@, s)
            &&& runs_short("*"@, s)
            &&& runs_short("/"@, s)
            &&& runs_short("%"@, s)
            &&& runs_short("<"@, s)
            &&& runs_short("**"@, s)
            &&& runs_short("write_native"@, s)
        },
        s.len() < 3 ==> runs_short("rot"@, s),
        s.len() < 7 ==> runs_short("syscall"@, s),
{
    lemma_spellings();
    lemma_builtin_name("+"@);
    lemma_builtin_name("-"@);
    lemma_builtin_name("*"@);
    lemma_builtin_name("/"@);
    lemma_builtin_name("%"@);
    lemma_builtin_name("<"@);
    lemma_builtin_name("**"@);
    lemma_builtin_name("read8"@);
    lemma_builtin_name("read_native"@);
    lemma_builtin_name("write8"@);
    lemma_builtin_name("write_native"@);
    lemma_builtin_name("syscall"@);
    lemma_builtin_name("drop_range"@);
}

/// A number is pushed; any other text that is not reserved calls the function of that name.
pub proof fn law_numbers_and_names(word: Seq<char>, s: Seq<Value>)
    requires
        !is_reserved(word),
    ensures
        value_of_text(word) matches Some(v) ==> does(word, s, Step::Next(s.push(v))),
        value_of_text(word) is None ==> does(word, s, Step::Call(s, word)),
{
}

/// `:` and `;` are read as what starts and ends a definition, and nothing else is.
pub proof fn law_definition_words(word: Seq<char>, token: Token)
    requires
        reads_as(word, token),
    ensures
        word == ":"@ <==> token is Colon,
        word == ";"@ <==> token is Semicolon,
{
    lemma_spellings();
}

/// No two names stand for the same builtin.
pub proof fn law_builtins_differ(word: Seq<char>, other: Seq<char>)
    requires
        builtin_basic(word) is Some,
        builtin_basic(word) == builtin_basic(other),
    ensures
        word == other,
{
}

/// What has a meaning of its own, as a keyword or as a builtin.
pub proof fn law_builtin_names(word: Seq<char>)
    ensures
        builtin_basic(word) is Some <==> is_builtin_name(word),
        builtin_instr(word) is Some <==> is_builtin_name(word),
        is_reserved(word) ==> value_of_text(word) is None,
        !(is_keyword(word) && is_builtin_name(word)),
{
    lemma_spellings();
    if is_reserved(word) {
        lemma_no_number(word);
    }
}

} // verus!
