//! What becomes of a body: where it falls apart, which operands are joined, and that everything
//! that can be counted is.
use vstd::prelude::*;

#[allow(unused_imports)]
use crate::jit::analysis::{program_graphs, signatures, solved};
#[allow(unused_imports)]
use crate::jit::cfg::{
    analyzed, block_at, breaks_at, capped, ending, goes_forward, guarded, leads_forward,
    leaves_forward, literal_at, literal_distance, next_break, place, puts_break, resolved, resolved_at, starts_block, FunctionModel, Next,
    TerminatorModel,
};
#[allow(unused_imports)]
use crate::jit::compiler::{compiled_right, plans_of, CompiledFunction};
#[allow(unused_imports)]
use crate::jit::correct::compiled_program;
#[allow(unused_imports)]
use crate::jit::delta::{
    body_delta, func_delta, instr_delta, leaving_delta, next_delta, num, path_delta, plus,
    targets_delta, Delta,
};
#[allow(unused_imports)]
use crate::jit::plan::run_plan;
#[allow(unused_imports)]
use crate::jit::reach::{
    body_reach, func_reach, instr_reach, leaving_reach, next_reach, path_reach, Known, Reach,
};
#[allow(unused_imports)]
use crate::jit::reach_laws::{
    all_reach_evenly, law_compiled_call_comes_to_its_end, law_reach_of_a_switch, leaves_evenly,
    reaches_evenly,
};
#[allow(unused_imports)]
use crate::jit::sound::call_function;
use crate::names::NameMap;
#[allow(unused_imports)]
use crate::semantics::{is_index, Effect, Outcome, World};
#[allow(unused_imports)]
use crate::types::{BasicBlockInstr, Code, ControlFlowInstr, Instr, Value};

verus! {

/// Whether code goes straight on from its first instruction to its last.
pub open spec fn goes_straight(code: Seq<Instr>) -> bool {
    forall|i: int| 0 <= i < code.len() ==> #[trigger] code[i] is BBInstr
}

/// Whether an instruction can send control to `x`, going by the instruction alone.
pub open spec fn can_go_to(code: Seq<Instr>, i: int, x: int) -> bool {
    match code[i] {
        Instr::BBInstr(_) => x == i + 1,
        Instr::CFInstr(ControlFlowInstr::If) => x == i + 1 || x == i + 4,
        Instr::CFInstr(ControlFlowInstr::Skip) => i + 1 <= x,
    }
}

/// Code falls apart only where an instruction that decides what comes next stands right before, or
/// can send control there.
pub proof fn law_breaks_have_a_cause(code: Seq<Instr>, k: int, x: int)
    requires
        0 <= k <= code.len() < usize::MAX,
        x <= code.len(),
        breaks_at(code, k, x),
    ensures
        exists|i: int|
            0 <= i < k && i < x && #[trigger] code[i] is CFInstr && can_go_to(code, i, x),
    decreases k,
{
    if breaks_at(code, k - 1, x) {
        law_breaks_have_a_cause(code, k - 1, x);
        let i = choose|i: int|
            0 <= i < k - 1 && i < x && #[trigger] code[i] is CFInstr && can_go_to(code, i, x);
        assert(code[i] is CFInstr);
    } else {
        reveal_with_fuel(breaks_at, 2);
        assert(puts_break(code, k - 1, x));
        assert(code[k - 1] is CFInstr);
    }
}

/// A skip whose distance is the literal before it, with nothing that can come in between, breaks
/// code right behind itself and where it goes, and nowhere else.
pub proof fn law_known_skip_breaks_twice(code: Seq<Instr>, i: int, n: Value, x: int)
    requires
        0 < i < code.len() < usize::MAX,
        code[i] == Instr::CFInstr(ControlFlowInstr::Skip),
        code[i - 1] == Instr::BBInstr(BasicBlockInstr::Literal(n)),
        is_index(n),
        !breaks_at(code, i, i),
        0 <= x <= code.len(),
    ensures
        puts_break(code, i, x) <==> x == i + 1 || x == i + 1 + n,
{
}

/// A block that ends in such a skip goes on at one place, and takes the literal with it.
pub proof fn law_known_skip_is_a_jump(block: Seq<Instr>, start: int, length: int, n: Value)
    requires
        is_index(n),
        0 <= start,
        start + block.len() + 2 <= length <= usize::MAX,
    ensures
        ({
            let whole = block.push(Instr::BBInstr(BasicBlockInstr::Literal(n))).push(
                Instr::CFInstr(ControlFlowInstr::Skip),
            );
            let to = start + block.len() + 2 + n;
            ending(whole, start, length) == (
                2int,
                TerminatorModel::Jump(
                    if to < length {
                        Next::Block(to as usize)
                    } else if to == length {
                        Next::Terminate
                    } else {
                        Next::Trap
                    },
                ),
            )
        }),
{
}

proof fn lemma_no_breaks(code: Seq<Instr>, k: int, x: int)
    requires
        0 <= k <= code.len(),
        goes_straight(code),
    ensures
        !breaks_at(code, k, x),
    decreases k,
{
    if k > 0 {
        lemma_no_breaks(code, k - 1, x);
        assert(code[k - 1] is BBInstr);
        reveal_with_fuel(breaks_at, 2);
    }
}

proof fn lemma_no_next_break(code: Seq<Instr>, x: int)
    requires
        0 <= x <= code.len(),
        goes_straight(code),
    ensures
        next_break(code, x) == code.len(),
    decreases code.len() - x,
{
    if x < code.len() {
        lemma_no_breaks(code, code.len() as int, x);
        lemma_no_next_break(code, x + 1);
    }
}

/// Straight code is one block, which holds all of it and ends the function.
pub proof fn law_straight_code_is_one_block(code: Seq<Instr>, defined: Set<Seq<char>>)
    requires
        0 < code.len() <= usize::MAX,
        goes_straight(code),
    ensures
        forall|x: usize| #[trigger] analyzed(code, defined).blocks.contains_key(x) <==> x == 0,
        analyzed(code, defined).blocks[0].terminator == TerminatorModel::Jump(Next::Terminate),
        analyzed(code, defined).blocks[0].code == resolved(code, 0).map_values(
            |instr: Instr| guarded(instr, defined),
        ),
        analyzed(code, defined).length == code.len(),
{
    let f = analyzed(code, defined);
    assert forall|x: usize| #[trigger] f.blocks.contains_key(x) <==> x == 0 by {
        lemma_no_breaks(code, code.len() as int, x as int);
    }
    lemma_no_next_break(code, 1);
    let n = code.len() as int;
    assert(code.subrange(0, n) =~= code);
    assert(code.last() == code[n - 1]);
    assert(code.last() is BBInstr);
    assert(f.blocks.contains_key(0));
    assert(f.blocks[0] == block_at(code, defined, 0));
}

/// On straight code there is but one way.
pub proof fn law_straight_code_reaches_evenly(
    code: Seq<Instr>,
    defined: Set<Seq<char>>,
    known: Known,
)
    requires
        code.len() <= usize::MAX,
        goes_straight(code),
    ensures
        reaches_evenly(analyzed(code, defined), known),
{
    reveal(reaches_evenly);
    let f = analyzed(code, defined);
    if code.len() > 0 {
        law_straight_code_is_one_block(code, defined);
    }
}

/// A call in a program of straight code that comes to its end comes to the same end when it is
/// compiled: there were as many values on the stack as the signatures take.
pub proof fn law_straight_programs_compile(
    names: Seq<Seq<char>>,
    funcs: Map<Seq<char>, Code>,
    deltas: Map<Seq<char>, Delta>,
    reaches: Map<Seq<char>, Reach>,
    functions: NameMap<CompiledFunction>,
    reply: spec_fn(Seq<Effect>) -> Value,
    depth: nat,
    name: Seq<char>,
    w: World,
)
    requires
        solved(names, funcs, deltas, reaches),
        names.len() <= usize::MAX,
        forall|x: Seq<char>| #[trigger] funcs.contains_key(x) ==> names.contains(x),
        forall|x: Seq<char>| #[trigger] funcs.contains_key(x) ==> goes_straight(funcs[x]@),
        compiled_right(Ok(functions), names, funcs, signatures(deltas, reaches)),
        functions@.contains_key(name),
        call_function(funcs, Map::empty(), reply, depth, name, w) is Done,
    ensures
        run_plan(
            functions@[name].wrapper,
            Seq::empty(),
            w,
            compiled_program(plans_of(functions@), reply, depth),
        ) == Some(call_function(funcs, Map::empty(), reply, depth, name, w)),
{
    let known = Known { deltas, reaches };
    assert forall|x: Seq<char>| #[trigger]
        known.deltas.contains_key(x) && known.reaches[x] is Num implies reaches_evenly(
        program_graphs(funcs)[x],
        known,
    ) by {
        assert(deltas.dom().contains(x));
        assert(funcs.dom().contains(x));
        assert(funcs.contains_key(x));
        assert(funcs[x]@.len() == funcs[x].len());
        law_straight_code_reaches_evenly(funcs[x]@, funcs.dom(), known);
    }
    law_compiled_call_comes_to_its_end(
        names,
        funcs,
        deltas,
        reaches,
        functions,
        reply,
        depth,
        name,
        w,
    );
}

/// Operands are joined in the same way wherever code starts.
proof fn lemma_resolved_moves(before: Seq<Instr>, code: Seq<Instr>, i: int)
    requires
        0 <= i,
    ensures
        resolved(before + code, before.len() + i) == resolved(code, i),
    decreases code.len() - i,
{
    if i < code.len() {
        let both = before + code;
        let n = before.len() as int;
        assert(both[n + i] == code[i]);
        assert(i + 1 < code.len() ==> both[n + i + 1] == code[i + 1]);
        assert(i + 2 < code.len() ==> both[n + i + 2] == code[i + 2]);
        let (instr, taken) = resolved_at(code, i);
        assert(resolved_at(both, n + i) == (instr, taken));
        lemma_resolved_moves(before, code, i + taken);
        assert(n + i + taken == n + (i + taken));
    }
}

/// The instruction that pushes a number.
pub open spec fn pushes(n: Value) -> Instr {
    Instr::BBInstr(BasicBlockInstr::Literal(n))
}

/// `pick` is joined to the number before it, whatever number of a value that is.
pub proof fn law_pick_is_joined(n: Value, rest: Seq<Instr>)
    requires
        1 <= n <= usize::MAX,
    ensures
        resolved(seq![pushes(n), Instr::BBInstr(BasicBlockInstr::BadPick)] + rest, 0) == seq![
            Instr::BBInstr(BasicBlockInstr::ResolvedPick(n as usize)),
        ] + resolved(rest, 0),
{
    let before = seq![pushes(n), Instr::BBInstr(BasicBlockInstr::BadPick)];
    let code = before + rest;
    assert(code[0] == before[0] && code[1] == before[1]);
    lemma_resolved_moves(before, rest, 0);
}

/// `drop_range` is joined to the two numbers before it, if they are a range.
pub proof fn law_drop_range_is_joined(start: Value, amt: Value, rest: Seq<Instr>)
    requires
        0 <= amt <= start <= usize::MAX,
    ensures
        resolved(
            seq![pushes(start), pushes(amt), Instr::BBInstr(BasicBlockInstr::BadDropRange)] + rest,
            0,
        ) == seq![
            Instr::BBInstr(
                BasicBlockInstr::ResolvedDropRange { start: start as usize, amt: amt as usize },
            ),
        ] + resolved(rest, 0),
{
    let before = seq![pushes(start), pushes(amt), Instr::BBInstr(BasicBlockInstr::BadDropRange)];
    let code = before + rest;
    assert(code[0] == before[0] && code[1] == before[1] && code[2] == before[2]);
    lemma_resolved_moves(before, rest, 0);
}

/// Nothing else is joined to what follows it.
pub proof fn law_nothing_else_is_joined(instr: Instr, rest: Seq<Instr>)
    requires
        instr matches Instr::BBInstr(BasicBlockInstr::Literal(_)) ==> {
            &&& rest.len() > 0 ==> rest[0] != Instr::BBInstr(BasicBlockInstr::BadPick)
            &&& rest.len() > 1 ==> rest[1] != Instr::BBInstr(BasicBlockInstr::BadDropRange)
        },
    ensures
        resolved(seq![instr] + rest, 0) == seq![instr] + resolved(rest, 0),
{
    let before = seq![instr];
    let code = before + rest;
    assert(code[0] == instr);
    assert(rest.len() > 0 ==> code[1] == rest[0]);
    assert(rest.len() > 1 ==> code[2] == rest[1]);
    lemma_resolved_moves(before, rest, 0);
}

/// Whether the reach and the delta of an instruction are known, and not larger than `m`.
pub open spec fn is_measured(instr: BasicBlockInstr, known: Known, m: int) -> bool {
    &&& instr_reach(instr, known.reaches) matches Reach::Num(r) && r <= m
    &&& instr_delta(instr, known.deltas) is Some
    &&& instr_delta(instr, known.deltas) matches Some(Delta::Num(d)) ==> -m <= d <= m
}

/// The reach of code of any length is known if those of all its instructions are, and can be
/// counted together.
pub proof fn law_reach_is_counted(
    code: Seq<BasicBlockInstr>,
    i: int,
    rest: usize,
    known: Known,
    m: int,
)
    requires
        0 <= i <= code.len(),
        forall|j: int| i <= j < code.len() ==> is_measured(#[trigger] code[j], known, m),
        0 <= m,
        rest + (code.len() - i) * m <= isize::MAX,
    ensures
        body_reach(code, i, Reach::Num(rest), known) matches Reach::Num(n) && n <= rest + (code.len()
            - i) * m,
    decreases code.len() - i,
{
    if i < code.len() {
        let k = code.len() - i;
        assert(k * m == (k - 1) * m + m && (k - 1) * m >= 0) by (nonlinear_arith)
            requires
                k >= 1,
                m >= 0,
        ;
        assert(code.len() - (i + 1) == k - 1);
        assert(is_measured(code[i], known, m));
        law_reach_is_counted(code, i + 1, rest, known, m);
    } else {
        let k = code.len() - i;
        assert(k * m == 0) by (nonlinear_arith)
            requires
                k == 0,
        ;
    }
}

/// The same for its delta.
pub proof fn law_delta_is_counted(code: Seq<BasicBlockInstr>, n: int, known: Known, m: int)
    requires
        0 <= n <= code.len(),
        forall|j: int| 0 <= j < n ==> is_measured(#[trigger] code[j], known, m),
        0 <= m,
        n * m <= isize::MAX,
    ensures
        body_delta(code, n, known.deltas) is Some,
        body_delta(code, n, known.deltas) matches Some(Delta::Num(d)) ==> -(n * m) <= d <= n * m,
    decreases n,
{
    if n > 0 {
        assert(n * m == (n - 1) * m + m && (n - 1) * m >= 0) by (nonlinear_arith)
            requires
                n > 0,
                m >= 0,
        ;
        law_delta_is_counted(code, n - 1, known, m);
        assert(is_measured(code[n - 1], known, m));
    }
}

/// Straight code, of any length, has a delta and a reach if all its instructions do, and they can be
/// counted together.
pub proof fn law_straight_code_is_counted(
    code: Seq<Instr>,
    defined: Set<Seq<char>>,
    known: Known,
    m: int,
)
    requires
        code.len() <= usize::MAX,
        goes_straight(code),
        0 <= m,
        code.len() > 0 ==> ({
            let block = analyzed(code, defined).blocks[0].code;
            &&& forall|j: int| 0 <= j < block.len() ==> is_measured(#[trigger] block[j], known, m)
            &&& (block.len() + 1) * m <= isize::MAX
        }),
    ensures
        func_delta(analyzed(code, defined), known.deltas) is Some,
        func_reach(analyzed(code, defined), known) is Num,
        code.len() == 0 ==> func_delta(analyzed(code, defined), known.deltas) == Some(
            Delta::Num(0),
        ) && func_reach(analyzed(code, defined), known) == Reach::Num(0),
{
    let f = analyzed(code, defined);
    if code.len() > 0 {
        law_straight_code_is_one_block(code, defined);
        assert(f.blocks.contains_key(0));
        let block = f.blocks[0].code;
        let n = block.len() as int;
        assert((n + 1) * m == n * m + m && n * m >= 0) by (nonlinear_arith)
            requires
                n >= 0,
                m >= 0,
        ;
        law_reach_is_counted(block, 0, 0, known, m);
        assert(0 + n * m == n * m);
        law_delta_is_counted(block, n, known, m);
        assert(leaving_reach(f, 0, f.blocks[0].terminator, known) == Reach::Num(0));
        assert(leaving_delta(f, 0, f.blocks[0].terminator, known.deltas) == Some(Delta::Num(0)));
    }
}

/// Whether all blocks of a function are no longer than `l`, and all their instructions are measured.
pub open spec fn all_measured(f: FunctionModel, known: Known, l: int, m: int) -> bool {
    forall|x: usize| #[trigger]
        f.blocks.contains_key(x) ==> f.blocks[x].code.len() <= l && forall|j: int|
            0 <= j < f.blocks[x].code.len() ==> is_measured(
                #[trigger] f.blocks[x].code[j],
                known,
                m,
            )
}

proof fn lemma_path_is_counted(f: FunctionModel, pos: int, known: Known, l: int, m: int)
    requires
        goes_forward(f),
        all_measured(f, known, l, m),
        0 <= l,
        1 <= m,
        f.length * ((l + 1) * m) <= isize::MAX,
        0 <= pos < f.length,
        f.blocks.contains_key(pos as usize),
    ensures
        path_reach(f, pos, known) matches Reach::Num(n) && n <= (f.length - pos) * ((l + 1) * m),
    decreases f.length - pos, 1int,
{
    let c = (l + 1) * m;
    let k = f.length - pos;
    let block = f.blocks[pos as usize];
    let z = block.code.len() as int;
    assert(leaves_forward(f, pos, block.terminator));
    assert(c == l * m + m && z * m <= l * m && 0 <= z * m) by (nonlinear_arith)
        requires
            c == (l + 1) * m,
            0 <= z <= l,
            1 <= m,
    ;
    assert(k * c == (k - 1) * c + c && (k - 1) * c >= 0 && k * c <= f.length * c) by (nonlinear_arith)
        requires
            1 <= k <= f.length,
            c >= 0,
    ;
    let rest = leaving_reach(f, pos, block.terminator, known);
    assert(rest is Num && rest->Num_0 <= (k - 1) * c + 1) by {
        match block.terminator {
            TerminatorModel::Jump(next) => {
                lemma_next_is_counted(f, pos, next, known, l, m);
            },
            TerminatorModel::If { on_true, on_false } => {
                lemma_next_is_counted(f, pos, on_true, known, l, m);
                lemma_next_is_counted(f, pos, on_false, known, l, m);
            },
            TerminatorModel::Skip { targets } => {
                assert forall|j: int| 0 <= j < targets.len() implies (next_reach(
                    f,
                    pos,
                    #[trigger] targets[j],
                    known,
                ) matches Reach::Num(n) && n <= (k - 1) * c) by {
                    lemma_next_is_counted(f, pos, targets[j], known, l, m);
                }
                law_reach_of_a_switch(f, pos, targets, known);
            },
        }
    }
    assert(rest->Num_0 + (z - 0) * m <= k * c);
    law_reach_is_counted(block.code, 0, rest->Num_0, known, m);
}

proof fn lemma_next_is_counted(f: FunctionModel, pos: int, next: Next, known: Known, l: int, m: int)
    requires
        goes_forward(f),
        all_measured(f, known, l, m),
        0 <= l,
        1 <= m,
        f.length * ((l + 1) * m) <= isize::MAX,
        0 <= pos < f.length,
        leads_forward(f, pos, next),
    ensures
        next_reach(f, pos, next, known) matches Reach::Num(n) && n <= (f.length - pos - 1) * ((l + 1)
            * m),
    decreases f.length - pos, 0int,
{
    let c = (l + 1) * m;
    assert(c >= 0) by (nonlinear_arith)
        requires
            c == (l + 1) * m,
            l >= 0,
            m >= 1,
    ;
    let k = f.length - pos - 1;
    assert(k * c >= 0) by (nonlinear_arith)
        requires
            k >= 0,
            c >= 0,
    ;
    if let Next::Block(p) = next {
        lemma_path_is_counted(f, p as int, known, l, m);
        let j = f.length - p;
        assert(j * c <= k * c) by (nonlinear_arith)
            requires
                j <= k,
                c >= 0,
        ;
    }
}

/// A function of any shape has a limit to its reach if all its instructions do, and they can be
/// counted together.
pub proof fn law_functions_are_counted(f: FunctionModel, known: Known, l: int, m: int)
    requires
        goes_forward(f),
        all_measured(f, known, l, m),
        0 <= l,
        1 <= m,
        f.length * ((l + 1) * m) <= isize::MAX,
    ensures
        func_reach(f, known) matches Reach::Num(n) && n <= f.length * ((l + 1) * m),
{
    if f.length > 0 {
        lemma_path_is_counted(f, 0, known, l, m);
    }
}

/// A block starts at the beginning, and else only where an instruction that decides what comes next
/// can send control.
pub proof fn law_blocks_start_for_a_cause(code: Seq<Instr>, x: int)
    requires
        code.len() < usize::MAX,
        starts_block(code, x),
    ensures
        0 <= x < code.len(),
        x == 0 || exists|i: int|
            0 <= i < x && #[trigger] code[i] is CFInstr && can_go_to(code, i, x),
{
    if x != 0 {
        law_breaks_have_a_cause(code, code.len() as int, x);
        let i = choose|i: int|
            0 <= i < code.len() && i < x && #[trigger] code[i] is CFInstr && can_go_to(code, i, x);
        assert(code[i] is CFInstr);
    }
}

/// A block goes on to where the next one starts, or to the end.
pub proof fn law_blocks_end_at_the_next(code: Seq<Instr>, x: int)
    requires
        0 <= x <= code.len(),
    ensures
        x <= next_break(code, x) <= code.len(),
        next_break(code, x) < code.len() ==> breaks_at(
            code,
            code.len() as int,
            next_break(code, x),
        ),
        forall|y: int|
            x <= y < next_break(code, x) ==> !#[trigger] breaks_at(code, code.len() as int, y),
    decreases code.len() - x,
{
    if x < code.len() && !breaks_at(code, code.len() as int, x) {
        law_blocks_end_at_the_next(code, x + 1);
    }
}

/// The delta of a choice between places: the one that all of them have, besides those that have no
/// end.
pub proof fn law_delta_of_several(
    f: FunctionModel,
    pos: int,
    targets: Seq<Next>,
    known: Map<Seq<char>, Delta>,
    d: isize,
)
    requires
        forall|k: int|
            0 <= k < targets.len() ==> (#[trigger] next_delta(f, pos, targets[k], known) == Some(
                Delta::Num(d),
            ) || next_delta(f, pos, targets[k], known) == Some(Delta::Never)),
    ensures
        targets_delta(f, pos, targets, known) == Some(Delta::Num(d)) || targets_delta(
            f,
            pos,
            targets,
            known,
        ) == Some(Delta::Never),
        targets_delta(f, pos, targets, known) == Some(Delta::Never) <==> forall|k: int|
            0 <= k < targets.len() ==> #[trigger] next_delta(f, pos, targets[k], known) == Some(
                Delta::Never,
            ),
    decreases targets.len(),
{
    if targets.len() > 0 {
        let fewer = targets.drop_last();
        let end = targets.len() - 1;
        assert forall|k: int| 0 <= k < fewer.len() implies (#[trigger] next_delta(
            f,
            pos,
            fewer[k],
            known,
        ) == Some(Delta::Num(d)) || next_delta(f, pos, fewer[k], known) == Some(Delta::Never)) by {
            assert(fewer[k] == targets[k]);
            assert(next_delta(f, pos, targets[k], known) is Some);
        }
        law_delta_of_several(f, pos, fewer, known, d);
        assert(next_delta(f, pos, targets[end], known) is Some);
        assert(targets[end] == targets.last());
        if targets_delta(f, pos, targets, known) == Some(Delta::Never) {
            assert forall|k: int| 0 <= k < targets.len() implies #[trigger] next_delta(
                f,
                pos,
                targets[k],
                known,
            ) == Some(Delta::Never) by {
                if k < end {
                    assert(next_delta(f, pos, fewer[k], known) == Some(Delta::Never));
                }
            }
        }
        if forall|k: int|
            0 <= k < targets.len() ==> #[trigger] next_delta(f, pos, targets[k], known) == Some(
                Delta::Never,
            ) {
            assert forall|k: int| 0 <= k < fewer.len() implies #[trigger] next_delta(
                f,
                pos,
                fewer[k],
                known,
            ) == Some(Delta::Never) by {
                assert(next_delta(f, pos, targets[k], known) == Some(Delta::Never));
            }
        }
    }
}

/// From a block on, the height changes as the block changes it, by the value that decides where to
/// go, where there is a choice, and as what follows changes it.
pub proof fn law_delta_of_a_path(
    f: FunctionModel,
    pos: int,
    known: Map<Seq<char>, Delta>,
    a: isize,
    c: isize,
)
    requires
        0 <= pos < f.length <= usize::MAX,
        f.blocks.contains_key(pos as usize),
        ({
            let block = f.blocks[pos as usize];
            &&& body_delta(block.code, block.code.len() as int, known) == Some(Delta::Num(a))
            &&& leaving_delta(f, pos, block.terminator, known) == Some(Delta::Num(c))
        }),
    ensures
        ({
            let decided = if f.blocks[pos as usize].terminator is Jump {
                0int
            } else {
                1int
            };
            isize::MIN < a && isize::MIN <= a - decided + c <= isize::MAX ==> (path_delta(
                f,
                pos,
                known,
            ) matches Some(Delta::Num(d)) && d == a - decided + c)
        }),
{
}

/// Both sides of a branch change the height alike, or one of them has no end.
pub proof fn law_delta_of_a_branch(
    f: FunctionModel,
    pos: int,
    on_true: Next,
    on_false: Next,
    known: Map<Seq<char>, Delta>,
    d: Delta,
)
    requires
        next_delta(f, pos, on_true, known) == Some(d) || next_delta(f, pos, on_true, known) == Some(
            Delta::Never,
        ),
        next_delta(f, pos, on_false, known) == Some(d) || next_delta(f, pos, on_false, known)
            == Some(Delta::Never),
    ensures
        leaving_delta(f, pos, (TerminatorModel::If { on_true, on_false }), known) == Some(d)
            || leaving_delta(f, pos, (TerminatorModel::If { on_true, on_false }), known) == Some(
            Delta::Never,
        ),
        next_delta(f, pos, on_true, known) == Some(d) || next_delta(f, pos, on_false, known) == Some(
            d,
        ) ==> leaving_delta(f, pos, (TerminatorModel::If { on_true, on_false }), known) == Some(d),
        leaving_delta(f, pos, TerminatorModel::Jump(on_true), known) == next_delta(
            f,
            pos,
            on_true,
            known,
        ),
        next_delta(f, pos, Next::Terminate, known) == Some(Delta::Num(0)),
        next_delta(f, pos, Next::Trap, known) == Some(Delta::Never),
{
}

} // verus!
