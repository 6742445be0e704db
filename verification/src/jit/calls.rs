//! Calls: which functions a piece of code calls, and at what height of the stack.
use std::collections::BTreeMap;

use vstd::prelude::*;

#[allow(unused_imports)]
use crate::jit::cfg::{
    goes_forward, leads_forward, leaves_forward, Function, FunctionModel, Next, Terminator,
    TerminatorModel,
};
#[allow(unused_imports)]
use crate::jit::delta::{instr_delta, num, Delta, GuessMap};
use crate::names::NameMap;
use crate::types::BasicBlockInstr;

verus! {

/// A call: the number of the function that is called, and by how much the stack has grown since
/// the start.
pub type Call = (usize, isize);

/// Whether calls still have deltas that fit when the stack has grown by `d` before.
pub open spec fn shift_fits(c: Seq<Call>, d: isize) -> bool {
    forall|i: int| 0 <= i < c.len() ==> isize::MIN <= d + (#[trigger] c[i]).1 <= isize::MAX
}

/// The calls of a piece of code that is entered when the stack has grown by `d`.
pub open spec fn shifted(c: Seq<Call>, d: isize) -> Seq<Call> {
    c.map_values(|call: Call| (call.0, (d + call.1) as isize))
}

/// The calls of two pieces of code in a row, the first with delta `d1`; `None` if a delta does not
/// fit.
pub open spec fn then_calls(c1: Seq<Call>, d1: Delta, c2: Seq<Call>) -> Option<Seq<Call>> {
    match d1 {
        Delta::Never => Some(c1),
        Delta::Num(d) => if shift_fits(c2, d) {
            Some(c1 + shifted(c2, d))
        } else {
            None
        },
    }
}

/// The calls of two pieces of code in a row, the first given with its delta; `None` if a delta does
/// not fit.
pub fn combine_sequential_calls_with_deltas(first: (Vec<Call>, Delta), c2: Vec<Call>) -> (r: Option<
    Vec<Call>,
>)
    ensures
        r is Some <==> then_calls(first.0@, first.1, c2@) is Some,
        r matches Some(v) ==> then_calls(first.0@, first.1, c2@) == Some(v@),
{
    let (c1, d1) = first;
    match d1 {
        Delta::Never => Some(c1),
        Delta::Num(d) => {
            let mut result = c1;
            let mut i: usize = 0;
            while i < c2.len()
                invariant
                    first.0@ == c1@,
                    first.1 == Delta::Num(d),
                    i <= c2@.len(),
                    forall|j: int|
                        0 <= j < i ==> isize::MIN <= d + (#[trigger] c2@[j]).1 <= isize::MAX,
                    result@ == c1@ + shifted(c2@, d).take(i as int),
                decreases c2@.len() - i,
            {
                let (callee, at) = c2[i];
                match d.checked_add(at) {
                    Some(sum) => {
                        result.push((callee, sum));
                        assert(shifted(c2@, d).take(i + 1) =~= shifted(c2@, d).take(i as int).push(
                            (callee, sum),
                        ));
                        assert(result@ =~= c1@ + shifted(c2@, d).take(i + 1));
                    },
                    None => {
                        assert(!shift_fits(c2@, d)) by {
                            let call = c2@[i as int];
                        }
                        return None;
                    },
                }
                i = i + 1;
            }
            assert(shifted(c2@, d).take(c2@.len() as int) =~= shifted(c2@, d));
            Some(result)
        },
    }
}

/// The calls of both sides of a branch.
pub fn combine_branching_calls_with_deltas(c1: Vec<Call>, c2: Vec<Call>) -> (r: Vec<Call>)
    ensures
        r@ == c1@ + c2@,
{
    let mut result = c1;
    let mut more = c2;
    result.append(&mut more);
    result
}

/// The calls of an instruction to the functions with the given names.
pub open spec fn instr_calls(instr: BasicBlockInstr, names: Seq<Seq<char>>) -> Seq<Call> {
    match instr {
        BasicBlockInstr::FunctionCall(name) => if names.contains(name@) {
            seq![(names.index_of(name@) as usize, 0isize)]
        } else {
            Seq::empty()
        },
        _ => Seq::empty(),
    }
}

/// The calls of an instruction to the functions that are being analyzed.
pub fn basic_block_instr_to_calls_with_deltas(
    instr: &BasicBlockInstr,
    funcs_analyzed: &NameMap<Delta>,
) -> (r: Vec<Call>)
    requires
        funcs_analyzed.wf(),
    ensures
        r@ == instr_calls(*instr, funcs_analyzed.names()),
{
    let mut result: Vec<Call> = Vec::new();
    if let BasicBlockInstr::FunctionCall(name) = instr {
        proof {
            funcs_analyzed.lemma_names();
        }
        if let Some(i) = funcs_analyzed.position(name.as_str()) {
            result.push((i, 0));
            assert(funcs_analyzed.names()[i as int] == name@);
            assert(funcs_analyzed.names().index_of(name@) == i);
        } else {
            assert(!funcs_analyzed.names().contains(name@));
        }
    }
    assert(result@ =~= instr_calls(*instr, funcs_analyzed.names()));
    result
}

/// The calls of an instruction that code with the calls `rest` follows.
pub open spec fn instr_then_calls(
    instr: BasicBlockInstr,
    rest: Seq<Call>,
    known: Map<Seq<char>, Delta>,
    names: Seq<Seq<char>>,
) -> Option<Seq<Call>> {
    match instr_delta(instr, known) {
        Some(d) => then_calls(instr_calls(instr, names), d, rest),
        None => Some(Seq::empty()),
    }
}

/// The calls of the instructions from number `i` on, with code that has the calls `rest` behind
/// them.
pub open spec fn body_calls(
    code: Seq<BasicBlockInstr>,
    i: int,
    rest: Seq<Call>,
    known: Map<Seq<char>, Delta>,
    names: Seq<Seq<char>>,
) -> Option<Seq<Call>>
    decreases code.len() - i,
{
    if i < 0 || i >= code.len() {
        Some(rest)
    } else {
        match body_calls(code, i + 1, rest, known, names) {
            Some(c) => instr_then_calls(code[i], c, known, names),
            None => None,
        }
    }
}

/// The calls from the block at `pos` on to the end of the function; `None` if a delta does not fit.
pub open spec fn path_calls(
    f: FunctionModel,
    pos: int,
    known: Map<Seq<char>, Delta>,
    names: Seq<Seq<char>>,
) -> Option<Seq<Call>>
    decreases f.length - pos, 3int, 0int,
{
    if !(0 <= pos < f.length && f.blocks.contains_key(pos as usize)) {
        None
    } else {
        let block = f.blocks[pos as usize];
        match leaving_calls(f, pos, block.terminator, known, names) {
            Some(rest) => body_calls(block.code, 0, rest, known, names),
            None => None,
        }
    }
}

/// The calls after a terminator.
pub open spec fn leaving_calls(
    f: FunctionModel,
    pos: int,
    terminator: TerminatorModel,
    known: Map<Seq<char>, Delta>,
    names: Seq<Seq<char>>,
) -> Option<Seq<Call>>
    decreases f.length - pos, 2int, 0int,
{
    match terminator {
        TerminatorModel::Jump(next) => next_calls(f, pos, next, known, names),
        TerminatorModel::If { on_true, on_false } => match (
            next_calls(f, pos, on_true, known, names),
            next_calls(f, pos, on_false, known, names),
        ) {
            (Some(a), Some(b)) => then_calls(Seq::empty(), num(-1), a + b),
            _ => None,
        },
        TerminatorModel::Skip { targets } => match targets_calls(f, pos, targets, known, names) {
            Some(a) => then_calls(Seq::empty(), num(-1), a),
            None => None,
        },
    }
}

/// The calls of going on at one of several places.
pub open spec fn targets_calls(
    f: FunctionModel,
    pos: int,
    targets: Seq<Next>,
    known: Map<Seq<char>, Delta>,
    names: Seq<Seq<char>>,
) -> Option<Seq<Call>>
    decreases f.length - pos, 1int, targets.len(),
{
    if targets.len() == 0 {
        Some(Seq::empty())
    } else {
        match (
            targets_calls(f, pos, targets.drop_last(), known, names),
            next_calls(f, pos, targets.last(), known, names),
        ) {
            (Some(a), Some(b)) => Some(a + b),
            _ => None,
        }
    }
}

/// The calls of going on at a place after the block at `pos`.
pub open spec fn next_calls(
    f: FunctionModel,
    pos: int,
    next: Next,
    known: Map<Seq<char>, Delta>,
    names: Seq<Seq<char>>,
) -> Option<Seq<Call>>
    decreases f.length - pos, 0int, 0int,
{
    match next {
        Next::Trap => Some(Seq::empty()),
        Next::Terminate => Some(Seq::empty()),
        Next::Block(p) => if pos < p < f.length {
            path_calls(f, p as int, known, names)
        } else {
            None
        },
    }
}

/// Whether the deltas of all calls in a function fit.
pub open spec fn calls_fit(
    f: FunctionModel,
    known: Map<Seq<char>, Delta>,
    names: Seq<Seq<char>>,
) -> bool {
    forall|x: usize| #[trigger]
        f.blocks.contains_key(x) ==> path_calls(f, x as int, known, names) is Some
}

/// The calls of a function to those with the given names; `None` if a delta does not fit.
pub open spec fn func_calls(
    f: FunctionModel,
    known: Map<Seq<char>, Delta>,
    names: Seq<Seq<char>>,
) -> Option<Seq<Call>> {
    if !calls_fit(f, known, names) {
        None
    } else if f.length == 0 {
        Some(Seq::empty())
    } else {
        path_calls(f, 0, known, names)
    }
}

/// Whether the calls from the blocks at or after `pos` on are at hand.
pub open spec fn calls_found(
    f: FunctionModel,
    pos: int,
    found: Map<usize, Vec<Call>>,
    known: Map<Seq<char>, Delta>,
    names: Seq<Seq<char>>,
) -> bool {
    forall|x: usize| #[trigger]
        f.blocks.contains_key(x) && pos <= x ==> found.contains_key(x) && path_calls(
            f,
            x as int,
            known,
            names,
        ) == Some(found[x]@)
}

/// A copy of a list of calls.
fn copied(calls: &Vec<Call>) -> (r: Vec<Call>)
    ensures
        r@ == calls@,
{
    let mut result: Vec<Call> = Vec::new();
    let mut i: usize = 0;
    while i < calls.len()
        invariant
            i <= calls@.len(),
            result@ == calls@.take(i as int),
        decreases calls@.len() - i,
    {
        result.push(calls[i]);
        i = i + 1;
        assert(result@ =~= calls@.take(i as int));
    }
    assert(result@ =~= calls@);
    result
}

/// The calls of going on at a place, given those of the blocks after `pos`.
fn calls_with_deltas_from_next(
    f: &Function,
    pos: usize,
    next: &Next,
    found: &BTreeMap<usize, Vec<Call>>,
    known: Ghost<Map<Seq<char>, Delta>>,
    names: Ghost<Seq<Seq<char>>>,
) -> (r: Vec<Call>)
    requires
        leads_forward(f@, pos as int, *next),
        calls_found(f@, pos + 1, found@, known@, names@),
    ensures
        next_calls(f@, pos as int, *next, known@, names@) == Some(r@),
{
    match next {
        Next::Trap => Vec::new(),
        Next::Terminate => Vec::new(),
        Next::Block(p) => {
            assert(found@.contains_key(*p));
            copied(found.get(p).unwrap())
        },
    }
}

/// The calls after a terminator, given those of the blocks after `pos`.
fn find_leaving_calls(
    f: &Function,
    pos: usize,
    terminator: &Terminator,
    found: &BTreeMap<usize, Vec<Call>>,
    known: Ghost<Map<Seq<char>, Delta>>,
    names: Ghost<Seq<Seq<char>>>,
) -> (r: Option<Vec<Call>>)
    requires
        leaves_forward(f@, pos as int, terminator@),
        calls_found(f@, pos + 1, found@, known@, names@),
    ensures
        r is Some <==> leaving_calls(f@, pos as int, terminator@, known@, names@) is Some,
        r matches Some(v) ==> leaving_calls(f@, pos as int, terminator@, known@, names@) == Some(v@),
{
    match terminator {
        Terminator::Jump(next) => Some(
            calls_with_deltas_from_next(f, pos, next, found, known, names),
        ),
        Terminator::If { on_true, on_false } => {
            let both = combine_branching_calls_with_deltas(
                calls_with_deltas_from_next(f, pos, on_true, found, known, names),
                calls_with_deltas_from_next(f, pos, on_false, found, known, names),
            );
            combine_sequential_calls_with_deltas((Vec::new(), Delta::Num(-1)), both)
        },
        Terminator::Skip { targets } => {
            let mut total: Vec<Call> = Vec::new();
            let mut k: usize = 0;
            while k < targets.len()
                invariant
                    k <= targets@.len(),
                    terminator@ == (TerminatorModel::Skip { targets: targets@ }),
                    forall|j: int|
                        0 <= j < targets@.len() ==> leads_forward(
                            f@,
                            pos as int,
                            #[trigger] targets@[j],
                        ),
                    calls_found(f@, pos + 1, found@, known@, names@),
                    targets_calls(f@, pos as int, targets@.take(k as int), known@, names@) == Some(
                        total@,
                    ),
                decreases targets@.len() - k,
            {
                let c = calls_with_deltas_from_next(f, pos, &targets[k], found, known, names);
                let ghost before = targets@.take(k as int);
                total = combine_branching_calls_with_deltas(total, c);
                k = k + 1;
                assert(targets@.take(k as int).drop_last() =~= before);
            }
            assert(targets@.take(k as int) =~= targets@);
            combine_sequential_calls_with_deltas((Vec::new(), Delta::Num(-1)), total)
        },
    }
}

/// The calls of the instructions of a block, with code that has the calls `rest` behind them.
fn find_body_calls(
    code: &Vec<BasicBlockInstr>,
    rest: Vec<Call>,
    known_deltas: &GuessMap<Delta>,
    funcs_analyzed: &NameMap<Delta>,
) -> (r: Option<Vec<Call>>)
    requires
        known_deltas.wf(),
        funcs_analyzed.wf(),
    ensures
        r is Some <==> body_calls(
            code@,
            0,
            rest@,
            known_deltas@,
            funcs_analyzed.names(),
        ) is Some,
        r matches Some(v) ==> body_calls(
            code@,
            0,
            rest@,
            known_deltas@,
            funcs_analyzed.names(),
        ) == Some(v@),
{
    let ghost names = funcs_analyzed.names();
    let ghost after = rest@;
    let mut total = rest;
    let mut i: usize = code.len();
    while i > 0
        invariant
            known_deltas.wf(),
            funcs_analyzed.wf(),
            names == funcs_analyzed.names(),
            after == rest@,
            i <= code@.len(),
            body_calls(code@, i as int, after, known_deltas@, names) == Some(total@),
        decreases i,
    {
        i = i - 1;
        let before = match code[i].delta(known_deltas) {
            Some(d) => combine_sequential_calls_with_deltas(
                (basic_block_instr_to_calls_with_deltas(&code[i], funcs_analyzed), d),
                total,
            ),
            None => Some(Vec::new()),
        };
        match before {
            Some(c) => {
                total = c;
            },
            None => {
                proof {
                    lemma_body_calls_stay_unfit(code@, 0, i as int, after, known_deltas@, names);
                }
                return None;
            },
        }
    }
    Some(total)
}

proof fn lemma_body_calls_stay_unfit(
    code: Seq<BasicBlockInstr>,
    i: int,
    k: int,
    rest: Seq<Call>,
    known: Map<Seq<char>, Delta>,
    names: Seq<Seq<char>>,
)
    requires
        0 <= i <= k < code.len(),
        body_calls(code, k, rest, known, names) is None,
    ensures
        body_calls(code, i, rest, known, names) is None,
    decreases k - i,
{
    if i < k {
        lemma_body_calls_stay_unfit(code, i + 1, k, rest, known, names);
    }
}

/// The calls of a function to those that are being analyzed, each with the delta at which it
/// stands; `None` if a delta does not fit.
pub fn find_func_calls_with_deltas(
    f: &Function,
    known_deltas: &GuessMap<Delta>,
    funcs_analyzed: &NameMap<Delta>,
) -> (r: Option<Vec<Call>>)
    requires
        goes_forward(f@),
        known_deltas.wf(),
        funcs_analyzed.wf(),
    ensures
        r is Some <==> func_calls(f@, known_deltas@, funcs_analyzed.names()) is Some,
        r matches Some(v) ==> func_calls(f@, known_deltas@, funcs_analyzed.names()) == Some(v@),
{
    let known: Ghost<Map<Seq<char>, Delta>> = Ghost(known_deltas@);
    let names: Ghost<Seq<Seq<char>>> = Ghost(funcs_analyzed.names());
    let mut found: BTreeMap<usize, Vec<Call>> = BTreeMap::new();
    let mut pos: usize = f.length;
    while pos > 0
        invariant
            goes_forward(f@),
            known_deltas.wf(),
            funcs_analyzed.wf(),
            known@ == known_deltas@,
            names@ == funcs_analyzed.names(),
            pos <= f.length,
            calls_found(f@, pos as int, found@, known@, names@),
        decreases pos,
    {
        pos = pos - 1;
        if let Some(block) = f.blocks.get(&pos) {
            assert(f@.blocks.contains_key(pos));
            assert(f@.blocks[pos] == block@);
            let path = match find_leaving_calls(f, pos, &block.terminator, &found, known, names) {
                Some(rest) => find_body_calls(&block.code, rest, known_deltas, funcs_analyzed),
                None => None,
            };
            match path {
                Some(c) => {
                    assert(path_calls(f@, pos as int, known@, names@) == Some(c@));
                    found.insert(pos, c);
                },
                None => {
                    assert(path_calls(f@, pos as int, known@, names@) is None);
                    return None;
                },
            }
        } else {
            assert(!f@.blocks.contains_key(pos));
        }
    }
    assert(calls_fit(f@, known@, names@));
    if f.length == 0 {
        Some(Vec::new())
    } else {
        assert(found@.contains_key(0usize));
        Some(copied(found.get(&0).unwrap()))
    }
}

} // verus!
