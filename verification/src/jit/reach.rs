//! Reaches: how far down into the stack a piece of code looks.
use std::collections::BTreeMap;

use vstd::prelude::*;

#[allow(unused_imports)]
use crate::jit::cfg::{
    goes_forward, leads_forward, leaves_forward, Function, FunctionModel, Next, Terminator,
    TerminatorModel,
};
#[allow(unused_imports)]
use crate::jit::delta::{instr_delta, num, Delta, GuessMap};
use crate::types::{BasicBlockInstr, MemOp};

verus! {

/// How many of the values that are on the stack at the start are looked at.
#[derive(Debug, Clone, Copy, PartialEq, Eq, Structural)]
pub enum Reach {
    Num(usize),
    /// There is no limit, or it is beyond all counting.
    Unbounded,
}

/// The reach that is a given number.
pub open spec fn reach_of(n: int) -> Reach {
    if n <= usize::MAX {
        Reach::Num(n as usize)
    } else {
        Reach::Unbounded
    }
}

/// The larger of two numbers.
pub open spec fn larger(a: int, b: int) -> int {
    if a < b {
        b
    } else {
        a
    }
}

/// The reach of a piece of code with reach `r1` and delta `d1` that one with reach `r2` follows.
pub open spec fn then_reach(r1: Reach, d1: Delta, r2: Reach) -> Reach {
    match d1 {
        Delta::Never => r1,
        Delta::Num(d) => match (r1, r2) {
            (Reach::Num(a), Reach::Num(b)) => reach_of(larger(a as int, b - d)),
            _ => Reach::Unbounded,
        },
    }
}

/// The reach of a branch.
pub open spec fn wider(r1: Reach, r2: Reach) -> Reach {
    match (r1, r2) {
        (Reach::Num(a), Reach::Num(b)) => Reach::Num(larger(a as int, b as int) as usize),
        _ => Reach::Unbounded,
    }
}

/// The reach of two pieces of code in a row, the first given with its delta.
pub fn combine_sequential_reaches(first: (Reach, Delta), r2: Reach) -> (r: Reach)
    ensures
        r == then_reach(first.0, first.1, r2),
{
    match first {
        (r1, Delta::Never) => r1,
        (Reach::Num(r1), Delta::Num(d1)) => match r2 {
            Reach::Num(r2) => {
                let below = if d1 >= 0 {
                    Some(r2.saturating_sub(d1 as usize))
                } else {
                    r2.checked_add((-(d1 + 1)) as usize + 1)
                };
                match below {
                    Some(n) => Reach::Num(
                        if r1 < n {
                            n
                        } else {
                            r1
                        },
                    ),
                    None => Reach::Unbounded,
                }
            },
            Reach::Unbounded => Reach::Unbounded,
        },
        (Reach::Unbounded, Delta::Num(_)) => Reach::Unbounded,
    }
}

/// The reach of a branch, from those of its two sides.
pub fn combine_branching_reaches(r1: Reach, r2: Reach) -> (r: Reach)
    ensures
        r == wider(r1, r2),
{
    match (r1, r2) {
        (Reach::Num(r1), Reach::Num(r2)) => Reach::Num(
            if r1 < r2 {
                r2
            } else {
                r1
            },
        ),
        _ => Reach::Unbounded,
    }
}

/// The reach of an instruction.
pub open spec fn instr_reach(instr: BasicBlockInstr, known: Map<Seq<char>, Reach>) -> Reach {
    match instr {
        BasicBlockInstr::Literal(_) => Reach::Num(0),
        BasicBlockInstr::FunctionCall(name) => if known.contains_key(name@) {
            known[name@]
        } else {
            Reach::Unbounded
        },
        BasicBlockInstr::Quit => Reach::Num(0),
        BasicBlockInstr::Print => Reach::Num(1),
        BasicBlockInstr::Syscall => Reach::Num(7),
        BasicBlockInstr::Drop => Reach::Num(1),
        BasicBlockInstr::Swap => Reach::Num(2),
        BasicBlockInstr::Rot => Reach::Num(3),
        BasicBlockInstr::BadDropRange => Reach::Unbounded,
        BasicBlockInstr::ResolvedDropRange { start, .. } => Reach::Num(start),
        BasicBlockInstr::BadPick => Reach::Unbounded,
        BasicBlockInstr::ResolvedPick(n) => Reach::Num(n),
        BasicBlockInstr::Arith(_) => Reach::Num(2),
        BasicBlockInstr::Mem(MemOp::Read8) => Reach::Num(1),
        BasicBlockInstr::Mem(MemOp::ReadNative) => Reach::Num(1),
        BasicBlockInstr::Mem(MemOp::Write8) => Reach::Num(2),
        BasicBlockInstr::Mem(MemOp::WriteNative) => Reach::Num(2),
        BasicBlockInstr::Mem(MemOp::WidthNative) => Reach::Num(0),
        BasicBlockInstr::Trap(_) => Reach::Num(0),
    }
}

impl BasicBlockInstr {
    /// The reach of the instruction.
    pub fn reach(&self, known: &GuessMap<Reach>) -> (r: Reach)
        requires
            known.wf(),
        ensures
            r == instr_reach(*self, known@),
    {
        match self {
            BasicBlockInstr::Literal(_) => Reach::Num(0),
            BasicBlockInstr::FunctionCall(name) => match known.lookup(name.as_str()) {
                Some(r) => *r,
                None => Reach::Unbounded,
            },
            BasicBlockInstr::Quit => Reach::Num(0),
            BasicBlockInstr::Print => Reach::Num(1),
            BasicBlockInstr::Syscall => Reach::Num(7),
            BasicBlockInstr::Drop => Reach::Num(1),
            BasicBlockInstr::Swap => Reach::Num(2),
            BasicBlockInstr::Rot => Reach::Num(3),
            BasicBlockInstr::BadDropRange => Reach::Unbounded,
            BasicBlockInstr::ResolvedDropRange { start, .. } => Reach::Num(*start),
            BasicBlockInstr::BadPick => Reach::Unbounded,
            BasicBlockInstr::ResolvedPick(n) => Reach::Num(*n),
            BasicBlockInstr::Arith(_) => Reach::Num(2),
            BasicBlockInstr::Mem(op) => match op {
                MemOp::Read8 | MemOp::ReadNative => Reach::Num(1),
                MemOp::Write8 | MemOp::WriteNative => Reach::Num(2),
                MemOp::WidthNative => Reach::Num(0),
            },
            BasicBlockInstr::Trap(_) => Reach::Num(0),
        }
    }
}

/// What is known of the functions that a piece of code calls.
pub struct Known {
    pub deltas: Map<Seq<char>, Delta>,
    pub reaches: Map<Seq<char>, Reach>,
}

/// The reach of an instruction that code with reach `rest` follows.
pub open spec fn instr_then(instr: BasicBlockInstr, rest: Reach, known: Known) -> Reach {
    match instr_delta(instr, known.deltas) {
        Some(d) => then_reach(instr_reach(instr, known.reaches), d, rest),
        None => Reach::Unbounded,
    }
}

/// The reach of the instructions from number `i` on, with code of reach `rest` behind them.
pub open spec fn body_reach(
    code: Seq<BasicBlockInstr>,
    i: int,
    rest: Reach,
    known: Known,
) -> Reach
    decreases code.len() - i,
{
    if i < 0 || i >= code.len() {
        rest
    } else {
        instr_then(code[i], body_reach(code, i + 1, rest, known), known)
    }
}

/// The reach from the block at `pos` on to the end of the function.
pub open spec fn path_reach(f: FunctionModel, pos: int, known: Known) -> Reach
    decreases f.length - pos, 3int, 0int,
{
    if !(0 <= pos < f.length && f.blocks.contains_key(pos as usize)) {
        Reach::Unbounded
    } else {
        let block = f.blocks[pos as usize];
        body_reach(block.code, 0, leaving_reach(f, pos, block.terminator, known), known)
    }
}

/// The reach of a terminator and all that follows it.
pub open spec fn leaving_reach(
    f: FunctionModel,
    pos: int,
    terminator: TerminatorModel,
    known: Known,
) -> Reach
    decreases f.length - pos, 2int, 0int,
{
    match terminator {
        TerminatorModel::Jump(next) => next_reach(f, pos, next, known),
        TerminatorModel::If { on_true, on_false } => then_reach(
            Reach::Num(1),
            num(-1),
            wider(next_reach(f, pos, on_true, known), next_reach(f, pos, on_false, known)),
        ),
        TerminatorModel::Skip { targets } => then_reach(
            Reach::Num(1),
            num(-1),
            targets_reach(f, pos, targets, known),
        ),
    }
}

/// The reach of going on at one of several places.
pub open spec fn targets_reach(
    f: FunctionModel,
    pos: int,
    targets: Seq<Next>,
    known: Known,
) -> Reach
    decreases f.length - pos, 1int, targets.len(),
{
    if targets.len() == 0 {
        Reach::Num(0)
    } else {
        wider(
            targets_reach(f, pos, targets.drop_last(), known),
            next_reach(f, pos, targets.last(), known),
        )
    }
}

/// The reach of going on at a place after the block at `pos`.
pub open spec fn next_reach(f: FunctionModel, pos: int, next: Next, known: Known) -> Reach
    decreases f.length - pos, 0int, 0int,
{
    match next {
        Next::Trap => Reach::Num(0),
        Next::Terminate => Reach::Num(0),
        Next::Block(p) => if pos < p < f.length {
            path_reach(f, p as int, known)
        } else {
            Reach::Unbounded
        },
    }
}

/// A reach as signatures hold it: one that is too large to add a delta to is as good as unbounded.
pub open spec fn limited(r: Reach) -> Reach {
    match r {
        Reach::Num(n) => if n <= isize::MAX {
            r
        } else {
            Reach::Unbounded
        },
        Reach::Unbounded => r,
    }
}

/// The reach of a function. An empty function looks at nothing.
pub open spec fn func_reach(f: FunctionModel, known: Known) -> Reach {
    if f.length == 0 {
        Reach::Num(0)
    } else {
        limited(path_reach(f, 0, known))
    }
}

/// Whether the reaches from the blocks at or after `pos` on are at hand.
pub open spec fn reaches_found(
    f: FunctionModel,
    pos: int,
    path_reaches: Map<usize, Reach>,
    known: Known,
) -> bool {
    forall|x: usize| #[trigger]
        f.blocks.contains_key(x) && pos <= x ==> path_reaches.contains_key(x) && path_reach(
            f,
            x as int,
            known,
        ) == path_reaches[x]
}

/// The reach of going on at a place, given those of the blocks after `pos`.
fn reach_from_next(
    f: &Function,
    pos: usize,
    next: &Next,
    path_reaches: &BTreeMap<usize, Reach>,
    known: Ghost<Known>,
) -> (r: Reach)
    requires
        leads_forward(f@, pos as int, *next),
        reaches_found(f@, pos + 1, path_reaches@, known@),
    ensures
        r == next_reach(f@, pos as int, *next, known@),
{
    match next {
        Next::Trap => Reach::Num(0),
        Next::Terminate => Reach::Num(0),
        Next::Block(p) => {
            assert(path_reaches@.contains_key(*p));
            *path_reaches.get(p).unwrap()
        },
    }
}

/// The reach of a terminator and all that follows it, given those of the blocks after `pos`.
fn find_leaving_reach(
    f: &Function,
    pos: usize,
    terminator: &Terminator,
    path_reaches: &BTreeMap<usize, Reach>,
    known: Ghost<Known>,
) -> (r: Reach)
    requires
        leaves_forward(f@, pos as int, terminator@),
        reaches_found(f@, pos + 1, path_reaches@, known@),
    ensures
        r == leaving_reach(f@, pos as int, terminator@, known@),
{
    match terminator {
        Terminator::Jump(next) => reach_from_next(f, pos, next, path_reaches, known),
        Terminator::If { on_true, on_false } => combine_sequential_reaches(
            (Reach::Num(1), Delta::Num(-1)),
            combine_branching_reaches(
                reach_from_next(f, pos, on_true, path_reaches, known),
                reach_from_next(f, pos, on_false, path_reaches, known),
            ),
        ),
        Terminator::Skip { targets } => {
            let mut total = Reach::Num(0);
            let mut k: usize = 0;
            while k < targets.len()
                invariant
                    k <= targets@.len(),
                    terminator@ == (TerminatorModel::Skip { targets: targets@ }),
                    forall|j: int|
                        0 <= j < targets@.len() ==> leads_forward(
                            f@,
                            pos as int,
                            #[trigger] targets@[j],
                        ),
                    reaches_found(f@, pos + 1, path_reaches@, known@),
                    targets_reach(f@, pos as int, targets@.take(k as int), known@) == total,
                decreases targets@.len() - k,
            {
                let ghost before = targets@.take(k as int);
                let r = reach_from_next(f, pos, &targets[k], path_reaches, known);
                total = combine_branching_reaches(total, r);
                k = k + 1;
                assert(targets@.take(k as int).drop_last() =~= before);
            }
            assert(targets@.take(k as int) =~= targets@);
            combine_sequential_reaches((Reach::Num(1), Delta::Num(-1)), total)
        },
    }
}

/// The reach of the instructions of a block, with code of reach `rest` behind them.
fn find_body_reach(
    code: &Vec<BasicBlockInstr>,
    rest: Reach,
    known_deltas: &GuessMap<Delta>,
    known_reaches: &GuessMap<Reach>,
) -> (r: Reach)
    requires
        known_deltas.wf(),
        known_reaches.wf(),
    ensures
        r == body_reach(
            code@,
            0,
            rest,
            (Known { deltas: known_deltas@, reaches: known_reaches@ }),
        ),
{
    let ghost known = Known { deltas: known_deltas@, reaches: known_reaches@ };
    let mut total = rest;
    let mut i: usize = code.len();
    while i > 0
        invariant
            known_deltas.wf(),
            known_reaches.wf(),
            known == (Known { deltas: known_deltas@, reaches: known_reaches@ }),
            i <= code@.len(),
            total == body_reach(code@, i as int, rest, known),
        decreases i,
    {
        i = i - 1;
        total =
        match code[i].delta(known_deltas) {
            Some(d) => combine_sequential_reaches((code[i].reach(known_reaches), d), total),
            None => Reach::Unbounded,
        };
    }
    total
}

/// The reach of a function, given the deltas and the reaches of the functions that it calls.
pub fn find_func_reach(
    f: &Function,
    known_deltas: &GuessMap<Delta>,
    known_reaches: &GuessMap<Reach>,
) -> (r: Reach)
    requires
        goes_forward(f@),
        known_deltas.wf(),
        known_reaches.wf(),
    ensures
        r == func_reach(f@, (Known { deltas: known_deltas@, reaches: known_reaches@ })),
{
    let known: Ghost<Known> = Ghost(Known { deltas: known_deltas@, reaches: known_reaches@ });
    let mut path_reaches: BTreeMap<usize, Reach> = BTreeMap::new();
    let mut pos: usize = f.length;
    while pos > 0
        invariant
            goes_forward(f@),
            known_deltas.wf(),
            known_reaches.wf(),
            known@ == (Known { deltas: known_deltas@, reaches: known_reaches@ }),
            pos <= f.length,
            reaches_found(f@, pos as int, path_reaches@, known@),
        decreases pos,
    {
        pos = pos - 1;
        if let Some(block) = f.blocks.get(&pos) {
            assert(f@.blocks.contains_key(pos));
            assert(f@.blocks[pos] == block@);
            let rest = find_leaving_reach(f, pos, &block.terminator, &path_reaches, known);
            let path = find_body_reach(&block.code, rest, known_deltas, known_reaches);
            assert(path == path_reach(f@, pos as int, known@));
            path_reaches.insert(pos, path);
        } else {
            assert(!f@.blocks.contains_key(pos));
        }
    }
    if f.length == 0 {
        Reach::Num(0)
    } else {
        assert(path_reaches@.contains_key(0usize));
        match path_reaches.get(&0).unwrap() {
            Reach::Num(n) => if *n <= isize::MAX as usize {
                Reach::Num(*n)
            } else {
                Reach::Unbounded
            },
            Reach::Unbounded => Reach::Unbounded,
        }
    }
}

} // verus!
