//! Deltas: by how much a piece of code changes the height of the stack.
use std::collections::BTreeMap;

use vstd::prelude::*;

#[allow(unused_imports)]
use crate::jit::cfg::{
    goes_forward, leads_forward, leaves_forward, Function, FunctionModel, Next, Terminator,
    TerminatorModel,
};
use crate::names::NameMap;
use crate::types::{BasicBlockInstr, MemOp};

verus! {

/// By how much the height of the stack changes.
#[derive(Debug, Clone, Copy, PartialEq, Eq, Structural)]
pub enum Delta {
    Num(isize),
    /// The end is never reached, so that any number will do.
    Never,
}

/// Values for the functions of one strongly connected component, still being guessed, on top of
/// those that are settled already.
pub struct GuessMap<'a, T> {
    pub guesses: NameMap<T>,
    pub already_resolved: &'a NameMap<T>,
}

impl<'a, T> View for GuessMap<'a, T> {
    type V = Map<Seq<char>, T>;

    open spec fn view(&self) -> Map<Seq<char>, T> {
        self.guesses@.union_prefer_right(self.already_resolved@)
    }
}

impl<'a, T> GuessMap<'a, T> {
    /// Both maps are sound.
    pub open spec fn wf(self) -> bool {
        self.guesses.wf() && self.already_resolved.wf()
    }

    /// The value for a function: the settled one if there is one, else the guess.
    pub fn lookup(&self, name: &str) -> (r: Option<&T>)
        requires
            self.wf(),
        ensures
            self@.contains_key(name@) ==> r == Some(&self@[name@]),
            !self@.contains_key(name@) ==> r is None,
    {
        match self.already_resolved.get(name) {
            Some(value) => Some(value),
            None => self.guesses.get(name),
        }
    }
}

/// The delta that is a given number.
pub open spec fn num(n: int) -> Delta {
    Delta::Num(n as isize)
}

/// The delta of two pieces of code in a row; `None` if it does not fit.
pub open spec fn plus(a: Delta, b: Delta) -> Option<Delta> {
    match (a, b) {
        (Delta::Num(x), Delta::Num(y)) => if isize::MIN <= x + y <= isize::MAX {
            Some(num(x + y))
        } else {
            None
        },
        _ => Some(Delta::Never),
    }
}

impl core::ops::Add for Delta {
    type Output = Delta;

    fn add(self, rhs: Delta) -> Delta {
        match (self, rhs) {
            (Delta::Num(a), Delta::Num(b)) => Delta::Num(a + b),
            _ => Delta::Never,
        }
    }
}

impl vstd::std_specs::ops::AddSpecImpl for Delta {
    open spec fn obeys_add_spec() -> bool {
        true
    }

    open spec fn add_req(self, rhs: Delta) -> bool {
        plus(self, rhs) is Some
    }

    open spec fn add_spec(self, rhs: Delta) -> Delta {
        plus(self, rhs)->0
    }
}

impl Delta {
    /// The delta of two pieces of code in a row; `None` if it does not fit.
    pub fn checked_add(self, rhs: Delta) -> (r: Option<Delta>)
        ensures
            r == plus(self, rhs),
    {
        match (self, rhs) {
            (Delta::Num(a), Delta::Num(b)) => match a.checked_add(b) {
                Some(c) => Some(Delta::Num(c)),
                None => None,
            },
            _ => Some(Delta::Never),
        }
    }
}

/// The delta of a branch, from those of its two sides; `None` if they do not agree.
pub open spec fn either(lhs: Delta, rhs: Delta) -> Option<Delta> {
    if lhs is Never {
        Some(rhs)
    } else if rhs is Never || lhs == rhs {
        Some(lhs)
    } else {
        None
    }
}

/// The delta of a branch, from those of its two sides; `None` if they do not agree.
pub fn combine_branching_deltas(lhs: Delta, rhs: Delta) -> (r: Option<Delta>)
    ensures
        r == either(lhs, rhs),
{
    match (lhs, rhs) {
        (Delta::Never, d) | (d, Delta::Never) => Some(d),
        (Delta::Num(d1), Delta::Num(d2)) => if d1 == d2 {
            Some(Delta::Num(d1))
        } else {
            None
        },
    }
}

/// The delta of what a terminator pops.
pub open spec fn additional_delta(terminator: TerminatorModel) -> int {
    match terminator {
        TerminatorModel::Jump(_) => 0,
        TerminatorModel::If { .. } => -1,
        TerminatorModel::Skip { .. } => -1,
    }
}

impl Terminator {
    /// The delta of popping the value that decides where control goes.
    pub fn get_additional_delta(&self) -> (r: Delta)
        ensures
            r == num(additional_delta(self@)),
    {
        match self {
            Terminator::Jump(_) => Delta::Num(0),
            Terminator::If { .. } => Delta::Num(-1),
            Terminator::Skip { .. } => Delta::Num(-1),
        }
    }
}

/// The delta of an instruction; `None` if it depends on the values that the instruction meets.
pub open spec fn instr_delta(instr: BasicBlockInstr, known: Map<Seq<char>, Delta>) -> Option<
    Delta,
> {
    match instr {
        BasicBlockInstr::Literal(_) => Some(num(1)),
        BasicBlockInstr::FunctionCall(name) => known.get(name@),
        BasicBlockInstr::Quit => Some(Delta::Never),
        BasicBlockInstr::Print => Some(num(-1)),
        BasicBlockInstr::Syscall => Some(num(-6)),
        BasicBlockInstr::Drop => Some(num(-1)),
        BasicBlockInstr::Swap => Some(num(0)),
        BasicBlockInstr::Rot => Some(num(0)),
        BasicBlockInstr::BadDropRange => None,
        BasicBlockInstr::ResolvedDropRange { amt, .. } => if amt <= isize::MAX {
            Some(num(-amt))
        } else {
            None
        },
        BasicBlockInstr::BadPick => None,
        BasicBlockInstr::ResolvedPick(_) => Some(num(1)),
        BasicBlockInstr::Arith(_) => Some(num(-1)),
        BasicBlockInstr::Mem(MemOp::Read8) => Some(num(0)),
        BasicBlockInstr::Mem(MemOp::ReadNative) => Some(num(0)),
        BasicBlockInstr::Mem(MemOp::Write8) => Some(num(-2)),
        BasicBlockInstr::Mem(MemOp::WriteNative) => Some(num(-2)),
        BasicBlockInstr::Mem(MemOp::WidthNative) => Some(num(1)),
        BasicBlockInstr::Trap(_) => Some(Delta::Never),
    }
}

impl BasicBlockInstr {
    /// The delta of the instruction; `None` if it depends on the values that the instruction meets.
    pub fn delta(&self, known: &GuessMap<Delta>) -> (r: Option<Delta>)
        requires
            known.wf(),
        ensures
            r == instr_delta(*self, known@),
    {
        match self {
            BasicBlockInstr::Literal(_) => Some(Delta::Num(1)),
            BasicBlockInstr::FunctionCall(name) => match known.lookup(name.as_str()) {
                Some(d) => Some(*d),
                None => None,
            },
            BasicBlockInstr::Quit => Some(Delta::Never),
            BasicBlockInstr::Print => Some(Delta::Num(-1)),
            BasicBlockInstr::Syscall => Some(Delta::Num(-6)),
            BasicBlockInstr::Drop => Some(Delta::Num(-1)),
            BasicBlockInstr::Swap => Some(Delta::Num(0)),
            BasicBlockInstr::Rot => Some(Delta::Num(0)),
            BasicBlockInstr::BadDropRange => None,
            BasicBlockInstr::ResolvedDropRange { amt, .. } => if *amt <= isize::MAX as usize {
                Some(Delta::Num(-(*amt as isize)))
            } else {
                None
            },
            BasicBlockInstr::BadPick => None,
            BasicBlockInstr::ResolvedPick(_) => Some(Delta::Num(1)),
            BasicBlockInstr::Arith(_) => Some(Delta::Num(-1)),
            BasicBlockInstr::Mem(op) => match op {
                MemOp::Read8 | MemOp::ReadNative => Some(Delta::Num(0)),
                MemOp::Write8 | MemOp::WriteNative => Some(Delta::Num(-2)),
                MemOp::WidthNative => Some(Delta::Num(1)),
            },
            BasicBlockInstr::Trap(_) => Some(Delta::Never),
        }
    }
}

/// The delta of the first `n` instructions. What stands after an instruction whose end is never
/// reached does not count.
pub open spec fn body_delta(
    code: Seq<BasicBlockInstr>,
    n: int,
    known: Map<Seq<char>, Delta>,
) -> Option<Delta>
    decreases n,
{
    if n <= 0 {
        Some(Delta::Num(0))
    } else {
        match body_delta(code, n - 1, known) {
            Some(Delta::Num(a)) => match instr_delta(code[n - 1], known) {
                Some(d) => plus(Delta::Num(a), d),
                None => None,
            },
            other => other,
        }
    }
}

/// The delta from the block at `pos` on to the end of the function.
pub open spec fn path_delta(f: FunctionModel, pos: int, known: Map<Seq<char>, Delta>) -> Option<
    Delta,
>
    decreases f.length - pos, 3int, 0int,
{
    if !(0 <= pos < f.length && f.blocks.contains_key(pos as usize)) {
        None
    } else {
        let block = f.blocks[pos as usize];
        match body_delta(block.code, block.code.len() as int, known) {
            Some(Delta::Num(a)) => match (
                plus(Delta::Num(a), num(additional_delta(block.terminator))),
                leaving_delta(f, pos, block.terminator, known),
            ) {
                (Some(b), Some(c)) => plus(b, c),
                _ => None,
            },
            other => other,
        }
    }
}

/// The delta after a terminator has popped what it needs.
pub open spec fn leaving_delta(
    f: FunctionModel,
    pos: int,
    terminator: TerminatorModel,
    known: Map<Seq<char>, Delta>,
) -> Option<Delta>
    decreases f.length - pos, 2int, 0int,
{
    match terminator {
        TerminatorModel::Jump(next) => next_delta(f, pos, next, known),
        TerminatorModel::If { on_true, on_false } => match (
            next_delta(f, pos, on_true, known),
            next_delta(f, pos, on_false, known),
        ) {
            (Some(a), Some(b)) => either(a, b),
            _ => None,
        },
        TerminatorModel::Skip { targets } => targets_delta(f, pos, targets, known),
    }
}

/// The delta of going on at one of several places.
pub open spec fn targets_delta(
    f: FunctionModel,
    pos: int,
    targets: Seq<Next>,
    known: Map<Seq<char>, Delta>,
) -> Option<Delta>
    decreases f.length - pos, 1int, targets.len(),
{
    if targets.len() == 0 {
        Some(Delta::Never)
    } else {
        match (
            targets_delta(f, pos, targets.drop_last(), known),
            next_delta(f, pos, targets.last(), known),
        ) {
            (Some(a), Some(b)) => either(a, b),
            _ => None,
        }
    }
}

/// The delta of going on at a place after the block at `pos`.
pub open spec fn next_delta(
    f: FunctionModel,
    pos: int,
    next: Next,
    known: Map<Seq<char>, Delta>,
) -> Option<Delta>
    decreases f.length - pos, 0int, 0int,
{
    match next {
        Next::Trap => Some(Delta::Never),
        Next::Terminate => Some(Delta::Num(0)),
        Next::Block(p) => if pos < p < f.length {
            path_delta(f, p as int, known)
        } else {
            None
        },
    }
}

/// Whether every block of a function has a delta.
pub open spec fn well_behaved(f: FunctionModel, known: Map<Seq<char>, Delta>) -> bool {
    forall|x: usize| #[trigger] f.blocks.contains_key(x) ==> path_delta(f, x as int, known) is Some
}

/// The delta of a function; `None` unless all of its blocks have one. An empty function changes
/// nothing.
pub open spec fn func_delta(f: FunctionModel, known: Map<Seq<char>, Delta>) -> Option<Delta> {
    if !well_behaved(f, known) {
        None
    } else if f.length == 0 {
        Some(Delta::Num(0))
    } else {
        path_delta(f, 0, known)
    }
}

/// The delta of all the instructions of a block, without its terminator.
fn find_body_delta(code: &Vec<BasicBlockInstr>, guess_map: &GuessMap<Delta>) -> (r: Option<Delta>)
    requires
        guess_map.wf(),
    ensures
        r == body_delta(code@, code@.len() as int, guess_map@),
{
    let mut total = Delta::Num(0);
    let mut i: usize = 0;
    while i < code.len()
        invariant
            guess_map.wf(),
            i <= code@.len(),
            total is Num,
            body_delta(code@, i as int, guess_map@) == Some(total),
        decreases code@.len() - i,
    {
        let sum = match code[i].delta(guess_map) {
            Some(d) => total.checked_add(d),
            None => None,
        };
        i = i + 1;
        match sum {
            Some(Delta::Num(n)) => {
                total = Delta::Num(n);
            },
            _ => {
                proof {
                    lemma_body_delta_is_settled(code@, i as int, code@.len() as int, guess_map@);
                }
                return sum;
            },
        }
    }
    Some(total)
}

/// Once the delta is no number, what follows does not matter.
pub proof fn lemma_body_delta_is_settled(
    code: Seq<BasicBlockInstr>,
    i: int,
    n: int,
    known: Map<Seq<char>, Delta>,
)
    requires
        i <= n,
        !(body_delta(code, i, known) matches Some(Delta::Num(_))),
    ensures
        body_delta(code, n, known) == body_delta(code, i, known),
    decreases n - i,
{
    if i < n {
        lemma_body_delta_is_settled(code, i, n - 1, known);
    }
}

/// Whether the deltas from the blocks at or after `pos` on are at hand.
pub open spec fn paths_found(
    f: FunctionModel,
    pos: int,
    path_deltas: Map<usize, Delta>,
    known: Map<Seq<char>, Delta>,
) -> bool {
    forall|x: usize| #[trigger]
        f.blocks.contains_key(x) && pos <= x ==> path_deltas.contains_key(x) && path_delta(
            f,
            x as int,
            known,
        ) == Some(path_deltas[x])
}

/// The delta of going on at a place, given those of the blocks after `pos`.
fn delta_from_next(
    f: &Function,
    pos: usize,
    next: &Next,
    path_deltas: &BTreeMap<usize, Delta>,
    known: Ghost<Map<Seq<char>, Delta>>,
) -> (r: Delta)
    requires
        leads_forward(f@, pos as int, *next),
        paths_found(f@, pos + 1, path_deltas@, known@),
    ensures
        next_delta(f@, pos as int, *next, known@) == Some(r),
{
    match next {
        Next::Trap => Delta::Never,
        Next::Terminate => Delta::Num(0),
        Next::Block(p) => {
            assert(path_deltas@.contains_key(*p));
            *path_deltas.get(p).unwrap()
        },
    }
}

/// The delta after a terminator has popped what it needs, given those of the blocks after `pos`.
fn find_leaving_delta(
    f: &Function,
    pos: usize,
    terminator: &Terminator,
    path_deltas: &BTreeMap<usize, Delta>,
    known: Ghost<Map<Seq<char>, Delta>>,
) -> (r: Option<Delta>)
    requires
        leaves_forward(f@, pos as int, terminator@),
        paths_found(f@, pos + 1, path_deltas@, known@),
    ensures
        r == leaving_delta(f@, pos as int, terminator@, known@),
{
    match terminator {
        Terminator::Jump(next) => Some(delta_from_next(f, pos, next, path_deltas, known)),
        Terminator::If { on_true, on_false } => combine_branching_deltas(
            delta_from_next(f, pos, on_true, path_deltas, known),
            delta_from_next(f, pos, on_false, path_deltas, known),
        ),
        Terminator::Skip { targets } => {
            let mut total = Delta::Never;
            let mut k: usize = 0;
            while k < targets.len()
                invariant
                    k <= targets@.len(),
                    terminator@ == (TerminatorModel::Skip { targets: targets@ }),
                    forall|j: int|
                        0 <= j < targets@.len() ==> leads_forward(
                            f@,
                            pos as int,
                            #[trigger] targets@[j],
                        ),
                    paths_found(f@, pos + 1, path_deltas@, known@),
                    targets_delta(f@, pos as int, targets@.take(k as int), known@) == Some(total),
                decreases targets@.len() - k,
            {
                let d = delta_from_next(f, pos, &targets[k], path_deltas, known);
                let ghost before = targets@.take(k as int);
                k = k + 1;
                assert(targets@.take(k as int).drop_last() =~= before);
                match combine_branching_deltas(total, d) {
                    Some(sum) => {
                        total = sum;
                    },
                    None => {
                        proof {
                            lemma_targets_stay_apart(
                                f@,
                                pos as int,
                                targets@,
                                k as int,
                                targets@.len() as int,
                                known@,
                            );
                            assert(targets@.take(targets@.len() as int) =~= targets@);
                        }
                        return None;
                    },
                }
            }
            assert(targets@.take(k as int) =~= targets@);
            Some(total)
        },
    }
}

/// Places that do not agree on a delta do so no better when more are added.
proof fn lemma_targets_stay_apart(
    f: FunctionModel,
    pos: int,
    targets: Seq<Next>,
    k: int,
    n: int,
    known: Map<Seq<char>, Delta>,
)
    requires
        0 <= k <= n <= targets.len(),
        targets_delta(f, pos, targets.take(k), known) is None,
    ensures
        targets_delta(f, pos, targets.take(n), known) is None,
    decreases n - k,
{
    if k < n {
        lemma_targets_stay_apart(f, pos, targets, k, n - 1, known);
        assert(targets.take(n).drop_last() =~= targets.take(n - 1));
    }
}

/// The delta of a function, given those of the functions that it calls.
pub fn find_func_delta(f: &Function, guess_map: &GuessMap<Delta>) -> (r: Option<Delta>)
    requires
        goes_forward(f@),
        guess_map.wf(),
    ensures
        r == func_delta(f@, guess_map@),
{
    let known: Ghost<Map<Seq<char>, Delta>> = Ghost(guess_map@);
    let mut path_deltas: BTreeMap<usize, Delta> = BTreeMap::new();
    let mut pos: usize = f.length;
    while pos > 0
        invariant
            goes_forward(f@),
            guess_map.wf(),
            known@ == guess_map@,
            pos <= f.length,
            paths_found(f@, pos as int, path_deltas@, known@),
        decreases pos,
    {
        pos = pos - 1;
        if let Some(block) = f.blocks.get(&pos) {
            assert(f@.blocks.contains_key(pos));
            assert(f@.blocks[pos] == block@);
            let body = match find_body_delta(&block.code, guess_map) {
                Some(body) => body,
                None => {
                    assert(path_delta(f@, pos as int, known@) is None);
                    return None;
                },
            };
            let path = match body {
                Delta::Never => Some(Delta::Never),
                Delta::Num(_) => {
                    let popped = body.checked_add(block.terminator.get_additional_delta());
                    let left = find_leaving_delta(f, pos, &block.terminator, &path_deltas, known);
                    match (popped, left) {
                        (Some(a), Some(b)) => a.checked_add(b),
                        _ => None,
                    }
                },
            };
            assert(path == path_delta(f@, pos as int, known@));
            match path {
                Some(d) => {
                    path_deltas.insert(pos, d);
                },
                None => {
                    return None;
                },
            }
        } else {
            assert(!f@.blocks.contains_key(pos));
        }
    }
    assert(well_behaved(f@, known@)) by {
        assert forall|x: usize| #[trigger] f@.blocks.contains_key(x) implies path_delta(
            f@,
            x as int,
            known@,
        ) is Some by {
            assert(path_deltas@.contains_key(x));
        }
    }
    if f.length == 0 {
        Some(Delta::Num(0))
    } else {
        assert(path_deltas@.contains_key(0usize));
        Some(*path_deltas.get(&0).unwrap())
    }
}

} // verus!
