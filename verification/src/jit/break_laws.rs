//! Where a body falls apart, and what can be wrong with it, if all that decides it is to be known
//! beforehand.
use vstd::prelude::*;

#[allow(unused_imports)]
use crate::jit::breaks::{break_after, first_flaw, flaw, known_distance, marked, marks};
#[allow(unused_imports)]
use crate::jit::compile::JITError;
#[allow(unused_imports)]
use crate::types::{BasicBlockInstr, ControlFlowInstr, Instr, Value};

verus! {

/// A place is marked just where one of the instructions marks it.
pub proof fn law_marks_have_a_cause(code: Seq<Instr>, k: int, x: int)
    requires
        0 <= k <= code.len(),
    ensures
        marked(code, k, x) <==> exists|i: int| 0 <= i < k && #[trigger] marks(code, i, x),
    decreases k,
{
    reveal_with_fuel(marked, 2);
    if k > 0 {
        law_marks_have_a_cause(code, k - 1, x);
        if marked(code, k, x) {
            if marked(code, k - 1, x) {
                let i = choose|i: int| 0 <= i < k - 1 && #[trigger] marks(code, i, x);
                assert(marks(code, i, x));
            } else {
                assert(marks(code, k - 1, x));
            }
        }
        if exists|i: int| 0 <= i < k && #[trigger] marks(code, i, x) {
            let i = choose|i: int| 0 <= i < k && #[trigger] marks(code, i, x);
            if i < k - 1 {
                assert(marks(code, i, x));
                assert(marked(code, k - 1, x));
            }
        }
    }
}

/// `if` marks the place behind itself and the one behind the three instructions that it can pass
/// over. `skip` marks the one place that it goes to, if a literal before it says which and control
/// cannot come in between; else all that come behind it. Nothing else marks any place.
pub proof fn law_what_marks(code: Seq<Instr>, i: int, x: int, n: Value)
    requires
        0 <= i < code.len(),
    ensures
        code[i] is BBInstr ==> !marks(code, i, x),
        code[i] == Instr::CFInstr(ControlFlowInstr::If) ==> (marks(code, i, x) <==> x == i + 1 || x
            == i + 4),
        code[i] == Instr::CFInstr(ControlFlowInstr::Skip) && i > 0 && code[i - 1] == Instr::BBInstr(
            BasicBlockInstr::Literal(n),
        ) && !marked(code, i, i) ==> (marks(code, i, x) <==> x == i + 1 + n),
        code[i] == Instr::CFInstr(ControlFlowInstr::Skip) && (i == 0 || marked(code, i, i) || !(code[
        i - 1] matches Instr::BBInstr(BasicBlockInstr::Literal(_)))) ==> (marks(code, i, x) <==> i + 1
            <= x <= code.len()),
{
}

/// What is wrong with a body: an `if` with fewer than three instructions behind it, or a skip of a
/// known distance that leads backward, or past the end.
pub proof fn law_what_is_a_flaw(code: Seq<Instr>, i: int, n: Value)
    requires
        0 <= i < code.len(),
    ensures
        code[i] is BBInstr ==> flaw(code, i) is None,
        code[i] == Instr::CFInstr(ControlFlowInstr::If) ==> flaw(code, i) == if code.len() - i < 4 {
            Some(JITError::IndeterminateControlFlow)
        } else {
            None
        },
        code[i] == Instr::CFInstr(ControlFlowInstr::Skip) && i > 0 && code[i - 1] == Instr::BBInstr(
            BasicBlockInstr::Literal(n),
        ) && !marked(code, i, i) ==> {
            &&& n < 0 ==> flaw(code, i) == Some(JITError::BadSkip)
            &&& code.len() - i <= n <= usize::MAX ==> flaw(code, i) == Some(
                JITError::IndeterminateControlFlow,
            )
            &&& 0 <= n < code.len() - i && n <= usize::MAX ==> flaw(code, i) is None
        },
        code[i] == Instr::CFInstr(ControlFlowInstr::Skip) && (i == 0 || marked(code, i, i) || !(code[
        i - 1] matches Instr::BBInstr(BasicBlockInstr::Literal(_)))) ==> flaw(code, i) is None,
{
}

/// The first flaw is one, and none comes before it; there is none just where no instruction has one.
pub proof fn law_first_flaw_comes_first(code: Seq<Instr>, k: int)
    requires
        0 <= k <= code.len(),
    ensures
        first_flaw(code, k) matches Some(e) ==> exists|i: int|
            0 <= i < k && #[trigger] flaw(code, i) == Some(e) && forall|j: int|
                0 <= j < i ==> #[trigger] flaw(code, j) is None,
        first_flaw(code, k) is None <==> forall|i: int|
            0 <= i < k ==> #[trigger] flaw(code, i) is None,
    decreases k,
{
    if k > 0 {
        law_first_flaw_comes_first(code, k - 1);
        match first_flaw(code, k - 1) {
            Some(e) => {
                let i = choose|i: int|
                    0 <= i < k - 1 && #[trigger] flaw(code, i) == Some(e) && forall|j: int|
                        0 <= j < i ==> #[trigger] flaw(code, j) is None;
                assert(flaw(code, i) == Some(e));
            },
            None => {
                if let Some(e) = flaw(code, k - 1) {
                    assert(flaw(code, k - 1) == Some(e));
                }
            },
        }
    }
}

/// A piece of a body goes on to the next break, or to the end, and no break lies within it.
pub proof fn law_piece_ends_at_a_break(breaks: Set<usize>, x: int, len: int)
    requires
        0 <= x < len <= usize::MAX,
    ensures
        x < break_after(breaks, x, len) <= len,
        break_after(breaks, x, len) == len || breaks.contains(break_after(breaks, x, len) as usize),
        forall|y: usize|
            x < y < break_after(breaks, x, len) ==> !#[trigger] breaks.contains(y),
    decreases len - x,
{
    if !breaks.contains((x + 1) as usize) {
        if x + 1 < len {
            law_piece_ends_at_a_break(breaks, x + 1, len);
        } else {
            assert(break_after(breaks, x + 1, len) == len);
        }
    }
}

} // verus!
