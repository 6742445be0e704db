//! Where the body of a function falls apart, if all that decides it is to be known beforehand.
use std::collections::{BTreeMap, BTreeSet};

use vstd::prelude::*;
use vstd::slice::slice_subrange;

use crate::jit::compile::JITError;
#[allow(unused_imports)]
use crate::semantics::{is_index, IF_DISTANCE};
use crate::types::{BasicBlockInstr, ControlFlowInstr, Instr};
#[allow(unused_imports)]
use crate::types::Value;

verus! {

/// Whether one of the first `k` instructions puts a break before instruction number `x`.
pub open spec fn marked(code: Seq<Instr>, k: int, x: int) -> bool
    decreases k, 0int,
{
    k > 0 && (marked(code, k - 1, x) || marks(code, k - 1, x))
}

/// Whether instruction number `i` puts a break before instruction number `x`.
pub open spec fn marks(code: Seq<Instr>, i: int, x: int) -> bool
    decreases i, 2int,
{
    if i < 0 {
        false
    } else {
        match code[i] {
            Instr::CFInstr(ControlFlowInstr::If) => x == i + 1 || x == i + 1 + IF_DISTANCE,
            Instr::CFInstr(ControlFlowInstr::Skip) => match known_distance(code, i) {
                Some(n) => x == i + 1 + n,
                None => i + 1 <= x <= code.len(),
            },
            _ => false,
        }
    }
}

/// The distance of the skip at `i`, if a literal stands before it and nothing jumps in between.
pub open spec fn known_distance(code: Seq<Instr>, i: int) -> Option<Value>
    decreases i, 1int,
{
    if i > 0 && !marked(code, i, i) {
        match code[i - 1] {
            Instr::BBInstr(BasicBlockInstr::Literal(n)) => Some(n),
            _ => None,
        }
    } else {
        None
    }
}

/// What is wrong with instruction number `i`, if anything is.
pub open spec fn flaw(code: Seq<Instr>, i: int) -> Option<JITError> {
    match code[i] {
        Instr::CFInstr(ControlFlowInstr::If) => if i + 1 + IF_DISTANCE > code.len() {
            Some(JITError::IndeterminateControlFlow)
        } else {
            None
        },
        Instr::CFInstr(ControlFlowInstr::Skip) => match known_distance(code, i) {
            Some(n) => if !is_index(n) {
                Some(JITError::BadSkip)
            } else if i + 1 + n > code.len() {
                Some(JITError::IndeterminateControlFlow)
            } else {
                None
            },
            None => None,
        },
        _ => None,
    }
}

/// The first flaw among the first `k` instructions.
pub open spec fn first_flaw(code: Seq<Instr>, k: int) -> Option<JITError>
    decreases k,
{
    if k <= 0 {
        None
    } else {
        match first_flaw(code, k - 1) {
            Some(e) => Some(e),
            None => flaw(code, k - 1),
        }
    }
}

/// All that is marked lies behind something and within the body.
proof fn lemma_marked_within(code: Seq<Instr>, k: int, x: int)
    requires
        0 <= k <= code.len(),
        first_flaw(code, k) is None,
        marked(code, k, x),
    ensures
        0 < x <= code.len(),
    decreases k,
{
    if marked(code, k - 1, x) {
        lemma_marked_within(code, k - 1, x);
    } else {
        reveal_with_fuel(marked, 2);
        assert(marks(code, k - 1, x));
        assert(flaw(code, k - 1) is None);
    }
}

/// A flaw stays the first one.
proof fn lemma_flaw_stays(code: Seq<Instr>, k: int, n: int)
    requires
        0 <= k <= n,
        first_flaw(code, k) is Some,
    ensures
        first_flaw(code, n) == first_flaw(code, k),
    decreases n - k,
{
    if k < n {
        lemma_flaw_stays(code, k, n - 1);
    }
}

/// The distance of the skip at `i`, if a literal stands before it and nothing jumps in between.
fn find_known_distance(func: &[Instr], ret: &BTreeSet<usize>, i: usize) -> (r: Option<Value>)
    requires
        i < func@.len(),
        forall|x: usize| #[trigger] ret@.contains(x) <==> marked(func@, i as int, x as int),
    ensures
        r == known_distance(func@, i as int),
{
    if i > 0 && !ret.contains(&i) {
        if let Instr::BBInstr(BasicBlockInstr::Literal(n)) = &func[i - 1] {
            return Some(*n);
        }
    }
    None
}

/// The places before which the body of a function falls apart. It fails if control can leave the
/// body past its end, or a skip of a known distance leads backward.
pub fn get_block_breaks(func: &[Instr]) -> (r: Result<BTreeSet<usize>, JITError>)
    ensures
        r matches Err(e) ==> first_flaw(func@, func@.len() as int) == Some(e),
        r matches Ok(set) ==> first_flaw(func@, func@.len() as int) is None && forall|x: usize|
            #[trigger] set@.contains(x) <==> marked(func@, func@.len() as int, x as int),
        r matches Ok(set) ==> forall|x: usize| #[trigger]
            set@.contains(x) ==> 0 < x <= func@.len(),
{
    let ghost code = func@;
    let len: usize = func.len();
    let mut ret: BTreeSet<usize> = BTreeSet::new();
    let mut i: usize = 0;
    while i < len
        invariant
            code == func@,
            len == code.len(),
            i <= len,
            first_flaw(code, i as int) is None,
            forall|x: usize| #[trigger] ret@.contains(x) <==> marked(code, i as int, x as int),
        decreases len - i,
    {
        let ghost before = ret@;
        match &func[i] {
            Instr::CFInstr(ControlFlowInstr::If) => {
                if len - i <= IF_DISTANCE {
                    proof {
                        lemma_flaw_stays(code, i + 1, len as int);
                    }
                    return Err(JITError::IndeterminateControlFlow);
                }
                ret.insert(i + 1 + IF_DISTANCE);
                ret.insert(i + 1);
            },
            Instr::CFInstr(ControlFlowInstr::Skip) => match find_known_distance(func, &ret, i) {
                Some(n) => {
                    match usize::try_from(n) {
                        Ok(conv) => {
                            if conv >= len - i {
                                proof {
                                    lemma_flaw_stays(code, i + 1, len as int);
                                }
                                return Err(JITError::IndeterminateControlFlow);
                            }
                            ret.insert(i + 1 + conv);
                        },
                        Err(_) => {
                            proof {
                                lemma_flaw_stays(code, i + 1, len as int);
                            }
                            return Err(JITError::BadSkip);
                        },
                    }
                },
                None => {
                    let mut new: usize = i;
                    while new < len
                        invariant
                            i <= new <= len,
                            forall|x: usize| #[trigger]
                                ret@.contains(x) <==> before.contains(x) || i + 1 <= x <= new,
                        decreases len - new,
                    {
                        new = new + 1;
                        ret.insert(new);
                    }
                },
            },
            _ => {},
        }
        assert forall|x: usize| #[trigger] ret@.contains(x) <==> marked(code, i + 1, x as int) by {
            reveal_with_fuel(marked, 2);
            assert(before.contains(x) <==> marked(code, i as int, x as int));
        }
        i = i + 1;
    }
    assert forall|x: usize| #[trigger] ret@.contains(x) implies 0 < x <= code.len() by {
        lemma_marked_within(code, len as int, x as int);
    }
    Ok(ret)
}

/// The first break behind `x`, or the end.
pub open spec fn break_after(breaks: Set<usize>, x: int, len: int) -> int
    decreases len - x,
{
    if x >= len {
        len
    } else if breaks.contains((x + 1) as usize) {
        x + 1
    } else {
        break_after(breaks, x + 1, len)
    }
}

/// There is no break before the first one.
proof fn lemma_break_after(breaks: Set<usize>, x: int, br: int, len: int)
    requires
        0 <= x < br <= len <= usize::MAX,
        forall|y: usize| x < y < br ==> !breaks.contains(y),
        br == len || breaks.contains(br as usize),
    ensures
        break_after(breaks, x, len) == br,
    decreases br - x,
{
    if x + 1 < br {
        assert(!breaks.contains((x + 1) as usize));
        lemma_break_after(breaks, x + 1, br, len);
    } else if !breaks.contains(br as usize) {
        assert(break_after(breaks, len, len) == len);
    }
}

/// The first break behind `x` is a break, or the end; and no other break comes before it.
proof fn lemma_first_break(breaks: Set<usize>, x: int, len: int)
    requires
        0 <= x < len <= usize::MAX,
    ensures
        x < break_after(breaks, x, len) <= len,
        break_after(breaks, x, len) == len || breaks.contains(break_after(breaks, x, len) as usize),
        forall|y: usize| x < y <= len && #[trigger] breaks.contains(y) ==> break_after(
            breaks,
            x,
            len,
        ) <= y,
    decreases len - x,
{
    if !breaks.contains((x + 1) as usize) {
        if x + 1 < len {
            lemma_first_break(breaks, x + 1, len);
        } else {
            assert(break_after(breaks, x + 1, len) == len);
        }
        assert forall|y: usize| x < y <= len && #[trigger] breaks.contains(y) implies break_after(
            breaks,
            x,
            len,
        ) <= y by {
            assert(y != x + 1);
        }
    }
}

/// Whether a piece starts at `x` in which instruction number `i` lies.
pub open spec fn holds(breaks: Set<usize>, x: usize, i: int, len: int) -> bool {
    (x == 0 || breaks.contains(x)) && x <= i < break_after(breaks, x as int, len)
}

/// There is a piece in which an instruction lies.
proof fn lemma_some_piece(breaks: Set<usize>, i: int, len: int)
    requires
        0 <= i < len <= usize::MAX,
    ensures
        exists|x: usize| #[trigger] holds(breaks, x, i, len),
    decreases i,
{
    if i == 0 || breaks.contains(i as usize) {
        lemma_first_break(breaks, i, len);
        assert(holds(breaks, i as usize, i, len));
    } else {
        lemma_some_piece(breaks, i - 1, len);
        let x = choose|x: usize| #[trigger] holds(breaks, x, i - 1, len);
        lemma_first_break(breaks, x as int, len);
        assert(holds(breaks, x, i, len));
    }
}

/// Each instruction of a body lies in one of the pieces, and in no other.
pub proof fn law_pieces_cover(breaks: Set<usize>, i: int, len: int)
    requires
        0 <= i < len <= usize::MAX,
    ensures
        exists|x: usize| #[trigger] holds(breaks, x, i, len),
        forall|x: usize, y: usize| #[trigger]
            holds(breaks, x, i, len) && #[trigger] holds(breaks, y, i, len) ==> x == y,
{
    lemma_some_piece(breaks, i, len);
    assert forall|x: usize, y: usize| #[trigger]
        holds(breaks, x, i, len) && #[trigger] holds(breaks, y, i, len) implies x == y by {
        lemma_first_break(breaks, x as int, len);
        lemma_first_break(breaks, y as int, len);
    }
}

/// The pieces that a body falls into, each under the number of its first instruction.
pub fn breaks_to_slicemap<'a>(breaks: BTreeSet<usize>, line: &'a [Instr]) -> (r: BTreeMap<
    usize,
    &'a [Instr],
>)
    requires
        forall|x: usize| #[trigger] breaks@.contains(x) ==> x <= line@.len(),
    ensures
        forall|x: usize| #[trigger] r@.contains_key(x) <==> x == 0 || breaks@.contains(x),
        forall|x: usize| #[trigger]
            r@.contains_key(x) ==> r@[x]@ == line@.subrange(
                x as int,
                break_after(breaks@, x as int, line@.len() as int),
            ),
{
    let len: usize = line.len();
    let mut last: usize = 0;
    let mut res: BTreeMap<usize, &'a [Instr]> = BTreeMap::new();
    let mut br: usize = 0;
    while br < len
        invariant
            len == line@.len(),
            last <= br <= len,
            last == 0 || breaks@.contains(last),
            forall|y: usize| last < y <= br ==> !breaks@.contains(y),
            forall|x: usize| #[trigger]
                res@.contains_key(x) <==> x < last && (x == 0 || breaks@.contains(x)),
            forall|x: usize| #[trigger]
                res@.contains_key(x) ==> res@[x]@ == line@.subrange(
                    x as int,
                    break_after(breaks@, x as int, len as int),
                ),
        decreases len - br,
    {
        br = br + 1;
        if breaks.contains(&br) {
            proof {
                lemma_break_after(breaks@, last as int, br as int, len as int);
            }
            res.insert(last, slice_subrange(line, last, br));
            last = br;
        }
    }
    proof {
        if last < len {
            lemma_break_after(breaks@, last as int, len as int, len as int);
        }
    }
    res.insert(last, slice_subrange(line, last, len));
    res
}

} // verus!
