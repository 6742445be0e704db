//! Control flow graphs: how the body of a function falls apart into basic blocks.
use std::collections::{BTreeMap, BTreeSet};

use vstd::prelude::*;

use crate::names::NameMap;
#[allow(unused_imports)]
use crate::semantics::{below, is_index, run_from, top, Outcome, Surroundings, World, IF_DISTANCE};
use crate::types::{BasicBlockInstr, Code, ControlFlowInstr, Instr, Value};

verus! {

/// How a block ends.
#[derive(Debug)]
pub enum Terminator {
    /// Control goes to one place.
    Jump(Next),
    /// A value is popped; control goes to one of two places, as it is zero or not.
    If { on_true: Next, on_false: Next },
    /// A value is popped and says which of the targets control goes to.
    Skip { targets: Vec<Next> },
}

/// A place that control can go to.
#[derive(Debug, Clone, Copy, PartialEq, Eq, Structural)]
pub enum Next {
    /// Past the end of the function.
    Trap,
    /// The end of the function.
    Terminate,
    /// The block that starts at this instruction.
    Block(usize),
}

/// A section of code without control flow: once its first instruction is carried out, all the
/// others follow in order.
#[derive(Debug)]
pub struct BasicBlock {
    pub code: Vec<BasicBlockInstr>,
    pub terminator: Terminator,
}

/// Control flow graph of a function. A block is named by the position of its first instruction, so
/// that block 0 is where the function starts, unless the function is empty.
#[derive(Debug)]
pub struct Function {
    pub blocks: BTreeMap<usize, BasicBlock>,
    /// The number of instructions in the body that the graph was made from.
    pub length: usize,
}

/// How a block ends, as a mathematical value.
pub enum TerminatorModel {
    Jump(Next),
    If { on_true: Next, on_false: Next },
    Skip { targets: Seq<Next> },
}

/// A block as a mathematical value.
pub struct BlockModel {
    pub code: Seq<BasicBlockInstr>,
    pub terminator: TerminatorModel,
}

/// A control flow graph as a mathematical value.
pub struct FunctionModel {
    pub blocks: Map<usize, BlockModel>,
    pub length: nat,
}

impl View for Terminator {
    type V = TerminatorModel;

    open spec fn view(&self) -> TerminatorModel {
        match *self {
            Terminator::Jump(next) => TerminatorModel::Jump(next),
            Terminator::If { on_true, on_false } => TerminatorModel::If { on_true, on_false },
            Terminator::Skip { targets } => TerminatorModel::Skip { targets: targets@ },
        }
    }
}

impl View for BasicBlock {
    type V = BlockModel;

    open spec fn view(&self) -> BlockModel {
        BlockModel { code: self.code@, terminator: self.terminator@ }
    }
}

impl View for Function {
    type V = FunctionModel;

    open spec fn view(&self) -> FunctionModel {
        FunctionModel {
            blocks: self.blocks@.map_values(|b: BasicBlock| b@),
            length: self.length as nat,
        }
    }
}

/// Positions beyond the largest `usize` are all alike: no function has them.
pub open spec fn capped(x: int) -> int {
    if x > usize::MAX {
        usize::MAX as int
    } else {
        x
    }
}

/// Whether the instructions before number `k` put a break at `x`.
pub open spec fn breaks_at(code: Seq<Instr>, k: int, x: int) -> bool
    decreases k, 0int,
{
    0 < k && (breaks_at(code, k - 1, x) || puts_break(code, k - 1, x))
}

/// Whether instruction number `i` puts a break at `x`.
///
/// A `skip` whose distance is the literal right before it goes to one place, provided that control
/// cannot come in between the two.
pub open spec fn puts_break(code: Seq<Instr>, i: int, x: int) -> bool
    decreases i, 1int,
{
    match code[i] {
        Instr::BBInstr(_) => false,
        Instr::CFInstr(ControlFlowInstr::If) => x == i + 1 || x == capped(i + 4),
        Instr::CFInstr(ControlFlowInstr::Skip) => match literal_distance(code, i) {
            Some(n) if !breaks_at(code, i, i) => x == i + 1 || x == capped(i + 1 + n),
            _ => i + 1 <= x <= code.len(),
        },
    }
}

/// The distance that a literal right before instruction number `i` gives it.
pub open spec fn literal_distance(code: Seq<Instr>, i: int) -> Option<int> {
    if i > 0 {
        match code[i - 1] {
            Instr::BBInstr(BasicBlockInstr::Literal(n)) if is_index(n) => Some(n as int),
            _ => None,
        }
    } else {
        None
    }
}

/// Whether a block starts at `x`.
pub open spec fn starts_block(code: Seq<Instr>, x: int) -> bool {
    0 <= x < code.len() && (x == 0 || breaks_at(code, code.len() as int, x))
}

/// The first break at or after `x`, or the end of the code.
pub open spec fn next_break(code: Seq<Instr>, x: int) -> int
    decreases code.len() - x,
{
    if x >= code.len() {
        code.len() as int
    } else if breaks_at(code, code.len() as int, x) {
        x
    } else {
        next_break(code, x + 1)
    }
}

/// Where control is at position `p` of a function of the given length.
pub open spec fn place(p: int, length: int) -> Next {
    if p < length {
        Next::Block(p as usize)
    } else if p == length {
        Next::Terminate
    } else {
        Next::Trap
    }
}

/// How a block ends that starts at position `start` of a function of the given length, and how many
/// of its instructions the ending takes up.
pub open spec fn ending(block: Seq<Instr>, start: int, length: int) -> (int, TerminatorModel) {
    let end = start + block.len();
    if block.len() == 0 {
        (0, TerminatorModel::Jump(place(end, length)))
    } else {
        match block.last() {
            Instr::BBInstr(_) => (0, TerminatorModel::Jump(place(end, length))),
            Instr::CFInstr(ControlFlowInstr::If) => (
                1,
                TerminatorModel::If {
                    on_true: place(end, length),
                    on_false: place(end + IF_DISTANCE, length),
                },
            ),
            Instr::CFInstr(ControlFlowInstr::Skip) => match literal_distance(
                block,
                block.len() - 1,
            ) {
                Some(n) => (2, TerminatorModel::Jump(place(end + n, length))),
                None => (
                    1,
                    TerminatorModel::Skip {
                        targets: Seq::new(
                            (length - end + 1) as nat,
                            |k: int| place(end + k, length),
                        ),
                    },
                ),
            },
        }
    }
}

/// Instructions from number `i` on, with `drop_range` and `pick` joined to their operands where
/// those are literals.
pub open spec fn resolved(code: Seq<Instr>, i: int) -> Seq<Instr>
    decreases code.len() - i,
{
    if i < 0 || i >= code.len() {
        Seq::empty()
    } else {
        match resolved_at(code, i) {
            (instr, n) => seq![instr] + resolved(code, i + n),
        }
    }
}

/// The instruction that stands at number `i` after resolution, and how many it stands for.
pub open spec fn resolved_at(code: Seq<Instr>, i: int) -> (Instr, int) {
    match code[i] {
        Instr::BBInstr(BasicBlockInstr::Literal(a)) if is_index(a) => {
            if i + 2 < code.len() && literal_at(code, i + 1) is Some && literal_at(
                code,
                i + 1,
            )->0 <= a && code[i + 2] == Instr::BBInstr(BasicBlockInstr::BadDropRange) {
                (
                    Instr::BBInstr(
                        BasicBlockInstr::ResolvedDropRange {
                            start: a as usize,
                            amt: literal_at(code, i + 1)->0 as usize,
                        },
                    ),
                    3,
                )
            } else if i + 1 < code.len() && a >= 1 && code[i + 1] == Instr::BBInstr(
                BasicBlockInstr::BadPick,
            ) {
                (Instr::BBInstr(BasicBlockInstr::ResolvedPick(a as usize)), 2)
            } else {
                (code[i], 1)
            }
        },
        instr => (instr, 1),
    }
}

/// The literal at number `i`, if there is one that can serve as a count.
pub open spec fn literal_at(code: Seq<Instr>, i: int) -> Option<Value> {
    match code[i] {
        Instr::BBInstr(BasicBlockInstr::Literal(n)) if is_index(n) => Some(n),
        _ => None,
    }
}

/// The code of the trap that stands for a call of a function that is not defined.
pub const UNDEFINED_CALLEE: u8 = 20;

/// An instruction with calls of undefined functions turned into traps.
pub open spec fn guarded(instr: Instr, defined: Set<Seq<char>>) -> BasicBlockInstr {
    match instr {
        Instr::BBInstr(BasicBlockInstr::FunctionCall(name)) => if defined.contains(name@) {
            BasicBlockInstr::FunctionCall(name)
        } else {
            BasicBlockInstr::Trap(UNDEFINED_CALLEE)
        },
        Instr::BBInstr(i) => i,
        Instr::CFInstr(_) => arbitrary(),
    }
}

/// The block that starts at `b`.
pub open spec fn block_at(code: Seq<Instr>, defined: Set<Seq<char>>, b: int) -> BlockModel {
    let e = next_break(code, b + 1);
    let (taken, terminator) = ending(code.subrange(b, e), b, code.len() as int);
    BlockModel {
        code: resolved(code.subrange(b, e - taken), 0).map_values(
            |instr: Instr| guarded(instr, defined),
        ),
        terminator,
    }
}

/// The control flow graph of a body.
pub open spec fn analyzed(code: Seq<Instr>, defined: Set<Seq<char>>) -> FunctionModel {
    FunctionModel {
        blocks: Map::new(
            |x: usize| starts_block(code, x as int),
            |x: usize| block_at(code, defined, x as int),
        ),
        length: code.len(),
    }
}

/// The positions at which the body of a function falls apart into blocks.
pub fn get_block_breaks_v2(func_code: &[Instr]) -> (r: BTreeSet<usize>)
    ensures
        forall|x: usize| #[trigger]
            r@.contains(x) <==> breaks_at(func_code@, func_code@.len() as int, x as int),
{
    let mut breaks: BTreeSet<usize> = BTreeSet::new();
    let length = func_code.len();
    let mut i: usize = 0;
    while i < length
        invariant
            length == func_code@.len(),
            i <= length,
            forall|x: usize| #[trigger]
                breaks@.contains(x) <==> breaks_at(func_code@, i as int, x as int),
        decreases length - i,
    {
        let ghost before = breaks@;
        match &func_code[i] {
            Instr::BBInstr(_) => {},
            Instr::CFInstr(ControlFlowInstr::If) => {
                breaks.insert(i + 1);
                breaks.insert(i.saturating_add(4));
            },
            Instr::CFInstr(ControlFlowInstr::Skip) => {
                let distance = if breaks.contains(&i) {
                    None
                } else {
                    known_distance(func_code, i)
                };
                match distance {
                    Some(n) => {
                        breaks.insert(i + 1);
                        breaks.insert((i + 1).saturating_add(n));
                    },
                    None => {
                        let mut x: usize = i;
                        while x < length
                            invariant
                                length == func_code@.len(),
                                i <= x <= length,
                                forall|y: usize| #[trigger]
                                    breaks@.contains(y) <==> before.contains(y) || i < y <= x,
                            decreases length - x,
                        {
                            x = x + 1;
                            breaks.insert(x);
                        }
                    },
                }
            },
        }
        assert forall|x: usize| #[trigger] breaks@.contains(x) <==> breaks_at(
            func_code@,
            i + 1,
            x as int,
        ) by {
            assert(before.contains(x) <==> breaks_at(func_code@, i as int, x as int));
            assert(before.contains(i) <==> breaks_at(func_code@, i as int, i as int));
            assert(breaks_at(func_code@, i + 1, x as int) <==> breaks_at(
                func_code@,
                i as int,
                x as int,
            ) || puts_break(func_code@, i as int, x as int));
        }
        i = i + 1;
    }
    breaks
}

/// The distance that a literal right before instruction number `i` gives it.
fn known_distance(code: &[Instr], i: usize) -> (r: Option<usize>)
    requires
        i < code@.len(),
    ensures
        r matches Some(n) ==> literal_distance(code@, i as int) == Some(n as int),
        r is None ==> literal_distance(code@, i as int) is None,
{
    if i > 0 {
        match &code[i - 1] {
            Instr::BBInstr(BasicBlockInstr::Literal(n)) => match usize::try_from(*n) {
                Ok(n) => Some(n),
                Err(_) => None,
            },
            _ => None,
        }
    } else {
        None
    }
}

/// Where control is at position `position` of a function of the given length.
fn get_next(position: usize, func_length: usize) -> (r: Next)
    ensures
        r == place(position as int, func_length as int),
{
    if position < func_length {
        Next::Block(position)
    } else if position == func_length {
        Next::Terminate
    } else {
        Next::Trap
    }
}

/// Where control is `distance` past position `position` of a function of the given length.
fn get_next_after(position: usize, distance: usize, func_length: usize) -> (r: Next)
    requires
        position <= func_length,
    ensures
        r == place(position + distance, func_length as int),
{
    if distance <= func_length - position {
        get_next(position + distance, func_length)
    } else {
        Next::Trap
    }
}

/// Takes the terminator off the end of a block.
pub fn extract_terminator(
    block_start: usize,
    block_code: &[Instr],
    func_length: usize,
) -> (r: (&[Instr], Terminator))
    requires
        block_start + block_code@.len() <= func_length,
    ensures
        ({
            let (taken, terminator) = ending(block_code@, block_start as int, func_length as int);
            &&& r.0@ == block_code@.take(block_code@.len() - taken)
            &&& r.1@ == terminator
        }),
{
    let n = block_code.len();
    let end = block_start + n;
    if n == 0 {
        assert(block_code@.take(0) =~= block_code@);
        return (block_code, Terminator::Jump(get_next(end, func_length)));
    }
    match &block_code[n - 1] {
        Instr::BBInstr(_) => {
            assert(block_code@.take(n as int) =~= block_code@);
            (block_code, Terminator::Jump(get_next(end, func_length)))
        },
        Instr::CFInstr(ControlFlowInstr::If) => (
            &block_code[0..n - 1],
            Terminator::If {
                on_true: get_next(end, func_length),
                on_false: get_next_after(end, IF_DISTANCE, func_length),
            },
        ),
        Instr::CFInstr(ControlFlowInstr::Skip) => match known_distance(block_code, n - 1) {
            Some(distance) => (
                &block_code[0..n - 2],
                Terminator::Jump(get_next_after(end, distance, func_length)),
            ),
            None => {
                let mut targets: Vec<Next> = Vec::new();
                let mut k: usize = 0;
                while k < func_length - end
                    invariant
                        k <= func_length - end,
                        end <= func_length,
                        targets@.len() == k,
                        forall|j: int|
                            0 <= j < k ==> #[trigger] targets@[j] == place(
                                end + j,
                                func_length as int,
                            ),
                    decreases func_length - end - k,
                {
                    targets.push(get_next(end + k, func_length));
                    k = k + 1;
                }
                targets.push(get_next(func_length, func_length));
                assert(targets@ =~= Seq::new(
                    (func_length - end + 1) as nat,
                    |k: int| place(end + k, func_length as int),
                ));
                (&block_code[0..n - 1], Terminator::Skip { targets })
            },
        },
    }
}

/// Joins `drop_range` and `pick` to their operands where those are literals.
pub fn resolve_drops_and_picks(block_code: &[Instr]) -> (r: Vec<Instr>)
    ensures
        r@ == resolved(block_code@, 0),
{
    let mut result: Vec<Instr> = Vec::new();
    let n = block_code.len();
    let mut i: usize = 0;
    while i < n
        invariant
            n == block_code@.len(),
            i <= n,
            result@ + resolved(block_code@, i as int) == resolved(block_code@, 0),
        decreases n - i,
    {
        let ghost before = result@;
        let ghost at = i as int;
        let (instr, count) = resolve_at(block_code, i);
        result.push(instr);
        i = i + count;
        assert(before + (seq![instr] + resolved(block_code@, i as int)) =~= result@ + resolved(
            block_code@,
            i as int,
        ));
    }
    assert(result@ + resolved(block_code@, n as int) =~= result@);
    result
}

/// The instruction that stands at number `i` after resolution, and how many it stands for.
fn resolve_at(code: &[Instr], i: usize) -> (r: (Instr, usize))
    requires
        i < code@.len(),
    ensures
        r.0 == resolved_at(code@, i as int).0,
        r.1 == resolved_at(code@, i as int).1,
        1 <= r.1 <= code@.len() - i,
{
    let left = code.len() - i;
    if let Instr::BBInstr(BasicBlockInstr::Literal(a)) = &code[i] {
        if let Ok(start) = usize::try_from(*a) {
            if left > 2 {
                if let Instr::BBInstr(BasicBlockInstr::BadDropRange) = &code[i + 2] {
                    if let Instr::BBInstr(BasicBlockInstr::Literal(b)) = &code[i + 1] {
                        if let Ok(amt) = usize::try_from(*b) {
                            if amt <= start {
                                return (
                                    Instr::BBInstr(
                                        BasicBlockInstr::ResolvedDropRange { start, amt },
                                    ),
                                    3,
                                );
                            }
                        }
                    }
                }
            }
            if left > 1 && start >= 1 {
                if let Instr::BBInstr(BasicBlockInstr::BadPick) = &code[i + 1] {
                    return (Instr::BBInstr(BasicBlockInstr::ResolvedPick(start)), 2);
                }
            }
        }
    }
    (code[i].clone(), 1)
}

/// A break that is there stays there.
pub proof fn lemma_breaks_grow(code: Seq<Instr>, k: int, k2: int, x: int)
    requires
        k <= k2,
        breaks_at(code, k, x),
    ensures
        breaks_at(code, k2, x),
    decreases k2 - k,
{
    if k < k2 {
        lemma_breaks_grow(code, k, k2 - 1, x);
    }
}

/// What one instruction puts stays until the end.
pub proof fn lemma_put(code: Seq<Instr>, i: int, x: int)
    requires
        0 <= i < code.len(),
        puts_break(code, i, x),
    ensures
        breaks_at(code, code.len() as int, x),
{
    assert(breaks_at(code, i + 1, x));
    lemma_breaks_grow(code, i + 1, code.len() as int, x);
}

/// The first break at or after `x` is one, or is the end; and there is none before it.
pub proof fn lemma_next_break(code: Seq<Instr>, x: int)
    requires
        x <= code.len(),
    ensures
        x <= next_break(code, x) <= code.len(),
        next_break(code, x) < code.len() ==> breaks_at(
            code,
            code.len() as int,
            next_break(code, x),
        ),
        forall|y: int| x <= y < next_break(code, x) ==> !breaks_at(code, code.len() as int, y),
    decreases code.len() - x,
{
    if x < code.len() && !breaks_at(code, code.len() as int, x) {
        lemma_next_break(code, x + 1);
    }
}

/// Only the last instruction of a block can be one of control flow.
pub proof fn lemma_block_is_straight(code: Seq<Instr>, b: int, i: int)
    requires
        0 <= b <= i < next_break(code, b + 1) - 1,
        b < code.len(),
    ensures
        code[i] is BBInstr,
{
    lemma_next_break(code, b + 1);
    if code[i] is CFInstr {
        assert(puts_break(code, i, i + 1));
        lemma_put(code, i, i + 1);
    }
}

/// Resolution leaves no control flow behind where there was none.
pub proof fn lemma_resolved_is_straight(code: Seq<Instr>, i: int)
    requires
        forall|j: int| 0 <= j < code.len() ==> code[j] is BBInstr,
        0 <= i,
    ensures
        forall|j: int| 0 <= j < resolved(code, i).len() ==> resolved(code, i)[j] is BBInstr,
    decreases code.len() - i,
{
    if i < code.len() {
        let (instr, n) = resolved_at(code, i);
        lemma_resolved_is_straight(code, i + n);
        assert forall|j: int| 0 <= j < resolved(code, i).len() implies resolved(
            code,
            i,
        )[j] is BBInstr by {
            if j > 0 {
                assert(resolved(code, i)[j] == resolved(code, i + n)[j - 1]);
            }
        }
    }
}

/// The instructions of a block, with calls of undefined functions turned into traps.
fn guard_calls(instrs: Vec<Instr>, defined: &NameMap<Code>) -> (r: Vec<BasicBlockInstr>)
    requires
        defined.wf(),
        forall|j: int| 0 <= j < instrs@.len() ==> instrs@[j] is BBInstr,
    ensures
        r@ == instrs@.map_values(|instr: Instr| guarded(instr, defined@.dom())),
{
    let mut result: Vec<BasicBlockInstr> = Vec::new();
    let mut i: usize = 0;
    while i < instrs.len()
        invariant
            defined.wf(),
            forall|j: int| 0 <= j < instrs@.len() ==> instrs@[j] is BBInstr,
            i <= instrs@.len(),
            result@.len() == i,
            forall|j: int|
                0 <= j < i ==> #[trigger] result@[j] == guarded(instrs@[j], defined@.dom()),
        decreases instrs@.len() - i,
    {
        if let Instr::BBInstr(instr) = &instrs[i] {
            let kept = match instr {
                BasicBlockInstr::FunctionCall(name) => {
                    if defined.contains_key(name.as_str()) {
                        instr.clone()
                    } else {
                        BasicBlockInstr::Trap(UNDEFINED_CALLEE)
                    }
                },
                _ => instr.clone(),
            };
            result.push(kept);
        }
        i = i + 1;
    }
    assert(result@ =~= instrs@.map_values(|instr: Instr| guarded(instr, defined@.dom())));
    result
}

/// The control flow graph of a body. It calls no function that is not defined.
pub fn raw_instrs_to_analyzed_function(defined: &NameMap<Code>, func_code: &[Instr]) -> (r: Function)
    requires
        defined.wf(),
    ensures
        r@ == analyzed(func_code@, defined@.dom()),
{
    let ghost code = func_code@;
    let ghost names = defined@.dom();
    let length = func_code.len();
    let breaks = get_block_breaks_v2(func_code);
    let mut blocks: BTreeMap<usize, BasicBlock> = BTreeMap::new();
    let mut start: usize = 0;
    while start < length
        invariant
            code == func_code@,
            names == defined@.dom(),
            defined.wf(),
            length == code.len(),
            start <= length,
            start < length ==> starts_block(code, start as int),
            forall|x: usize| #[trigger]
                breaks@.contains(x) <==> breaks_at(code, length as int, x as int),
            forall|x: usize| #[trigger]
                blocks@.contains_key(x) <==> x < start && starts_block(code, x as int),
            forall|x: usize| #[trigger]
                blocks@.contains_key(x) ==> blocks@[x]@ == block_at(code, names, x as int),
        decreases length - start,
    {
        let mut end: usize = start + 1;
        while end < length && !breaks.contains(&end)
            invariant
                length == code.len(),
                start < end <= length,
                forall|x: usize| #[trigger]
                    breaks@.contains(x) <==> breaks_at(code, length as int, x as int),
                next_break(code, start + 1) == next_break(code, end as int),
            decreases length - end,
        {
            assert(!breaks@.contains(end));
            end = end + 1;
        }
        proof {
            if end < length {
                assert(breaks@.contains(end));
            }
            lemma_next_break(code, start + 1);
        }
        assert(next_break(code, start + 1) == end);
        let whole = &func_code[start..end];
        let (body, terminator) = extract_terminator(start, whole, length);
        proof {
            assert forall|j: int| 0 <= j < body@.len() implies body@[j] is BBInstr by {
                assert(body@[j] == code[start + j]);
                if start + j < end - 1 {
                    lemma_block_is_straight(code, start as int, start + j);
                }
            }
            lemma_resolved_is_straight(body@, 0);
        }
        let block = BasicBlock {
            code: guard_calls(resolve_drops_and_picks(body), defined),
            terminator,
        };
        let ghost before = blocks@;
        blocks.insert(start, block);
        proof {
            let (taken, _) = ending(code.subrange(start as int, end as int), start as int, length as int);
            assert(body@ =~= code.subrange(start as int, end - taken));
            assert(block@ == block_at(code, names, start as int));
            assert forall|x: usize| #[trigger] blocks@.contains_key(x) <==> x < end
                && starts_block(code, x as int) by {
                if start < x < end {
                    assert(!breaks_at(code, length as int, x as int));
                }
                assert(before.contains_key(x) <==> x < start && starts_block(code, x as int));
            }
        }
        start = end;
    }
    let f = Function { blocks, length };
    assert(f@.blocks =~= analyzed(code, names).blocks);
    f
}

/// A run of a control flow graph from the block at `pos` on.
pub open spec fn run_path(f: FunctionModel, pos: int, w: World, env: Surroundings) -> Outcome
    decreases f.length - pos, 1int,
{
    if !(0 <= pos < f.length && f.blocks.contains_key(pos as usize)) {
        Outcome::Failed(w.log)
    } else {
        let block = f.blocks[pos as usize];
        match run_from(block.code, 0, w, env) {
            Outcome::Done(w2) => match chosen(block.terminator, w2) {
                Some((next, w3)) => run_next(f, pos, next, w3, env),
                None => unchosen(w2),
            },
            other => other,
        }
    }
}

/// How a run comes out whose terminator sends control nowhere: either there is no operand, or it
/// leads nowhere.
pub open spec fn unchosen(w: World) -> Outcome {
    if w.stack.len() < 1 {
        Outcome::Astray(w.log)
    } else {
        Outcome::Failed(w.log)
    }
}

/// Where a terminator sends control, and the world after it has popped what it needs.
pub open spec fn chosen(terminator: TerminatorModel, w: World) -> Option<(Next, World)> {
    let popped = World { stack: below(w.stack, 1), log: w.log };
    match terminator {
        TerminatorModel::Jump(next) => Some((next, w)),
        TerminatorModel::If { on_true, on_false } => if w.stack.len() < 1 {
            None
        } else if top(w.stack, 1) == 0 {
            Some((on_false, popped))
        } else {
            Some((on_true, popped))
        },
        TerminatorModel::Skip { targets } => if w.stack.len() < 1 {
            None
        } else if 0 <= top(w.stack, 1) < targets.len() {
            Some((targets[top(w.stack, 1) as int], popped))
        } else {
            None
        },
    }
}

/// A run that goes on at a place after the block at `pos`.
pub open spec fn run_next(
    f: FunctionModel,
    pos: int,
    next: Next,
    w: World,
    env: Surroundings,
) -> Outcome
    decreases f.length - pos, 0int,
{
    match next {
        Next::Trap => Outcome::Failed(w.log),
        Next::Terminate => Outcome::Done(w),
        Next::Block(p) => if pos < p < f.length {
            run_path(f, p as int, w, env)
        } else {
            Outcome::Failed(w.log)
        },
    }
}

/// A run of a whole control flow graph. An empty function does nothing.
pub open spec fn run_graph(f: FunctionModel, w: World, env: Surroundings) -> Outcome {
    if f.length == 0 {
        Outcome::Done(w)
    } else {
        run_path(f, 0, w, env)
    }
}

/// Whether control, leaving the block at `pos` for `next`, goes forward to a block that exists.
pub open spec fn leads_forward(f: FunctionModel, pos: int, next: Next) -> bool {
    match next {
        Next::Block(p) => pos < p < f.length && f.blocks.contains_key(p),
        _ => true,
    }
}

/// All the places that a terminator can send control to.
pub open spec fn leaves_forward(f: FunctionModel, pos: int, terminator: TerminatorModel) -> bool {
    match terminator {
        TerminatorModel::Jump(next) => leads_forward(f, pos, next),
        TerminatorModel::If { on_true, on_false } => leads_forward(f, pos, on_true)
            && leads_forward(f, pos, on_false),
        TerminatorModel::Skip { targets } => forall|k: int|
            0 <= k < targets.len() ==> leads_forward(f, pos, #[trigger] targets[k]),
    }
}

/// Control only ever goes forward, from block to block; and there is a first block unless the
/// function is empty.
pub open spec fn goes_forward(f: FunctionModel) -> bool {
    &&& f.length <= usize::MAX
    &&& f.length > 0 ==> f.blocks.contains_key(0)
    &&& forall|x: usize| #[trigger]
        f.blocks.contains_key(x) ==> x < f.length && leaves_forward(
            f,
            x as int,
            f.blocks[x].terminator,
        )
}

} // verus!
