//! How deltas and reaches of a function depend on those of the functions that it calls.
use vstd::prelude::*;

#[allow(unused_imports)]
use crate::jit::calls::{
    body_calls, func_calls, instr_calls, instr_then_calls, leaving_calls, next_calls, path_calls,
    shifted, targets_calls, then_calls, Call,
};
#[allow(unused_imports)]
use crate::jit::cfg::{FunctionModel, Next, TerminatorModel};
#[allow(unused_imports)]
use crate::jit::delta::{
    body_delta, func_delta, instr_delta, next_delta, num, path_delta, targets_delta, Delta,
};
#[allow(unused_imports)]
use crate::jit::reach::{
    body_reach, func_reach, instr_reach, instr_then, leaving_reach, next_reach, path_reach,
    targets_reach, then_reach, wider, Known, Reach,
};
#[allow(unused_imports)]
use crate::types::BasicBlockInstr;

verus! {

/// Whether `b` is `a`, or says something where `a` leaves everything open.
pub open spec fn delta_below(a: Delta, b: Delta) -> bool {
    a is Never || a == b
}

/// The same for deltas that may be missing. A missing one is above all others.
pub open spec fn found_below(a: Option<Delta>, b: Option<Delta>) -> bool {
    match (a, b) {
        (_, None) => true,
        (Some(x), Some(y)) => delta_below(x, y),
        (None, Some(_)) => false,
    }
}

/// Whether `a` looks no further than `b`.
pub open spec fn reach_below(a: Reach, b: Reach) -> bool {
    match (a, b) {
        (_, Reach::Unbounded) => true,
        (Reach::Num(x), Reach::Num(y)) => x <= y,
        (Reach::Unbounded, Reach::Num(_)) => false,
    }
}

/// Whether each instruction of a function has a delta under `k2` that is above the one under `k1`.
pub open spec fn instrs_below(
    f: FunctionModel,
    k1: Map<Seq<char>, Delta>,
    k2: Map<Seq<char>, Delta>,
) -> bool {
    forall|x: usize, i: int|
        #![trigger f.blocks[x].code[i]]
        f.blocks.contains_key(x) && 0 <= i < f.blocks[x].code.len() ==> found_below(
            instr_delta(f.blocks[x].code[i], k1),
            instr_delta(f.blocks[x].code[i], k2),
        )
}

proof fn lemma_body_delta_monotone(
    f: FunctionModel,
    x: usize,
    n: int,
    k1: Map<Seq<char>, Delta>,
    k2: Map<Seq<char>, Delta>,
)
    requires
        instrs_below(f, k1, k2),
        f.blocks.contains_key(x),
        0 <= n <= f.blocks[x].code.len(),
    ensures
        found_below(body_delta(f.blocks[x].code, n, k1), body_delta(f.blocks[x].code, n, k2)),
    decreases n,
{
    if n > 0 {
        lemma_body_delta_monotone(f, x, n - 1, k1, k2);
        let instr = f.blocks[x].code[n - 1];
        assert(found_below(instr_delta(instr, k1), instr_delta(instr, k2)));
    }
}

proof fn lemma_path_delta_monotone(
    f: FunctionModel,
    pos: int,
    k1: Map<Seq<char>, Delta>,
    k2: Map<Seq<char>, Delta>,
)
    requires
        instrs_below(f, k1, k2),
    ensures
        found_below(path_delta(f, pos, k1), path_delta(f, pos, k2)),
    decreases f.length - pos, 2int, 0int,
{
    if 0 <= pos < f.length && f.blocks.contains_key(pos as usize) {
        let block = f.blocks[pos as usize];
        lemma_body_delta_monotone(f, pos as usize, block.code.len() as int, k1, k2);
        match block.terminator {
            TerminatorModel::Jump(next) => {
                lemma_next_delta_monotone(f, pos, next, k1, k2);
            },
            TerminatorModel::If { on_true, on_false } => {
                lemma_next_delta_monotone(f, pos, on_true, k1, k2);
                lemma_next_delta_monotone(f, pos, on_false, k1, k2);
            },
            TerminatorModel::Skip { targets } => {
                lemma_targets_delta_monotone(f, pos, targets, k1, k2);
            },
        }
    }
}

proof fn lemma_targets_delta_monotone(
    f: FunctionModel,
    pos: int,
    targets: Seq<Next>,
    k1: Map<Seq<char>, Delta>,
    k2: Map<Seq<char>, Delta>,
)
    requires
        instrs_below(f, k1, k2),
    ensures
        found_below(targets_delta(f, pos, targets, k1), targets_delta(f, pos, targets, k2)),
    decreases f.length - pos, 1int, targets.len(),
{
    if targets.len() > 0 {
        lemma_targets_delta_monotone(f, pos, targets.drop_last(), k1, k2);
        lemma_next_delta_monotone(f, pos, targets.last(), k1, k2);
    }
}

proof fn lemma_next_delta_monotone(
    f: FunctionModel,
    pos: int,
    next: Next,
    k1: Map<Seq<char>, Delta>,
    k2: Map<Seq<char>, Delta>,
)
    requires
        instrs_below(f, k1, k2),
    ensures
        found_below(next_delta(f, pos, next, k1), next_delta(f, pos, next, k2)),
    decreases f.length - pos, 0int, 0int,
{
    if let Next::Block(p) = next {
        if pos < p < f.length {
            lemma_path_delta_monotone(f, p as int, k1, k2);
        }
    }
}

/// The more is known of the deltas of the functions that it calls, the more is known of the delta
/// of a function.
pub proof fn law_func_delta_monotone(
    f: FunctionModel,
    k1: Map<Seq<char>, Delta>,
    k2: Map<Seq<char>, Delta>,
)
    requires
        instrs_below(f, k1, k2),
    ensures
        found_below(func_delta(f, k1), func_delta(f, k2)),
{
    assert forall|x: usize| #[trigger] f.blocks.contains_key(x) && path_delta(
        f,
        x as int,
        k2,
    ) is Some implies path_delta(f, x as int, k1) is Some by {
        lemma_path_delta_monotone(f, x as int, k1, k2);
    }
    lemma_path_delta_monotone(f, 0, k1, k2);
}

/// Whether each instruction of a function looks no further under `k1` than under `k2`.
pub open spec fn instr_reaches_below(f: FunctionModel, k1: Known, k2: Known) -> bool {
    forall|x: usize, i: int|
        #![trigger f.blocks[x].code[i]]
        f.blocks.contains_key(x) && 0 <= i < f.blocks[x].code.len() ==> instr_delta(
            f.blocks[x].code[i],
            k1.deltas,
        ) == instr_delta(f.blocks[x].code[i], k2.deltas) && reach_below(
            instr_reach(f.blocks[x].code[i], k1.reaches),
            instr_reach(f.blocks[x].code[i], k2.reaches),
        )
}

proof fn lemma_body_reach_monotone(
    f: FunctionModel,
    x: usize,
    i: int,
    r1: Reach,
    r2: Reach,
    k1: Known,
    k2: Known,
)
    requires
        instr_reaches_below(f, k1, k2),
        f.blocks.contains_key(x),
        0 <= i,
        reach_below(r1, r2),
    ensures
        reach_below(
            body_reach(f.blocks[x].code, i, r1, k1),
            body_reach(f.blocks[x].code, i, r2, k2),
        ),
    decreases f.blocks[x].code.len() - i,
{
    if i < f.blocks[x].code.len() {
        lemma_body_reach_monotone(f, x, i + 1, r1, r2, k1, k2);
        let instr = f.blocks[x].code[i];
        assert(reach_below(instr_reach(instr, k1.reaches), instr_reach(instr, k2.reaches)));
    }
}

proof fn lemma_path_reach_monotone(f: FunctionModel, pos: int, k1: Known, k2: Known)
    requires
        instr_reaches_below(f, k1, k2),
    ensures
        reach_below(path_reach(f, pos, k1), path_reach(f, pos, k2)),
    decreases f.length - pos, 2int, 0int,
{
    if 0 <= pos < f.length && f.blocks.contains_key(pos as usize) {
        let block = f.blocks[pos as usize];
        match block.terminator {
            TerminatorModel::Jump(next) => {
                lemma_next_reach_monotone(f, pos, next, k1, k2);
            },
            TerminatorModel::If { on_true, on_false } => {
                lemma_next_reach_monotone(f, pos, on_true, k1, k2);
                lemma_next_reach_monotone(f, pos, on_false, k1, k2);
            },
            TerminatorModel::Skip { targets } => {
                lemma_targets_reach_monotone(f, pos, targets, k1, k2);
            },
        }
        lemma_body_reach_monotone(
            f,
            pos as usize,
            0,
            leaving_reach(f, pos, block.terminator, k1),
            leaving_reach(f, pos, block.terminator, k2),
            k1,
            k2,
        );
    }
}

proof fn lemma_targets_reach_monotone(
    f: FunctionModel,
    pos: int,
    targets: Seq<Next>,
    k1: Known,
    k2: Known,
)
    requires
        instr_reaches_below(f, k1, k2),
    ensures
        reach_below(targets_reach(f, pos, targets, k1), targets_reach(f, pos, targets, k2)),
    decreases f.length - pos, 1int, targets.len(),
{
    if targets.len() > 0 {
        lemma_targets_reach_monotone(f, pos, targets.drop_last(), k1, k2);
        lemma_next_reach_monotone(f, pos, targets.last(), k1, k2);
    }
}

proof fn lemma_next_reach_monotone(f: FunctionModel, pos: int, next: Next, k1: Known, k2: Known)
    requires
        instr_reaches_below(f, k1, k2),
    ensures
        reach_below(next_reach(f, pos, next, k1), next_reach(f, pos, next, k2)),
    decreases f.length - pos, 0int, 0int,
{
    if let Next::Block(p) = next {
        if pos < p < f.length {
            lemma_path_reach_monotone(f, p as int, k1, k2);
        }
    }
}

/// The further the functions that it calls look, the further a function looks.
pub proof fn law_func_reach_monotone(f: FunctionModel, k1: Known, k2: Known)
    requires
        instr_reaches_below(f, k1, k2),
    ensures
        reach_below(func_reach(f, k1), func_reach(f, k2)),
{
    lemma_path_reach_monotone(f, 0, k1, k2);
}

/// Whether a piece of code with reach `r` looks at all that the function called by `call` does.
pub open spec fn covers_call(r: Reach, call: Call, known: Known, names: Seq<Seq<char>>) -> bool {
    &&& call.0 < names.len()
    &&& r matches Reach::Num(a) ==> {
        &&& known.reaches.contains_key(names[call.0 as int])
        &&& known.reaches[names[call.0 as int]] matches Reach::Num(b)
        &&& a >= b - call.1
    }
}

/// The same for several calls.
pub open spec fn covers(r: Reach, calls: Seq<Call>, known: Known, names: Seq<Seq<char>>) -> bool {
    forall|i: int| 0 <= i < calls.len() ==> covers_call(r, #[trigger] calls[i], known, names)
}

proof fn lemma_instr_covers(
    instr: BasicBlockInstr,
    r: Reach,
    c: Seq<Call>,
    known: Known,
    names: Seq<Seq<char>>,
)
    requires
        covers(r, c, known, names),
        instr_then_calls(instr, c, known.deltas, names) is Some,
        names.len() <= usize::MAX,
    ensures
        covers(
            instr_then(instr, r, known),
            instr_then_calls(instr, c, known.deltas, names)->0,
            known,
            names,
        ),
{
    let all = instr_then_calls(instr, c, known.deltas, names)->0;
    let own = instr_calls(instr, names);
    assert forall|i: int| 0 <= i < all.len() implies covers_call(
        instr_then(instr, r, known),
        #[trigger] all[i],
        known,
        names,
    ) by {
        match instr_delta(instr, known.deltas) {
            Some(d) => {
                if i < own.len() {
                    assert(all[i] == own[i]);
                    let name = instr->FunctionCall_0@;
                    assert(names.contains(name));
                    let at = names.index_of(name);
                    assert(0 <= at < names.len() && names[at] == name);
                } else {
                    let n = d->Num_0;
                    assert(all[i] == shifted(c, n)[i - own.len()]);
                    let call = c[i - own.len()];
                    assert(covers_call(r, call, known, names));
                }
            },
            None => {},
        }
    }
}

proof fn lemma_body_covers(
    code: Seq<BasicBlockInstr>,
    i: int,
    r: Reach,
    c: Seq<Call>,
    known: Known,
    names: Seq<Seq<char>>,
)
    requires
        covers(r, c, known, names),
        body_calls(code, i, c, known.deltas, names) is Some,
        names.len() <= usize::MAX,
        0 <= i,
    ensures
        covers(
            body_reach(code, i, r, known),
            body_calls(code, i, c, known.deltas, names)->0,
            known,
            names,
        ),
    decreases code.len() - i,
{
    if i < code.len() {
        lemma_body_covers(code, i + 1, r, c, known, names);
        lemma_instr_covers(
            code[i],
            body_reach(code, i + 1, r, known),
            body_calls(code, i + 1, c, known.deltas, names)->0,
            known,
            names,
        );
    }
}

proof fn lemma_pop_covers(r: Reach, c: Seq<Call>, known: Known, names: Seq<Seq<char>>)
    requires
        covers(r, c, known, names),
        then_calls(Seq::empty(), num(-1), c) is Some,
    ensures
        covers(
            then_reach(Reach::Num(1), num(-1), r),
            then_calls(Seq::empty(), num(-1), c)->0,
            known,
            names,
        ),
{
    let all = then_calls(Seq::empty(), num(-1), c)->0;
    assert forall|i: int| 0 <= i < all.len() implies covers_call(
        then_reach(Reach::Num(1), num(-1), r),
        #[trigger] all[i],
        known,
        names,
    ) by {
        assert(all[i] == shifted(c, (-1) as isize)[i]);
        assert(covers_call(r, c[i], known, names));
    }
}

proof fn lemma_wider_covers(
    r1: Reach,
    c1: Seq<Call>,
    r2: Reach,
    c2: Seq<Call>,
    known: Known,
    names: Seq<Seq<char>>,
)
    requires
        covers(r1, c1, known, names),
        covers(r2, c2, known, names),
    ensures
        covers(wider(r1, r2), c1 + c2, known, names),
{
    assert forall|i: int| 0 <= i < (c1 + c2).len() implies covers_call(
        wider(r1, r2),
        #[trigger] (c1 + c2)[i],
        known,
        names,
    ) by {
        if i < c1.len() {
            assert(covers_call(r1, c1[i], known, names));
        } else {
            assert(covers_call(r2, c2[i - c1.len()], known, names));
        }
    }
}

proof fn lemma_path_covers(f: FunctionModel, pos: int, known: Known, names: Seq<Seq<char>>)
    requires
        path_calls(f, pos, known.deltas, names) is Some,
        names.len() <= usize::MAX,
    ensures
        covers(
            path_reach(f, pos, known),
            path_calls(f, pos, known.deltas, names)->0,
            known,
            names,
        ),
    decreases f.length - pos, 2int, 0int,
{
    let block = f.blocks[pos as usize];
    let k = known.deltas;
    match block.terminator {
        TerminatorModel::Jump(next) => {
            lemma_next_covers(f, pos, next, known, names);
        },
        TerminatorModel::If { on_true, on_false } => {
            lemma_next_covers(f, pos, on_true, known, names);
            lemma_next_covers(f, pos, on_false, known, names);
            let (r1, c1) = (
                next_reach(f, pos, on_true, known),
                next_calls(f, pos, on_true, k, names)->0,
            );
            let (r2, c2) = (
                next_reach(f, pos, on_false, known),
                next_calls(f, pos, on_false, k, names)->0,
            );
            lemma_wider_covers(r1, c1, r2, c2, known, names);
            lemma_pop_covers(wider(r1, r2), c1 + c2, known, names);
        },
        TerminatorModel::Skip { targets } => {
            lemma_targets_covers(f, pos, targets, known, names);
            lemma_pop_covers(
                targets_reach(f, pos, targets, known),
                targets_calls(f, pos, targets, k, names)->0,
                known,
                names,
            );
        },
    }
    lemma_body_covers(
        block.code,
        0,
        leaving_reach(f, pos, block.terminator, known),
        leaving_calls(f, pos, block.terminator, k, names)->0,
        known,
        names,
    );
}

proof fn lemma_targets_covers(
    f: FunctionModel,
    pos: int,
    targets: Seq<Next>,
    known: Known,
    names: Seq<Seq<char>>,
)
    requires
        targets_calls(f, pos, targets, known.deltas, names) is Some,
        names.len() <= usize::MAX,
    ensures
        covers(
            targets_reach(f, pos, targets, known),
            targets_calls(f, pos, targets, known.deltas, names)->0,
            known,
            names,
        ),
    decreases f.length - pos, 1int, targets.len(),
{
    if targets.len() > 0 {
        lemma_targets_covers(f, pos, targets.drop_last(), known, names);
        lemma_next_covers(f, pos, targets.last(), known, names);
        lemma_wider_covers(
            targets_reach(f, pos, targets.drop_last(), known),
            targets_calls(f, pos, targets.drop_last(), known.deltas, names)->0,
            next_reach(f, pos, targets.last(), known),
            next_calls(f, pos, targets.last(), known.deltas, names)->0,
            known,
            names,
        );
    }
}

proof fn lemma_next_covers(
    f: FunctionModel,
    pos: int,
    next: Next,
    known: Known,
    names: Seq<Seq<char>>,
)
    requires
        next_calls(f, pos, next, known.deltas, names) is Some,
        names.len() <= usize::MAX,
    ensures
        covers(
            next_reach(f, pos, next, known),
            next_calls(f, pos, next, known.deltas, names)->0,
            known,
            names,
        ),
    decreases f.length - pos, 0int, 0int,
{
    if let Next::Block(p) = next {
        lemma_path_covers(f, p as int, known, names);
    }
}

/// A function looks at all that the functions it calls look at, as far as they look below the
/// values that it has put on the stack itself.
pub proof fn law_reach_covers_calls(f: FunctionModel, known: Known, names: Seq<Seq<char>>)
    requires
        func_calls(f, known.deltas, names) is Some,
        f.length > 0 ==> f.blocks.contains_key(0),
        names.len() <= usize::MAX,
    ensures
        covers(func_reach(f, known), func_calls(f, known.deltas, names)->0, known, names),
{
    if f.length > 0 {
        lemma_path_covers(f, 0, known, names);
    }
}

} // verus!
