//! How high the stack is where a block starts.
use vstd::prelude::*;

#[allow(unused_imports)]
use crate::jit::cfg::{
    goes_forward, leads_forward, leaves_forward, FunctionModel, Next, TerminatorModel,
};
#[allow(unused_imports)]
use crate::jit::compile::{
    all_come_through, comes_through, is_trail, live_step, nexts, steps_on, trail_height,
};
#[allow(unused_imports)]
use crate::jit::delta::{
    body_delta, func_delta, leaving_delta, next_delta, path_delta, targets_delta, Delta,
};
#[allow(unused_imports)]
use crate::types::BasicBlockInstr;

verus! {

/// A stretch that can be gone through has an end.
proof fn lemma_body_comes_through(
    code: Seq<BasicBlockInstr>,
    n: int,
    deltas: Map<Seq<char>, Delta>,
)
    requires
        0 <= n <= code.len(),
        all_come_through(code, deltas),
    ensures
        !(body_delta(code, n, deltas) matches Some(Delta::Never)),
    decreases n,
{
    if n > 0 {
        lemma_body_comes_through(code, n - 1, deltas);
        assert(comes_through(code[n - 1], deltas));
    }
}

/// Where one of several places has an end, all of them together have that end.
proof fn lemma_target_decides(
    f: FunctionModel,
    pos: int,
    targets: Seq<Next>,
    k: int,
    deltas: Map<Seq<char>, Delta>,
)
    requires
        0 <= k < targets.len(),
        targets_delta(f, pos, targets, deltas) is Some,
        next_delta(f, pos, targets[k], deltas) matches Some(Delta::Num(_)),
    ensures
        targets_delta(f, pos, targets, deltas) == next_delta(f, pos, targets[k], deltas),
    decreases targets.len(),
{
    if k < targets.len() - 1 {
        assert(targets.drop_last()[k] == targets[k]);
        lemma_target_decides(f, pos, targets.drop_last(), k, deltas);
    }
}

/// On the way to a block from which on the delta is a number, what the stack has grown and what it
/// will still grow is always the same.
proof fn lemma_height_and_delta(
    f: FunctionModel,
    deltas: Map<Seq<char>, Delta>,
    trail: Seq<usize>,
)
    requires
        goes_forward(f),
        f.length > 0,
        func_delta(f, deltas) is Some,
        is_trail(f, deltas, trail),
        path_delta(f, trail.last() as int, deltas) matches Some(Delta::Num(_)),
    ensures
        path_delta(f, 0, deltas) matches Some(Delta::Num(d)) && d == trail_height(f, deltas, trail)
            + path_delta(f, trail.last() as int, deltas)->0->Num_0,
    decreases trail.len(),
{
    if trail.len() > 1 {
        let shorter = trail.drop_last();
        let p = shorter.last();
        let q = trail.last();
        assert(p == trail[trail.len() - 2]);
        assert(steps_on(f, deltas, trail, trail.len() - 2));
        assert(live_step(f, deltas, p, q));
        assert(is_trail(f, deltas, shorter)) by {
            assert forall|i: int| 0 <= i < shorter.len() - 1 implies #[trigger] steps_on(
                f,
                deltas,
                shorter,
                i,
            ) by {
                assert(steps_on(f, deltas, trail, i));
            }
        }
        let block = f.blocks[p];
        let all = nexts(block.terminator);
        lemma_body_comes_through(block.code, block.code.len() as int, deltas);
        let k = choose|k: int| 0 <= k < all.len() && all[k] == Next::Block(q);
        assert(leaves_forward(f, p as int, block.terminator));
        assert(leads_forward(f, p as int, all[k]));
        assert(next_delta(f, p as int, all[k], deltas) == path_delta(f, q as int, deltas));
        assert(path_delta(f, p as int, deltas) is Some);
        if let TerminatorModel::Skip { targets } = block.terminator {
            lemma_target_decides(f, p as int, targets, k, deltas);
        }
        assert(leaving_delta(f, p as int, block.terminator, deltas) == path_delta(
            f,
            q as int,
            deltas,
        ));
        lemma_height_and_delta(f, deltas, shorter);
    }
}

/// All ways to a block from which on the function has an end come there with the same height of the
/// stack, if the function has a delta.
pub proof fn law_block_heights_agree(
    f: FunctionModel,
    deltas: Map<Seq<char>, Delta>,
    a: Seq<usize>,
    b: Seq<usize>,
)
    requires
        goes_forward(f),
        func_delta(f, deltas) is Some,
        is_trail(f, deltas, a),
        is_trail(f, deltas, b),
        a.last() == b.last(),
        path_delta(f, a.last() as int, deltas) matches Some(Delta::Num(_)),
    ensures
        trail_height(f, deltas, a) == trail_height(f, deltas, b),
{
    lemma_height_and_delta(f, deltas, a);
    lemma_height_and_delta(f, deltas, b);
}

/// If a function with a delta reaches a block on two ways on which the stack has grown differently,
/// then from that block on the end of the function is never reached.
pub proof fn law_conflicts_never_end(
    f: FunctionModel,
    deltas: Map<Seq<char>, Delta>,
    a: Seq<usize>,
    b: Seq<usize>,
)
    requires
        goes_forward(f),
        f.length > 0,
        func_delta(f, deltas) is Some,
        is_trail(f, deltas, a),
        is_trail(f, deltas, b),
        a.last() == b.last(),
        trail_height(f, deltas, a) != trail_height(f, deltas, b),
    ensures
        path_delta(f, a.last() as int, deltas) == Some(Delta::Never),
{
    let q = a.last();
    assert(f.blocks.contains_key(q)) by {
        if a.len() > 1 {
            let p = a[a.len() - 2];
            assert(steps_on(f, deltas, a, a.len() - 2));
            let all = nexts(f.blocks[p].terminator);
            let k = choose|k: int| 0 <= k < all.len() && all[k] == Next::Block(q);
            assert(leaves_forward(f, p as int, f.blocks[p].terminator));
            assert(leads_forward(f, p as int, all[k]));
        }
    }
    if path_delta(f, q as int, deltas) matches Some(Delta::Num(_)) {
        law_block_heights_agree(f, deltas, a, b);
    }
}

} // verus!
