//! Simplification keeps what a function computes.
use vstd::prelude::*;

use crate::cfg;
use crate::edit;
use crate::ir::{
    BlockId, FuncView, InstView, KindView, Terminator, ValueId, ValueKindView, ValueView,
};
use crate::pass::simplify_cfg::branches;
use crate::pass::simplify_cfg::dead_blocks;
use crate::pass::simplify_cfg::structural;
use crate::pass::simplify_cfg::structural::EditView;
use crate::query;
use crate::semantics;
use crate::semantics::{Meaning, State};
use crate::util;
use crate::verify;

verus! {

// ---------------------------------------------------------------------------
// Incoming lists
// ---------------------------------------------------------------------------

/// What is dropped from an incoming list does not matter where control comes
/// from a block whose entries are kept.
pub proof fn lemma_incoming_kept(
    incomings: Seq<(BlockId, ValueId)>,
    keep: spec_fn((BlockId, ValueId)) -> bool,
    pred: BlockId,
)
    requires
        forall|k: int|
            0 <= k < incomings.len() && (#[trigger] incomings[k]).0 == pred ==> keep(incomings[k]),
    ensures
        util::incoming_from(incomings.filter(keep), pred) == util::incoming_from(incomings, pred),
    decreases incomings.len(),
{
    reveal_with_fuel(Seq::filter, 3);
    if incomings.len() > 0 {
        let first = seq![incomings[0]];
        let rest = incomings.drop_first();
        assert(incomings =~= first + rest);
        Seq::filter_distributes_over_add(first, rest, keep);
        assert forall|k: int| 0 <= k < rest.len() && (#[trigger] rest[k]).0 == pred implies keep(
            rest[k],
        ) by {
            assert(rest[k] == incomings[k + 1]);
        }
        lemma_incoming_kept(rest, keep, pred);
        assert(first.drop_last() =~= Seq::<(BlockId, ValueId)>::empty());
        let kept = rest.filter(keep);
        if keep(incomings[0]) {
            assert(first.filter(keep) =~= first);
            assert((first + kept).drop_first() =~= kept);
        } else {
            assert(first.filter(keep) =~= Seq::<(BlockId, ValueId)>::empty());
            assert(first.filter(keep) + kept =~= kept);
        }
    }
}

// ---------------------------------------------------------------------------
// Removing unreachable blocks
// ---------------------------------------------------------------------------

proof fn lemma_renumbering_is_injective(marks: Seq<bool>, a: BlockId, b: BlockId)
    requires
        marks.len() <= usize::MAX,
        a.0 < marks.len(),
        b.0 < marks.len(),
        marks[a.0 as int],
        marks[b.0 as int],
        a != b,
    ensures
        dead_blocks::renumbered(marks, a) != dead_blocks::renumbered(marks, b),
{
    let n = marks.len() as int;
    dead_blocks::lemma_rank_monotone(marks, 0, a.0 as int);
    dead_blocks::lemma_rank_monotone(marks, 0, b.0 as int);
    if a.0 < b.0 {
        dead_blocks::lemma_rank_monotone(marks, a.0 as int, b.0 as int);
    } else {
        dead_blocks::lemma_rank_monotone(marks, b.0 as int, a.0 as int);
    }
}

/// A list of marked blocks, all renumbered, gives what it gave before.
proof fn lemma_incoming_renumbered(
    marks: Seq<bool>,
    list: Seq<(BlockId, ValueId)>,
    pred: BlockId,
)
    requires
        marks.len() <= usize::MAX,
        pred.0 < marks.len(),
        marks[pred.0 as int],
        forall|k: int|
            0 <= k < list.len() ==> (#[trigger] list[k]).0.0 < marks.len()
                && marks[list[k].0.0 as int],
    ensures
        util::incoming_from(
            list.map_values(
                |inc: (BlockId, ValueId)| (dead_blocks::renumbered(marks, inc.0), inc.1),
            ),
            dead_blocks::renumbered(marks, pred),
        ) == util::incoming_from(list, pred),
    decreases list.len(),
{
    let image = |inc: (BlockId, ValueId)| (dead_blocks::renumbered(marks, inc.0), inc.1);
    if list.len() > 0 {
        let rest = list.drop_first();
        assert forall|k: int| 0 <= k < rest.len() implies (#[trigger] rest[k]).0.0 < marks.len()
            && marks[rest[k].0.0 as int] by {
            assert(rest[k] == list[k + 1]);
        }
        lemma_incoming_renumbered(marks, rest, pred);
        assert(list.map_values(image).drop_first() =~= rest.map_values(image));
        assert(list[0].0.0 < marks.len());
        if list[0].0 != pred {
            lemma_renumbering_is_injective(marks, list[0].0, pred);
        }
    }
}

proof fn lemma_incoming_compacted(
    marks: Seq<bool>,
    incomings: Seq<(BlockId, ValueId)>,
    pred: BlockId,
    nv: nat,
)
    requires
        marks.len() <= usize::MAX,
        pred.0 < marks.len(),
        marks[pred.0 as int],
        edit::incomings_wf(incomings, marks.len(), nv),
    ensures
        util::incoming_from(
            dead_blocks::compact_incomings(marks, incomings),
            dead_blocks::renumbered(marks, pred),
        ) == util::incoming_from(incomings, pred),
{
    let keep = dead_blocks::is_marked(marks);
    let kept = incomings.filter(keep);
    assert forall|k: int| 0 <= k < kept.len() implies (#[trigger] kept[k]).0.0 < marks.len()
        && marks[kept[k].0.0 as int] by {
        incomings.lemma_filter_contains_rev(keep, kept[k]);
        let i = choose|i: int| 0 <= i < incomings.len() && incomings[i] == kept[k];
        assert(incomings[i].0.0 < marks.len());
        incomings.lemma_filter_pred(keep, k);
    }
    lemma_incoming_kept(incomings, keep, pred);
    lemma_incoming_renumbered(marks, kept, pred);
}

/// The state with its block renumbered.
pub open spec fn moved<D, M>(marks: Seq<bool>, s: State<D, M>) -> State<D, M> {
    match s {
        State::Running { block, env, memory } => State::Running {
            block: dead_blocks::renumbered(marks, block),
            env,
            memory,
        },
        s => s,
    }
}

/// Control is in a block that can be reached.
pub open spec fn on_the_way<D, M>(f: FuncView, s: State<D, M>) -> bool {
    s matches State::Running { block, .. } ==> f.has_block(block) && cfg::reachable(f, block)
}

proof fn lemma_block_compacted(f: FuncView, b: BlockId)
    requires
        f.wf(),
        f.blocks.len() <= usize::MAX,
        f.has_block(b),
        cfg::reachable(f, b),
    ensures
        dead_blocks::live(f)[b.0 as int],
        dead_blocks::compacted(f, dead_blocks::live(f)).block(
            dead_blocks::renumbered(dead_blocks::live(f), b),
        ) == dead_blocks::compact_block(dead_blocks::live(f), f.block(b)),
{
    let marks = dead_blocks::live(f);
    let n = f.blocks.len() as int;
    dead_blocks::lemma_compact_blocks(marks, f.blocks, n);
    dead_blocks::lemma_rank_monotone(marks, 0, b.0 as int);
    assert(marks[b.0 as int]);
    assert(dead_blocks::compact_blocks(marks, f.blocks, n)[dead_blocks::rank(
        marks,
        b.0 as int,
    ) as int] == dead_blocks::compact_block(marks, f.blocks[b.0 as int]));
}

proof fn lemma_arrival_moved<D, M>(
    f: FuncView,
    pred: BlockId,
    b: BlockId,
    env: Map<ValueId, D>,
    memory: M,
)
    requires
        f.wf(),
        f.blocks.len() <= usize::MAX,
        f.has_block(pred),
        cfg::reachable(f, pred),
        f.has_block(b),
        cfg::reachable(f, b),
    ensures
        semantics::arrived::<D, M>(
            dead_blocks::compacted(f, dead_blocks::live(f)),
            dead_blocks::renumbered(dead_blocks::live(f), pred),
            dead_blocks::renumbered(dead_blocks::live(f), b),
            env,
            memory,
        ) == moved(dead_blocks::live(f), semantics::arrived::<D, M>(f, pred, b, env, memory)),
{
    let marks = dead_blocks::live(f);
    let g = dead_blocks::compacted(f, marks);
    let to = dead_blocks::renumbered(marks, b);
    let from = dead_blocks::renumbered(marks, pred);
    lemma_block_compacted(f, b);
    lemma_block_compacted(f, pred);
    let x = f.block(b).insts;
    let y = g.block(to).insts;
    assert forall|i: int| 0 <= i < x.len() implies semantics::agree(
        #[trigger] x[i],
        y[i],
        pred,
        from,
    ) by {
        assert(edit::block_wf(f.blocks[b.0 as int], f.blocks.len(), f.values.len()));
        assert(edit::inst_wf(x[i], f.blocks.len(), f.values.len()));
        if let KindView::Phi { incomings } = x[i].kind {
            lemma_incoming_compacted(marks, incomings, pred, f.values.len());
        }
    }
    semantics::lemma_same_assignment(x, y, x.len() as int, pred, from, env);
}

proof fn lemma_step_moved<D, M>(f: FuncView, m: Meaning<D, M>, s: State<D, M>)
    requires
        f.wf(),
        f.blocks.len() <= usize::MAX,
        on_the_way(f, s),
    ensures
        on_the_way(f, semantics::step(f, m, s)),
        semantics::step(
            dead_blocks::compacted(f, dead_blocks::live(f)),
            m,
            moved(dead_blocks::live(f), s),
        ) == moved(dead_blocks::live(f), semantics::step(f, m, s)),
{
    let marks = dead_blocks::live(f);
    let g = dead_blocks::compacted(f, marks);
    if let State::Running { block, env, memory } = s {
        let at = dead_blocks::renumbered(marks, block);
        lemma_block_compacted(f, block);
        let x = f.block(block).insts;
        let y = g.block(at).insts;
        semantics::lemma_same_execution(m, x, y, x.len() as int, env, memory);
        let (after, mem) = semantics::executed(m, x, x.len() as int, env, memory);
        dead_blocks::lemma_terminator_live(f, block);
        match f.terminator(block) {
            Some(Terminator::Jump(t)) => {
                lemma_arrival_moved::<D, M>(f, block, t, after, mem);
            },
            Some(Terminator::Branch { cond, then_target, else_target }) => {
                lemma_arrival_moved::<D, M>(f, block, then_target, after, mem);
                lemma_arrival_moved::<D, M>(f, block, else_target, after, mem);
            },
            _ => {},
        }
    }
}

proof fn lemma_steps_moved<D, M>(
    f: FuncView,
    m: Meaning<D, M>,
    args: Map<ValueId, D>,
    memory: M,
    n: nat,
)
    requires
        f.wf(),
        f.blocks.len() <= usize::MAX,
    ensures
        on_the_way(f, semantics::steps(f, m, semantics::start(f, m, args, memory), n)),
        ({
            let g = dead_blocks::compacted(f, dead_blocks::live(f));
            semantics::steps(g, m, semantics::start(g, m, args, memory), n) == moved(
                dead_blocks::live(f),
                semantics::steps(f, m, semantics::start(f, m, args, memory), n),
            )
        }),
    decreases n,
{
    let g = dead_blocks::compacted(f, dead_blocks::live(f));
    if n == 0 {
        dead_blocks::lemma_entry_reachable(f);
        assert(semantics::initial(f, m, args) =~= semantics::initial(g, m, args));
    } else {
        lemma_steps_moved(f, m, args, memory, (n - 1) as nat);
        lemma_step_moved(
            f,
            m,
            semantics::steps(f, m, semantics::start(f, m, args, memory), (n - 1) as nat),
        );
    }
}

/// Removing the unreachable blocks keeps what every call returns, whatever the
/// instructions mean.
pub proof fn removal_keeps_the_meaning<D, M>(
    f: FuncView,
    m: Meaning<D, M>,
    args: Map<ValueId, D>,
    memory: M,
    out: State<D, M>,
)
    requires
        f.wf(),
        f.blocks.len() <= usize::MAX,
    ensures
        semantics::yields(dead_blocks::remove_step(f).0, m, args, memory, out)
            == semantics::yields(f, m, args, memory, out),
{
    let g = dead_blocks::remove_step(f).0;
    if !dead_blocks::all_marked(dead_blocks::live(f)) {
        let s = semantics::start(f, m, args, memory);
        let t = semantics::start(g, m, args, memory);
        if semantics::yields(f, m, args, memory, out) {
            let n = choose|n: nat| #[trigger] semantics::steps(f, m, s, n) == out;
            lemma_steps_moved(f, m, args, memory, n);
            assert(semantics::steps(g, m, t, n) == out);
        }
        if semantics::yields(g, m, args, memory, out) {
            let n = choose|n: nat| #[trigger] semantics::steps(g, m, t, n) == out;
            lemma_steps_moved(f, m, args, memory, n);
            assert(semantics::steps(f, m, s, n) == out);
        }
    }
}

// ---------------------------------------------------------------------------
// Straightening branches
// ---------------------------------------------------------------------------

/// Constants still hold what they mean.
pub open spec fn constants_kept<D, M>(
    f: FuncView,
    m: Meaning<D, M>,
    env: Map<ValueId, D>,
) -> bool {
    forall|v: ValueId|
        f.has_value(v) ==> match #[trigger] f.value(v).kind {
            ValueKindView::Const(c) => env[v] == (m.constant)(c),
            _ => true,
        }
}

/// Control is in a block, and the constants are as they should be.
pub open spec fn sound<D, M>(f: FuncView, m: Meaning<D, M>, s: State<D, M>) -> bool {
    s matches State::Running { block, env, .. } ==> f.has_block(block) && constants_kept(f, m, env)
}

/// What instructions define are results of instructions.
pub open spec fn results_are_computed(f: FuncView) -> bool {
    forall|b: BlockId, i: int|
        f.has_block(b) && 0 <= i < f.block(b).insts.len() ==> ((
        #[trigger] f.block(b).insts[i]).result matches Some(v) ==> f.value(v).kind is Inst)
}

pub proof fn lemma_results_are_computed(f: FuncView)
    requires
        verify::valid(f),
    ensures
        results_are_computed(f),
{
    assert forall|b: BlockId, i: int|
        f.has_block(b) && 0 <= i < f.block(b).insts.len() implies ((
    #[trigger] f.block(b).insts[i]).result matches Some(v) ==> f.value(v).kind is Inst) by {
        assert(verify::block_valid(f, b));
        assert(verify::inst_valid(f, b, i));
    }
}

pub proof fn lemma_assignment_keeps_constants<D, M>(
    f: FuncView,
    m: Meaning<D, M>,
    b: BlockId,
    n: int,
    pred: BlockId,
    env: Map<ValueId, D>,
)
    requires
        results_are_computed(f),
        f.has_block(b),
        n <= f.block(b).insts.len(),
        constants_kept(f, m, env),
    ensures
        constants_kept(f, m, semantics::phis_assigned(f.block(b).insts, n, pred, env)),
    decreases n,
{
    if n > 0 {
        lemma_assignment_keeps_constants(f, m, b, n - 1, pred, env);
        assert(f.block(b).insts[n - 1].result matches Some(v) ==> f.value(v).kind is Inst);
    }
}

pub proof fn lemma_execution_keeps_constants<D, M>(
    f: FuncView,
    m: Meaning<D, M>,
    b: BlockId,
    n: int,
    env: Map<ValueId, D>,
    memory: M,
)
    requires
        results_are_computed(f),
        f.has_block(b),
        n <= f.block(b).insts.len(),
        constants_kept(f, m, env),
    ensures
        constants_kept(f, m, semantics::executed(m, f.block(b).insts, n, env, memory).0),
    decreases n,
{
    if n > 0 {
        lemma_execution_keeps_constants(f, m, b, n - 1, env, memory);
        assert(f.block(b).insts[n - 1].result matches Some(v) ==> f.value(v).kind is Inst);
    }
}

proof fn lemma_step_sound<D, M>(f: FuncView, m: Meaning<D, M>, s: State<D, M>)
    requires
        verify::valid(f),
        sound(f, m, s),
    ensures
        sound(f, m, semantics::step(f, m, s)),
{
    lemma_results_are_computed(f);
    if let State::Running { block, env, memory } = s {
        let insts = f.block(block).insts;
        lemma_execution_keeps_constants(f, m, block, insts.len() as int, env, memory);
        query::lemma_terminator_wf(f, block);
        let after = semantics::executed(m, insts, insts.len() as int, env, memory).0;
        match f.terminator(block) {
            Some(Terminator::Jump(t)) => {
                let n = f.block(t).insts.len() as int;
                lemma_assignment_keeps_constants(f, m, t, n, block, after);
            },
            Some(Terminator::Branch { cond, then_target, else_target }) => {
                let n = f.block(then_target).insts.len() as int;
                lemma_assignment_keeps_constants(f, m, then_target, n, block, after);
                let k = f.block(else_target).insts.len() as int;
                lemma_assignment_keeps_constants(f, m, else_target, k, block, after);
            },
            _ => {},
        }
    }
}

/// The edge is one that a branch with a known outcome never takes, from a block
/// below `n`.
pub open spec fn dropped(f: FuncView, n: int, pred: BlockId, b: BlockId) -> bool {
    pred.0 < n && branches::never_taken(f, f.terminator(pred)) == Some(b)
}

/// `g` is `f` but for terminators, and for what phis take along edges that are
/// never taken.
pub open spec fn same_but_dropped(f: FuncView, g: FuncView, n: int) -> bool {
    &&& g.values == f.values
    &&& g.entry == f.entry
    &&& g.blocks.len() == f.blocks.len()
    &&& forall|b: BlockId| #[trigger]
        f.has_block(b) ==> g.block(b).insts.len() == f.block(b).insts.len()
    &&& forall|b: BlockId, i: int|
        f.has_block(b) && 0 <= i < f.block(b).insts.len() ==> semantics::same_work(
            #[trigger] f.block(b).insts[i],
            g.block(b).insts[i],
        )
    &&& forall|pred: BlockId, b: BlockId, i: int|
        f.has_block(pred) && f.has_block(b) && 0 <= i < f.block(b).insts.len() && !dropped(
            f,
            n,
            pred,
            b,
        ) ==> #[trigger] semantics::agree(f.block(b).insts[i], g.block(b).insts[i], pred, pred)
}

proof fn lemma_dead_edges_dropped(f: FuncView, g: FuncView, n: int)
    requires
        f.wf(),
        g.values == f.values,
        g.entry == f.entry,
        g.blocks.len() == f.blocks.len(),
        forall|b: BlockId| #[trigger] f.has_block(b) ==> g.block(b).insts == f.block(b).insts,
        0 <= n <= f.blocks.len() <= usize::MAX,
    ensures
        same_but_dropped(f, branches::without_dead_edges(f, g, n), n),
        forall|b: BlockId| #[trigger]
            f.has_block(b) ==> branches::without_dead_edges(f, g, n).terminator(b)
                == g.terminator(b),
    decreases n,
{
    if n > 0 {
        lemma_dead_edges_dropped(f, g, n - 1);
        let last = BlockId((n - 1) as usize);
        let before = branches::without_dead_edges(f, g, n - 1);
        let after = branches::without_dead_edges(f, g, n);
        query::lemma_terminator_wf(f, last);
        assert(f.has_block(last));
        if let Some(target) = branches::never_taken(f, f.terminator(last)) {
            assert(f.has_block(target));
            let change = EditView::Drop { pred: last };
            assert forall|b: BlockId| #[trigger] f.has_block(b) implies after.block(b).insts.len()
                == f.block(b).insts.len() by {
                assert(before.block(b).insts.len() == f.block(b).insts.len());
            }
            assert forall|b: BlockId, i: int|
                f.has_block(b) && 0 <= i < f.block(b).insts.len() implies semantics::same_work(
                #[trigger] f.block(b).insts[i],
                after.block(b).insts[i],
            ) by {
                assert(before.block(b).insts.len() == f.block(b).insts.len());
                assert(semantics::same_work(f.block(b).insts[i], before.block(b).insts[i]));
            }
            assert forall|pred: BlockId, b: BlockId, i: int|
                f.has_block(pred) && f.has_block(b) && 0 <= i < f.block(b).insts.len() && !dropped(
                    f,
                    n,
                    pred,
                    b,
                ) implies #[trigger] semantics::agree(
                f.block(b).insts[i],
                after.block(b).insts[i],
                pred,
                pred,
            ) by {
                assert(!dropped(f, n - 1, pred, b));
                assert(before.block(b).insts.len() == f.block(b).insts.len());
                assert(semantics::agree(
                    f.block(b).insts[i],
                    before.block(b).insts[i],
                    pred,
                    pred,
                ));
                if b == target {
                    assert(pred != last);
                    if let KindView::Phi { incomings } = before.block(b).insts[i].kind {
                        lemma_incoming_kept(incomings, structural::not_from(last), pred);
                    }
                }
            }
        }
    }
}

proof fn lemma_arrival_straight<D, M>(
    f: FuncView,
    g: FuncView,
    n: int,
    pred: BlockId,
    b: BlockId,
    env: Map<ValueId, D>,
    memory: M,
)
    requires
        same_but_dropped(f, g, n),
        f.has_block(pred),
        f.has_block(b),
        !dropped(f, n, pred, b),
    ensures
        semantics::arrived::<D, M>(g, pred, b, env, memory) == semantics::arrived::<D, M>(
            f,
            pred,
            b,
            env,
            memory,
        ),
{
    let x = f.block(b).insts;
    let y = g.block(b).insts;
    assert forall|i: int| 0 <= i < x.len() implies semantics::agree(
        #[trigger] x[i],
        y[i],
        pred,
        pred,
    ) by {
        assert(semantics::agree(f.block(b).insts[i], g.block(b).insts[i], pred, pred));
    }
    semantics::lemma_same_assignment(x, y, x.len() as int, pred, pred, env);
}

proof fn lemma_step_straight<D, M>(f: FuncView, m: Meaning<D, M>, s: State<D, M>)
    requires
        verify::valid(f),
        f.blocks.len() <= usize::MAX,
        m.decides_constants(),
        sound(f, m, s),
    ensures
        semantics::step(branches::branch_step(f).0, m, s) == semantics::step(f, m, s),
{
    let g = branches::branch_step(f).0;
    let n = f.blocks.len() as int;
    lemma_dead_edges_dropped(f, branches::straightened(f), n);
    lemma_results_are_computed(f);
    if let State::Running { block, env, memory } = s {
        let x = f.block(block).insts;
        let y = g.block(block).insts;
        assert(g.block(block).insts.len() == x.len());
        assert forall|i: int| 0 <= i < x.len() implies semantics::same_work(
            #[trigger] x[i],
            y[i],
        ) by {
            assert(semantics::same_work(f.block(block).insts[i], g.block(block).insts[i]));
        }
        semantics::lemma_same_execution(m, x, y, x.len() as int, env, memory);
        let (after, mem) = semantics::executed(m, x, x.len() as int, env, memory);
        lemma_execution_keeps_constants(f, m, block, x.len() as int, env, memory);
        query::lemma_terminator_wf(f, block);
        assert(g.terminator(block) == branches::straight(f, f.terminator(block)));
        match f.terminator(block) {
            Some(Terminator::Jump(t)) => {
                lemma_arrival_straight::<D, M>(f, g, n, block, t, after, mem);
            },
            Some(Terminator::Branch { cond, then_target, else_target }) => {
                match query::bool_of(f, cond) {
                    Some(way) => {
                        assert(after[cond] == (m.constant)(f.value(cond).kind->Const_0));
                        assert((m.truth)(after[cond]) == way);
                        if way || then_target == else_target {
                            lemma_arrival_straight::<D, M>(f, g, n, block, then_target, after, mem);
                        } else {
                            lemma_arrival_straight::<D, M>(f, g, n, block, else_target, after, mem);
                        }
                    },
                    None => {
                        lemma_arrival_straight::<D, M>(f, g, n, block, then_target, after, mem);
                        lemma_arrival_straight::<D, M>(f, g, n, block, else_target, after, mem);
                    },
                }
            },
            _ => {},
        }
    }
}

proof fn lemma_steps_straight<D, M>(
    f: FuncView,
    m: Meaning<D, M>,
    args: Map<ValueId, D>,
    memory: M,
    n: nat,
)
    requires
        verify::valid(f),
        f.blocks.len() <= usize::MAX,
        m.decides_constants(),
    ensures
        sound(f, m, semantics::steps(f, m, semantics::start(f, m, args, memory), n)),
        ({
            let g = branches::branch_step(f).0;
            semantics::steps(g, m, semantics::start(g, m, args, memory), n) == semantics::steps(
                f,
                m,
                semantics::start(f, m, args, memory),
                n,
            )
        }),
    decreases n,
{
    let g = branches::branch_step(f).0;
    if n == 0 {
        lemma_dead_edges_dropped(f, branches::straightened(f), f.blocks.len() as int);
        assert(semantics::initial(f, m, args) =~= semantics::initial(g, m, args));
    } else {
        let before = semantics::steps(
            f,
            m,
            semantics::start(f, m, args, memory),
            (n - 1) as nat,
        );
        lemma_steps_straight(f, m, args, memory, (n - 1) as nat);
        lemma_step_sound(f, m, before);
        lemma_step_straight(f, m, before);
    }
}

/// Turning branches with a known outcome into jumps keeps what every call
/// returns, wherever a branch on a constant goes the way that the constant says.
pub proof fn straightening_keeps_the_meaning<D, M>(
    f: FuncView,
    m: Meaning<D, M>,
    args: Map<ValueId, D>,
    memory: M,
    out: State<D, M>,
)
    requires
        verify::valid(f),
        f.blocks.len() <= usize::MAX,
        m.decides_constants(),
    ensures
        semantics::yields(branches::branch_step(f).0, m, args, memory, out)
            == semantics::yields(f, m, args, memory, out),
{
    let g = branches::branch_step(f).0;
    let s = semantics::start(f, m, args, memory);
    let t = semantics::start(g, m, args, memory);
    if semantics::yields(f, m, args, memory, out) {
        let n = choose|n: nat| #[trigger] semantics::steps(f, m, s, n) == out;
        lemma_steps_straight(f, m, args, memory, n);
        assert(semantics::steps(g, m, t, n) == out);
    }
    if semantics::yields(g, m, args, memory, out) {
        let n = choose|n: nat| #[trigger] semantics::steps(g, m, t, n) == out;
        lemma_steps_straight(f, m, args, memory, n);
        assert(semantics::steps(f, m, s, n) == out);
    }
}

// ---------------------------------------------------------------------------
// Forwarding through an empty block
// ---------------------------------------------------------------------------

pub proof fn lemma_incoming_joined(
    x: Seq<(BlockId, ValueId)>,
    y: Seq<(BlockId, ValueId)>,
    pred: BlockId,
)
    ensures
        util::incoming_from(x + y, pred) == match util::incoming_from(x, pred) {
            Some(v) => Some(v),
            None => util::incoming_from(y, pred),
        },
    decreases x.len(),
{
    if x.len() > 0 {
        lemma_incoming_joined(x.drop_first(), y, pred);
        assert((x + y).drop_first() =~= x.drop_first() + y);
    } else {
        assert(x + y =~= y);
    }
}

/// A list with the same value from every block.
proof fn lemma_incoming_constant(preds: Seq<BlockId>, value: ValueId, pred: BlockId)
    ensures
        util::incoming_from(preds.map_values(|p: BlockId| (p, value)), pred) == if preds.contains(
            pred,
        ) {
            Some(value)
        } else {
            None::<ValueId>
        },
    decreases preds.len(),
{
    let image = |p: BlockId| (p, value);
    if preds.len() > 0 {
        let rest = preds.drop_first();
        lemma_incoming_constant(rest, value, pred);
        assert(preds.map_values(image).drop_first() =~= rest.map_values(image));
        if preds[0] != pred {
            if preds.contains(pred) {
                let i = choose|i: int| 0 <= i < preds.len() && preds[i] == pred;
                assert(rest[i - 1] == pred);
            }
            if rest.contains(pred) {
                let i = choose|i: int| 0 <= i < rest.len() && rest[i] == pred;
                assert(preds[i + 1] == pred);
            }
        }
    }
}

/// The targets of a terminator are the ends of edges.
pub proof fn lemma_targets(f: FuncView, a: BlockId)
    ensures
        match f.terminator(a) {
            Some(Terminator::Jump(t)) => cfg::edge(f, a, t),
            Some(Terminator::Branch { cond: _, then_target, else_target }) => cfg::edge(
                f,
                a,
                then_target,
            ) && cfg::edge(f, a, else_target),
            _ => true,
        },
{
    let list = cfg::succ_list(f.terminator(a));
    match f.terminator(a) {
        Some(Terminator::Jump(t)) => {
            assert(list[0] == t);
        },
        Some(Terminator::Branch { cond, then_target, else_target }) => {
            assert(list[0] == then_target);
            if then_target != else_target {
                assert(list[1] == else_target);
            }
        },
        _ => {},
    }
}

/// Control is in a block other than `b`.
pub open spec fn elsewhere<D, M>(f: FuncView, b: BlockId) -> spec_fn(State<D, M>) -> bool {
    |s: State<D, M>| s matches State::Running { block, .. } ==> f.has_block(block) && block != b
}

/// The phis of the target take from a predecessor of the empty block what they
/// took from the empty block, and from others what they took before.
proof fn lemma_phis_spread(f: FuncView, b: BlockId, t: BlockId, kept: Seq<BlockId>, pred: BlockId, i: int)
    requires
        verify::valid(f),
        f.blocks.len() <= usize::MAX,
        f.has_block(b),
        structural::forwardable(f, b, kept) == Some(t),
        f.has_block(pred),
        pred != b,
        0 <= i < f.block(t).insts.len(),
    ensures
        cfg::edge(f, pred, b) ==> semantics::agree(
            f.block(t).insts[i],
            structural::forwarded(f, b, t).block(t).insts[i],
            b,
            pred,
        ),
        !cfg::edge(f, pred, b) ==> semantics::agree(
            f.block(t).insts[i],
            structural::forwarded(f, b, t).block(t).insts[i],
            pred,
            pred,
        ),
        semantics::same_work(
            f.block(t).insts[i],
            structural::forwarded(f, b, t).block(t).insts[i],
        ),
{
    let list = cfg::preds(f, b);
    let insts = f.block(t).insts;
    query::lemma_terminator_wf(f, b);
    assert(verify::block_valid(f, t));
    assert(verify::inst_valid(f, t, i));
    cfg::lemma_preds_below(f, b, f.blocks.len() as int, pred);
    if let KindView::Phi { incomings } = insts[i].kind {
        assert(verify::phis_lead(insts, i));
        assert(structural::phi_spreads(insts, i, b, list));
        let value = util::incoming_from(incomings, b)->Some_0;
        lemma_incoming_kept(incomings, structural::not_from(b), pred);
        lemma_incoming_joined(
            structural::without(incomings, b),
            list.map_values(|p: BlockId| (p, value)),
            pred,
        );
        lemma_incoming_constant(list, value, pred);
        if list.contains(pred) {
            let k = choose|k: int| 0 <= k < list.len() && list[k] == pred;
            assert(util::incoming_from(incomings, list[k]) is None);
        }
    }
}

proof fn lemma_arrival_forwarded<D, M>(
    f: FuncView,
    b: BlockId,
    t: BlockId,
    kept: Seq<BlockId>,
    pred: BlockId,
    target: BlockId,
    env: Map<ValueId, D>,
    memory: M,
)
    requires
        verify::valid(f),
        f.blocks.len() <= usize::MAX,
        f.has_block(b),
        structural::forwardable(f, b, kept) == Some(t),
        f.has_block(pred),
        pred != b,
        f.has_block(target),
        cfg::edge(f, pred, target),
    ensures
        target != b ==> semantics::arrived::<D, M>(
            structural::forwarded(f, b, t),
            pred,
            target,
            env,
            memory,
        ) == semantics::arrived::<D, M>(f, pred, target, env, memory),
        target == b ==> semantics::arrived::<D, M>(
            structural::forwarded(f, b, t),
            pred,
            t,
            env,
            memory,
        ) == semantics::arrived::<D, M>(f, b, t, env, memory),
{
    let g = structural::forwarded(f, b, t);
    query::lemma_terminator_wf(f, b);
    let x = f.block(t).insts;
    let y = g.block(t).insts;
    assert forall|i: int| 0 <= i < x.len() implies if target == b {
        semantics::agree(#[trigger] x[i], y[i], b, pred)
    } else {
        target == t ==> semantics::agree(x[i], y[i], pred, pred)
    } by {
        lemma_phis_spread(f, b, t, kept, pred, i);
        if target == t {
            let list = cfg::preds(f, b);
            cfg::lemma_preds_below(f, b, f.blocks.len() as int, pred);
            if list.contains(pred) {
                let k = choose|k: int| 0 <= k < list.len() && list[k] == pred;
                assert(!cfg::edge(f, list[k], t));
            }
        }
    }
    if target == b {
        semantics::lemma_same_assignment(x, y, x.len() as int, b, pred, env);
    } else if target == t {
        semantics::lemma_same_assignment(x, y, x.len() as int, pred, pred, env);
    }
}

/// What happens between the arrival at the empty block and the next one.
pub proof fn lemma_passed_through<D, M>(
    f: FuncView,
    m: Meaning<D, M>,
    b: BlockId,
    t: BlockId,
    pred: BlockId,
    env: Map<ValueId, D>,
    memory: M,
)
    requires
        query::jump_of(f, b) == Some(t),
        query::all_nops(f.block(b).insts),
    ensures
        semantics::step(f, m, semantics::arrived(f, pred, b, env, memory)) == semantics::arrived::<
            D,
            M,
        >(f, b, t, env, memory),
{
    let insts = f.block(b).insts;
    assert forall|i: int| 0 <= i < insts.len() implies !((#[trigger] insts[i]).kind is Phi)
        || insts[i].result is None by {
        assert(insts[i].kind is Nop);
    }
    semantics::lemma_nothing_assigned(insts, insts.len() as int, pred, env);
    semantics::lemma_nothing_executed(m, insts, insts.len() as int, env, memory);
}

proof fn lemma_step_forwarded<D, M>(
    f: FuncView,
    m: Meaning<D, M>,
    b: BlockId,
    t: BlockId,
    kept: Seq<BlockId>,
    s: State<D, M>,
)
    requires
        verify::valid(f),
        f.blocks.len() <= usize::MAX,
        f.has_block(b),
        structural::forwardable(f, b, kept) == Some(t),
        elsewhere(f, b)(s),
    ensures
        elsewhere(f, b)(semantics::step(structural::forwarded(f, b, t), m, s)),
        exists|k: nat|
            k >= 1 && #[trigger] semantics::steps(f, m, s, k) == semantics::step(
                structural::forwarded(f, b, t),
                m,
                s,
            ),
{
    let g = structural::forwarded(f, b, t);
    semantics::lemma_few_steps(f, m, s);
    query::lemma_terminator_wf(f, b);
    if let State::Running { block, env, memory } = s {
        let x = f.block(block).insts;
        let y = g.block(block).insts;
        assert forall|i: int| 0 <= i < x.len() implies semantics::same_work(
            #[trigger] x[i],
            y[i],
        ) by {
            if block == t {
                lemma_phis_spread(f, b, t, kept, block, i);
            }
        }
        semantics::lemma_same_execution(m, x, y, x.len() as int, env, memory);
        let (after, mem) = semantics::executed(m, x, x.len() as int, env, memory);
        query::lemma_terminator_wf(f, block);
        lemma_targets(f, block);
        assert(g.terminator(block) == structural::redirected(f.terminator(block), b, t));
        let target = match f.terminator(block) {
            Some(Terminator::Jump(target)) => Some(target),
            Some(Terminator::Branch { cond, then_target, else_target }) => Some(
                if (m.truth)(after[cond]) {
                    then_target
                } else {
                    else_target
                },
            ),
            _ => None,
        };
        if let Some(target) = target {
            lemma_arrival_forwarded::<D, M>(f, b, t, kept, block, target, after, mem);
            lemma_passed_through(f, m, b, t, block, after, mem);
            if target == b {
                assert(semantics::steps(f, m, s, 2) == semantics::step(g, m, s));
            } else {
                assert(semantics::steps(f, m, s, 1) == semantics::step(g, m, s));
            }
        } else {
            assert(semantics::steps(f, m, s, 1) == semantics::step(g, m, s));
        }
    } else {
        assert(semantics::steps(f, m, s, 1) == semantics::step(g, m, s));
    }
}

proof fn lemma_first_forwardable(f: FuncView, from: int, kept: Seq<BlockId>)
    requires
        f.blocks.len() <= usize::MAX,
    ensures
        structural::first_forwardable(f, from, kept) matches Some((b, t)) ==> f.has_block(b)
            && structural::forwardable(f, b, kept) == Some(t),
    decreases f.blocks.len() - from,
{
    if 0 <= from < f.blocks.len() {
        lemma_first_forwardable(f, from + 1, kept);
    }
}

/// Forwarding the edges of an empty block keeps what every call returns,
/// whatever the instructions mean.
pub proof fn forwarding_keeps_the_meaning<D, M>(
    f: FuncView,
    kept: Seq<BlockId>,
    m: Meaning<D, M>,
    args: Map<ValueId, D>,
    memory: M,
    out: State<D, M>,
)
    requires
        verify::valid(f),
        f.blocks.len() <= usize::MAX,
    ensures
        semantics::yields(structural::forward_step(f, kept).0, m, args, memory, out)
            == semantics::yields(f, m, args, memory, out),
{
    lemma_first_forwardable(f, 0, kept);
    if let Some((b, t)) = structural::first_forwardable(f, 0, kept) {
        let g = structural::forwarded(f, b, t);
        let inv = elsewhere::<D, M>(f, b);
        assert forall|s: State<D, M>| inv(s) implies inv(#[trigger] semantics::step(g, m, s))
            && exists|k: nat|
            k >= 1 && #[trigger] semantics::steps(f, m, s, k) == semantics::step(g, m, s) by {
            lemma_step_forwarded(f, m, b, t, kept, s);
        }
        assert(semantics::initial(f, m, args) =~= semantics::initial(g, m, args));
        semantics::lemma_same_states(f, g, m, inv, args, memory, out);
    }
}

// ---------------------------------------------------------------------------
// Merging a block with its only successor
// ---------------------------------------------------------------------------

proof fn lemma_incoming_renamed(
    incomings: Seq<(BlockId, ValueId)>,
    from: BlockId,
    to: BlockId,
    pred: BlockId,
)
    requires
        pred != from,
        forall|k: int| 0 <= k < incomings.len() ==> (#[trigger] incomings[k]).0 != to,
    ensures
        util::incoming_from(
            structural::edited(incomings, EditView::Rename { from, to }),
            pred,
        ) == util::incoming_from(
            incomings,
            if pred == to {
                from
            } else {
                pred
            },
        ),
    decreases incomings.len(),
{
    let change = EditView::Rename { from, to };
    if incomings.len() > 0 {
        let rest = incomings.drop_first();
        assert forall|k: int| 0 <= k < rest.len() implies (#[trigger] rest[k]).0 != to by {
            assert(rest[k] == incomings[k + 1]);
        }
        lemma_incoming_renamed(rest, from, to, pred);
        assert(structural::edited(incomings, change).drop_first() =~= structural::edited(
            rest,
            change,
        ));
        assert(incomings[0].0 != to);
    }
}

proof fn lemma_moved_values(
    values: Seq<ValueView>,
    insts: Seq<InstView>,
    b: BlockId,
    first: int,
    n: int,
)
    requires
        n <= insts.len(),
        forall|i: int|
            0 <= i < insts.len() ==> ((#[trigger] insts[i]).result matches Some(v) ==> v.0
                < values.len() && values[v.0 as int].kind is Inst),
    ensures
        ({
            let moved = structural::moved_values(values, insts, b, first, n);
            &&& moved.len() == values.len()
            &&& forall|v: int|
                0 <= v < values.len() ==> (#[trigger] moved[v]).ty == values[v].ty && (
                moved[v].kind is Inst <==> values[v].kind is Inst) && (values[v].kind is Inst
                    || moved[v].kind == values[v].kind)
        }),
    decreases n,
{
    if n > 0 {
        lemma_moved_values(values, insts, b, first, n - 1);
        if let Some(v) = insts[n - 1].result {
            assert(values[v.0 as int].kind is Inst);
        }
    }
}

/// What holds of a block and the successor that can be merged into it.
proof fn lemma_mergeable(f: FuncView, b: BlockId, s: BlockId)
    requires
        verify::valid(f),
        f.blocks.len() <= usize::MAX,
        f.has_block(b),
        structural::mergeable(f, b) == Some(s),
    ensures
        f.has_block(s),
        !cfg::edge(f, s, s),
        forall|pred: BlockId| f.has_block(pred) && #[trigger] cfg::edge(f, pred, s) ==> pred == b,
        forall|t: BlockId| #[trigger] cfg::edge(f, b, t) ==> t == s,
{
    let list = cfg::preds(f, s);
    query::lemma_terminator_wf(f, b);
    assert forall|pred: BlockId| f.has_block(pred) && #[trigger] cfg::edge(f, pred, s) implies pred
        == b by {
        cfg::lemma_preds_below(f, s, f.blocks.len() as int, pred);
        let k = choose|k: int| 0 <= k < list.len() && list[k] == pred;
        assert(list[k] == b);
    }
}

/// Coming from `pred` in the merged function is coming from there, or from the
/// merged block.
proof fn lemma_phis_renamed(f: FuncView, b: BlockId, s: BlockId, target: BlockId, pred: BlockId, i: int)
    requires
        verify::valid(f),
        f.blocks.len() <= usize::MAX,
        f.has_block(b),
        structural::mergeable(f, b) == Some(s),
        f.has_block(target),
        target != s,
        pred != s,
        0 <= i < f.block(target).insts.len(),
    ensures
        semantics::agree(
            f.block(target).insts[i],
            structural::merged(f, b, s).block(target).insts[i],
            if pred == b {
                s
            } else {
                pred
            },
            pred,
        ),
        semantics::same_work(
            f.block(target).insts[i],
            structural::merged(f, b, s).block(target).insts[i],
        ),
{
    let insts = f.block(target).insts;
    let joined = structural::joined(f, b, s).block(target).insts;
    lemma_mergeable(f, b, s);
    assert(verify::block_valid(f, target));
    assert(verify::inst_valid(f, target, i));
    assert(joined[i] == insts[i]);
    if let KindView::Phi { incomings } = insts[i].kind {
        assert(verify::phis_lead(insts, i));
        assert(verify::phis_lead(joined, i)) by {
            assert forall|j: int| 0 <= j < i implies (#[trigger] joined[j].kind) is Phi
                || joined[j].kind is Nop by {
                assert(joined[j] == insts[j]);
                assert(insts[j].kind is Phi || insts[j].kind is Nop);
            }
        }
        assert forall|k: int| 0 <= k < incomings.len() implies (#[trigger] incomings[k]).0
            != b by {
            assert(cfg::edge(f, incomings[k].0, target));
        }
        lemma_incoming_renamed(incomings, s, b, pred);
    }
}

proof fn lemma_arrival_merged<D, M>(
    f: FuncView,
    b: BlockId,
    s: BlockId,
    pred: BlockId,
    target: BlockId,
    env: Map<ValueId, D>,
    memory: M,
)
    requires
        verify::valid(f),
        f.blocks.len() <= usize::MAX,
        f.has_block(b),
        structural::mergeable(f, b) == Some(s),
        f.has_block(target),
        target != s,
        pred != s,
    ensures
        semantics::arrived::<D, M>(structural::merged(f, b, s), pred, target, env, memory)
            == semantics::arrived::<D, M>(
            f,
            if pred == b {
                s
            } else {
                pred
            },
            target,
            env,
            memory,
        ),
{
    let g = structural::merged(f, b, s);
    let from = if pred == b {
        s
    } else {
        pred
    };
    let x = f.block(target).insts;
    let all = g.block(target).insts;
    let y = all.take(x.len() as int);
    lemma_mergeable(f, b, s);
    assert forall|i: int| 0 <= i < x.len() implies semantics::agree(
        #[trigger] x[i],
        y[i],
        from,
        pred,
    ) by {
        lemma_phis_renamed(f, b, s, target, pred, i);
    }
    semantics::lemma_same_assignment(x, y, x.len() as int, from, pred, env);
    // What has been merged into `b` holds no phi that defines a value.
    let tail = f.block(s).insts;
    assert forall|i: int| x.len() <= i < all.len() implies !((#[trigger] all[i]).kind is Phi)
        || all[i].result is None by {
        assert(target == b);
        let own = tail[i - x.len()];
        assert(!(own.kind is Phi) || own.result is None);
    }
    semantics::lemma_assigned_by_prefix(all, x.len() as int, all.len() as int, pred, env);
    semantics::lemma_assigned_in_prefix(all, y, x.len() as int, pred, env);
}

proof fn lemma_step_merged<D, M>(
    f: FuncView,
    m: Meaning<D, M>,
    b: BlockId,
    s: BlockId,
    state: State<D, M>,
)
    requires
        verify::valid(f),
        f.blocks.len() <= usize::MAX,
        f.has_block(b),
        structural::mergeable(f, b) == Some(s),
        elsewhere(f, s)(state),
    ensures
        elsewhere(f, s)(semantics::step(structural::merged(f, b, s), m, state)),
        exists|k: nat|
            k >= 1 && #[trigger] semantics::steps(f, m, state, k) == semantics::step(
                structural::merged(f, b, s),
                m,
                state,
            ),
{
    let g = structural::merged(f, b, s);
    semantics::lemma_few_steps(f, m, state);
    lemma_mergeable(f, b, s);
    if let State::Running { block, env, memory } = state {
        let x = f.block(block).insts;
        let tail = f.block(s).insts;
        let all = g.block(block).insts;
        // Where control stands in `f` when the block of `g` has been run.
        let at = if block == b {
            s
        } else {
            block
        };
        let whole = if block == b {
            x + tail
        } else {
            x
        };
        assert forall|i: int| 0 <= i < whole.len() implies semantics::same_work(
            #[trigger] whole[i],
            all[i],
        ) by {
        }
        semantics::lemma_same_execution(m, whole, all, whole.len() as int, env, memory);
        let (mid, mem) = semantics::executed(m, x, x.len() as int, env, memory);
        if block == b {
            semantics::lemma_executed_in_turn(m, x, tail, tail.len() as int, env, memory);
            assert forall|i: int| 0 <= i < tail.len() implies !((#[trigger] tail[i]).kind is Phi)
                || tail[i].result is None by {
            }
            semantics::lemma_nothing_assigned(tail, tail.len() as int, b, mid);
            assert(semantics::step(f, m, state) == (State::Running {
                block: s,
                env: mid,
                memory: mem,
            }));
        }
        let (after, end) = semantics::executed(m, whole, whole.len() as int, env, memory);
        query::lemma_terminator_wf(f, at);
        lemma_targets(f, at);
        assert(g.terminator(block) == f.terminator(at));
        match f.terminator(at) {
            Some(Terminator::Jump(target)) => {
                lemma_arrival_merged::<D, M>(f, b, s, block, target, after, end);
            },
            Some(Terminator::Branch { cond, then_target, else_target }) => {
                lemma_arrival_merged::<D, M>(f, b, s, block, then_target, after, end);
                lemma_arrival_merged::<D, M>(f, b, s, block, else_target, after, end);
            },
            _ => {},
        }
        if block == b {
            assert(semantics::steps(f, m, state, 2) == semantics::step(g, m, state));
        } else {
            assert(semantics::steps(f, m, state, 1) == semantics::step(g, m, state));
        }
    } else {
        assert(semantics::steps(f, m, state, 1) == semantics::step(g, m, state));
    }
}

proof fn lemma_first_mergeable(f: FuncView, from: int)
    requires
        f.blocks.len() <= usize::MAX,
    ensures
        structural::first_mergeable(f, from) matches Some((b, s)) ==> f.has_block(b)
            && structural::mergeable(f, b) == Some(s),
    decreases f.blocks.len() - from,
{
    if 0 <= from < f.blocks.len() {
        lemma_first_mergeable(f, from + 1);
    }
}

/// Merging a block with its only successor keeps what every call returns,
/// whatever the instructions mean.
pub proof fn merging_keeps_the_meaning<D, M>(
    f: FuncView,
    m: Meaning<D, M>,
    args: Map<ValueId, D>,
    memory: M,
    out: State<D, M>,
)
    requires
        verify::valid(f),
        f.blocks.len() <= usize::MAX,
    ensures
        semantics::yields(structural::merge_step(f).0, m, args, memory, out)
            == semantics::yields(f, m, args, memory, out),
{
    lemma_first_mergeable(f, 0);
    if let Some((b, s)) = structural::first_mergeable(f, 0) {
        let g = structural::merged(f, b, s);
        let inv = elsewhere::<D, M>(f, s);
        lemma_mergeable(f, b, s);
        assert forall|state: State<D, M>| inv(state) implies inv(
            #[trigger] semantics::step(g, m, state),
        ) && exists|k: nat|
            k >= 1 && #[trigger] semantics::steps(f, m, state, k) == semantics::step(
                g,
                m,
                state,
            ) by {
            lemma_step_merged(f, m, b, s, state);
        }
        let tail = f.block(s).insts;
        assert forall|i: int| 0 <= i < tail.len() implies ((#[trigger] tail[i]).result matches Some(
            v,
        ) ==> v.0 < f.values.len() && f.values[v.0 as int].kind is Inst) by {
            query::lemma_inst_wf(f, s, i);
            assert(verify::block_valid(f, s));
            assert(verify::inst_valid(f, s, i));
        }
        lemma_moved_values(
            f.values,
            tail,
            b,
            f.block(b).insts.len() as int,
            tail.len() as int,
        );
        assert(semantics::initial(f, m, args) =~= semantics::initial(g, m, args));
        semantics::lemma_same_states(f, g, m, inv, args, memory, out);
    }
}

} // verus!
