//! How often a loop that repeats a reduction runs.
use vstd::prelude::*;

use crate::cfg;
use crate::edit;
use crate::ir::{
    BlockId, CompareOp, Const, FuncView, InstView, KindView, Terminator, ValueId, ValueKindView,
};
use crate::loops::LoopView;
use crate::loops;
use crate::pass::memset_laws::{lemma_count, lemma_result};
use crate::pass::odd_chain_group::run_laws::is_arithmetic;
use crate::pass::range_integer::laws::of_compare;
use crate::pass::repeat_reduction::Reduction;
use crate::pass::repeat_reduction;
use crate::pass::simplify_cfg::meaning_laws::constants_kept;
use crate::pass::simplify_cfg::meaning_laws;
use crate::pass::simplify_cfg::threading_laws::fits;
use crate::pass::simplify_cfg::threading_laws;
use crate::pass::unroll_laws::{is_defined_before, lemma_stays, lemma_untouched};
use crate::patterns;
use crate::query;
use crate::semantics::{Meaning, State};
use crate::semantics;
use crate::ssa::one;
use crate::ssa;
use crate::util;
use crate::verify;

verus! {

/// Where the parts of the counter stand.
pub struct Places {
    pub entering: BlockId,
    pub initial: ValueId,
    pub next: ValueId,
    pub condition: ValueId,
    pub inside: BlockId,
    pub outside: BlockId,
    pub at_phi: int,
    pub at_compare: int,
    pub at_next: int,
}

/// How the loop counts.
pub open spec fn is_counting(f: FuncView, l: LoopView, r: Reduction, t: Places) -> bool {
    let head = f.block(r.header).insts;
    let latch = f.block(r.latch).insts;
    &&& f.has_block(r.header)
    &&& f.has_block(r.latch)
    &&& t.entering != r.latch
    &&& l.header == r.header
    &&& l.unique_latch() == Some(r.latch)
    &&& l.unique_entering_pred == Some(t.entering)
    &&& l.has(r.header)
    &&& cfg::succ_list(f.terminator(r.latch)) == seq![r.header]
    &&& f.terminator(r.header) == Some(
        Terminator::Branch { cond: t.condition, then_target: t.inside, else_target: t.outside },
    )
    &&& l.has(t.inside)
    &&& !l.has(t.outside)
    &&& forall|q: BlockId|
        f.has_block(q) && #[trigger] cfg::edge(f, q, r.header) ==> q == t.entering || q == r.latch
    &&& !l.has(t.entering)
    &&& 0 <= t.at_phi < head.len()
    &&& head[t.at_phi].result == Some(r.counter)
    &&& head[t.at_phi].kind is Phi
    &&& util::incoming_from(head[t.at_phi].kind->Phi_incomings, t.entering) == Some(t.initial)
    &&& util::incoming_from(head[t.at_phi].kind->Phi_incomings, r.latch) == Some(t.next)
    &&& f.has_value(t.initial)
    &&& f.value(t.initial).kind == ValueKindView::Const(Const::Int(0))
    &&& 0 <= t.at_compare < head.len()
    &&& head[t.at_compare] == (InstView {
        result: Some(t.condition),
        kind: KindView::ICompare { op: CompareOp::Lt, lhs: r.counter, rhs: r.bound },
    })
    &&& 0 <= t.at_next < latch.len()
    &&& latch[t.at_next].result == Some(t.next)
    &&& loops::step_of(f, latch[t.at_next].kind, r.counter) == Some(1i32)
    &&& f.value(r.counter).kind == ValueKindView::Inst(r.header, t.at_phi as usize)
    &&& forall|b: BlockId, i: int|
        f.has_inst(b, i) && l.has(b) ==> (#[trigger] f.inst(b, i)).result != Some(r.bound)
}

/// A value that an instruction computes stands where it says.
proof fn lemma_place(f: FuncView, v: ValueId, b: BlockId) -> (i: int)
    requires
        verify::valid(f),
        f.has_value(v),
        verify::defined(f, v),
        util::def_block(f, v) == Some(b),
    ensures
        f.has_block(b),
        0 <= i < f.block(b).insts.len(),
        f.block(b).insts[i].result == Some(v),
        util::def_kind(f, v) == Some(f.block(b).insts[i].kind),
        f.value(v).kind == ValueKindView::Inst(b, i as usize),
        i <= usize::MAX,
{
    match f.value(v).kind {
        ValueKindView::Inst(_, i) => i as int,
        _ => 0,
    }
}

/// What the recognition of a reduction says of its counter.
#[verifier::rlimit(60)]
proof fn lemma_counting(f: FuncView, l: LoopView, r: Reduction) -> (t: Places)
    requires
        verify::valid(f),
        fits(f),
        f.has_block(l.header),
        cfg::reachable(f, l.header),
        l == loops::loop_at(f, l.header),
        repeat_reduction::reduction_matches(f, l, r),
    ensures
        is_counting(f, l, r, t),
{
    let h = r.header;
    let n = f.blocks.len() as int;
    let preds = cfg::preds(f, h);
    loops::lemma_loop_within(f, h);
    loops::lemma_filtered(preds, loops::outside_of(f, h));
    loops::lemma_filtered(preds, loops::dominated_by(f, h));
    let entering = l.unique_entering_pred->0;
    assert(loops::entering(f, h).len() == 1 && loops::entering(f, h)[0] == entering);
    assert(l.latches.len() == 1 && l.latches[0] == r.latch);
    cfg::lemma_preds_below(f, h, n, entering);
    cfg::lemma_preds_below(f, h, n, r.latch);
    assert(loops::outside_of(f, h)(entering));
    assert(!l.has(entering));
    assert(l.has(r.latch)) by {
        if r.latch != h {
            let graph = cfg::pred_lists(f);
            assert(cfg::walk(graph, seq![r.latch], r.latch, r.latch, Some(h)));
            assert(loops::latches(f, h).contains(r.latch));
            assert(cfg::reaches(graph, r.latch, r.latch, Some(h)));
        }
        assert(loops::in_loop(f, h, r.latch));
    }
    let i0 = choose|i0: int| 0 <= i0 < preds.len() && preds[i0] == entering;
    let i1 = choose|i1: int| 0 <= i1 < preds.len() && preds[i1] == r.latch;
    assert forall|q: BlockId| f.has_block(q) && #[trigger] cfg::edge(f, q, h) implies q == entering
        || q == r.latch by {
        cfg::lemma_preds_below(f, h, n, q);
        let k = choose|k: int| 0 <= k < preds.len() && preds[k] == q;
        assert(k == i0 || k == i1);
    }
    let (condition, inside, outside) = patterns::branch_of(f, h)->Some_0;
    let iv = loops::induction_of(f, l, r.counter)->Some_0;
    // The condition stands in the header.
    assert(verify::block_valid(f, h));
    query::lemma_terminator_wf(f, h);
    let reads = edit::terminator_reads(f.terminator(h));
    assert(reads[0] == condition);
    assert(verify::available(f, reads[0], h, verify::block_end(f, h)));
    let owner = util::def_block(f, condition)->0;
    let at = lemma_place(f, condition, owner);
    assert(verify::block_valid(f, owner));
    assert(verify::inst_valid(f, owner, at));
    assert(f.inst(owner, at) == f.block(owner).insts[at]);
    let ops = edit::operands(f.inst(owner, at).kind);
    assert(ops[0] == r.counter && ops[1] == r.bound);
    assert(verify::available(f, ops[0], owner, at));
    assert(f.has_inst(owner, at));
    query::lemma_inst_wf(f, owner, at);
    let at_phi = lemma_place(f, r.counter, h);
    assert(owner == h) by {
        if owner != h {
            ssa::lemma_dominator_reachable(f, owner, h);
            ssa::dominance_is_antisymmetric(f, owner, h);
        }
    }
    let incomings = f.block(h).insts[at_phi].kind->Phi_incomings;
    assert(f.inst(h, at_phi) == f.block(h).insts[at_phi]);
    assert(verify::inst_valid(f, h, at_phi));
    threading_laws::lemma_incoming_entry(incomings, r.latch);
    let k = choose|k: int| 0 <= k < incomings.len() && #[trigger] incomings[k] == (r.latch, iv.next);
    assert(verify::available(f, incomings[k].1, incomings[k].0, verify::block_end(f, r.latch)));
    loops::lemma_induction_wf(f, l, r.counter);
    let at_next = lemma_place(f, iv.next, r.latch);
    assert forall|b: BlockId, i: int| f.has_inst(b, i) && l.has(b) implies (
    #[trigger] f.inst(b, i)).result != Some(r.bound) by {
        if f.inst(b, i).result == Some(r.bound) {
            assert(f.inst(b, i) == f.block(b).insts[i]);
            assert(f.block(b).insts.len() <= usize::MAX) by {
                assert(f.has_block(b));
            }
            lemma_result(f, b, i, r.bound);
        }
    }
    Places {
        entering,
        initial: iv.initial,
        next: iv.next,
        condition,
        inside,
        outside,
        at_phi,
        at_compare: at,
        at_next,
    }
}

/// Control is in the block.
pub open spec fn is_at<D, M>(s: State<D, M>, b: BlockId) -> bool {
    s matches State::Running { block, .. } && block == b
}

/// Control is in the loop.
pub open spec fn is_inside<D, M>(f: FuncView, l: LoopView, s: State<D, M>) -> bool {
    s matches State::Running { block, .. } && l.has(block) && f.has_block(block)
}

/// Control stays in the loop for the first `n` blocks, and in the one behind them.
pub open spec fn stays_inside<D, M>(
    f: FuncView,
    m: Meaning<D, M>,
    l: LoopView,
    s: State<D, M>,
    n: nat,
) -> bool {
    forall|k: nat| k <= n ==> is_inside(f, l, #[trigger] semantics::steps(f, m, s, k))
}

/// How many of the first `n` blocks that are run are the given one.
pub open spec fn times_run<D, M>(
    f: FuncView,
    m: Meaning<D, M>,
    b: BlockId,
    s: State<D, M>,
    n: nat,
) -> nat
    decreases n,
{
    if n == 0 {
        0
    } else {
        times_run(f, m, b, s, (n - 1) as nat) + if is_at(
            semantics::steps(f, m, s, (n - 1) as nat),
            b,
        ) {
            1nat
        } else {
            0nat
        }
    }
}

/// What holds of the data wherever control is in the loop behind so many rounds.
pub open spec fn counts<D, M>(
    f: FuncView,
    m: Meaning<D, M>,
    number: spec_fn(D) -> i32,
    r: Reduction,
    bound: D,
    s: State<D, M>,
    rounds: int,
) -> bool {
    s matches State::Running { block, env, .. } && {
        &&& constants_kept(f, m, env)
        &&& env[r.bound] == bound
        &&& env[r.counter] == m.integer(rounds as i32)
        &&& 0 <= rounds <= i32::MAX
        &&& block != r.header ==> rounds < number(bound)
        &&& rounds == 0 || rounds <= number(bound)
    }
}

/// The value of a block's own instruction among the instructions of another block
/// of the function.
proof fn lemma_not_defined(f: FuncView, b: BlockId, v: ValueId, n: int)
    requires
        verify::valid(f),
        fits(f),
        f.has_block(b),
        0 <= n <= f.block(b).insts.len(),
        forall|i: int| f.has_inst(b, i) ==> (#[trigger] f.inst(b, i)).result != Some(v),
    ensures
        !is_defined_before(f.block(b).insts, n, v),
{
    let insts = f.block(b).insts;
    if is_defined_before(insts, n, v) {
        let j = choose|j: int| 0 <= j < n && (#[trigger] insts[j]).result == Some(v);
        assert(f.has_inst(b, j) && f.inst(b, j) == insts[j]);
    }
}

/// One block of the loop is run.
#[verifier::rlimit(60)]
proof fn lemma_step<D, M>(
    f: FuncView,
    m: Meaning<D, M>,
    number: spec_fn(D) -> i32,
    l: LoopView,
    r: Reduction,
    t: Places,
    bound: D,
    s: State<D, M>,
    rounds: int,
)
    requires
        verify::valid(f),
        fits(f),
        is_arithmetic(m, number),
        is_counting(f, l, r, t),
        counts(f, m, number, r, bound, s, rounds),
        is_inside(f, l, s),
    ensures
        is_at(s, r.header) ==> (is_inside(f, l, semantics::step(f, m, s)) <==> rounds < number(
            bound,
        )),
        is_inside(f, l, semantics::step(f, m, s)) ==> counts(
            f,
            m,
            number,
            r,
            bound,
            semantics::step(f, m, s),
            if is_at(s, r.latch) {
                rounds + 1
            } else {
                rounds
            },
        ),
{
    if let State::Running { block, env, memory: x } = s {
        let insts = f.block(block).insts;
        let n = insts.len() as int;
        meaning_laws::lemma_results_are_computed(f);
        meaning_laws::lemma_execution_keeps_constants(f, m, block, n, env, x);
        let (e1, x1) = semantics::executed(m, insts, n, env, x);
        assert(insts.len() <= usize::MAX);
        lemma_not_defined(f, block, r.bound, n);
        lemma_untouched(m, insts, n, env, x, r.bound);
        lemma_counter_kept(f, m, l, r, t, block, n, env, x);
        assert(number(m.integer(rounds as i32)) == rounds);
        query::lemma_terminator_wf(f, block);
        meaning_laws::lemma_targets(f, block);
        if block == r.header {
            lemma_compared(f, m, number, l, r, t, env, x);
        }
        if block == r.latch && (block != r.header || rounds < number(bound)) {
            lemma_next(f, m, number, l, r, t, env, x, rounds);
        }
        if let Some(target) = threading_laws::next_block(m, f.terminator(block), e1) {
            assert(cfg::edge(f, block, target));
            let there = f.block(target).insts;
            meaning_laws::lemma_assignment_keeps_constants(
                f,
                m,
                target,
                there.len() as int,
                block,
                e1,
            );
            if l.has(target) {
                lemma_no_phi(f, l, target, r.bound);
                ssa::lemma_not_assigned(there, there.len() as int, block, e1, r.bound);
                if target == r.header {
                    assert(block == r.latch);
                    lemma_unique(f, target, t.at_phi, r.counter);
                    ssa::lemma_phi_takes(
                        there,
                        there.len() as int,
                        t.at_phi,
                        block,
                        e1,
                        r.counter,
                        t.next,
                    );
                } else {
                    assert forall|i: int| f.has_inst(target, i) implies (
                    #[trigger] f.inst(target, i)).result != Some(r.counter) by {
                        if f.inst(target, i).result == Some(r.counter) {
                            assert(f.has_block(target));
                            lemma_result(f, target, i, r.counter);
                        }
                    }
                    assert forall|k: int| 0 <= k < there.len() implies !((
                    #[trigger] there[k]).kind is Phi && there[k].result == Some(r.counter)) by {
                        assert(f.has_inst(target, k) && f.inst(target, k) == there[k]);
                    }
                    ssa::lemma_not_assigned(there, there.len() as int, block, e1, r.counter);
                    assert(block != r.latch) by {
                        let list = cfg::succ_list(f.terminator(block));
                        let k = choose|k: int| 0 <= k < list.len() && list[k] == target;
                        assert(seq![r.header].len() == 1 && seq![r.header][0] == r.header);
                    }
                }
            }
        }
    }
}

/// No phi of a block of the loop defines the bound.
proof fn lemma_no_phi(f: FuncView, l: LoopView, b: BlockId, v: ValueId)
    requires
        f.has_block(b),
        forall|i: int| f.has_inst(b, i) ==> (#[trigger] f.inst(b, i)).result != Some(v),
    ensures
        forall|k: int|
            0 <= k < f.block(b).insts.len() ==> !((#[trigger] f.block(b).insts[k]).kind is Phi
                && f.block(b).insts[k].result == Some(v)),
{
    let insts = f.block(b).insts;
    assert forall|k: int| 0 <= k < insts.len() implies !((#[trigger] insts[k]).kind is Phi
        && insts[k].result == Some(v)) by {
        assert(f.has_inst(b, k) && f.inst(b, k) == insts[k]);
    }
}

/// A result stands at one place only.
proof fn lemma_unique(f: FuncView, b: BlockId, j: int, v: ValueId)
    requires
        verify::valid(f),
        fits(f),
        f.has_block(b),
        0 <= j < f.block(b).insts.len(),
        f.block(b).insts[j].result == Some(v),
    ensures
        forall|k: int|
            0 <= k < f.block(b).insts.len() && k != j ==> (#[trigger] f.block(b).insts[k]).result
                != Some(v),
{
    let insts = f.block(b).insts;
    assert forall|k: int| 0 <= k < insts.len() && k != j implies (#[trigger] insts[k]).result
        != Some(v) by {
        if insts[k].result == Some(v) {
            lemma_result(f, b, k, v);
            lemma_result(f, b, j, v);
        }
    }
}

/// Running a block leaves the counter alone: it is set on arrival only.
proof fn lemma_counter_kept<D, M>(
    f: FuncView,
    m: Meaning<D, M>,
    l: LoopView,
    r: Reduction,
    t: Places,
    b: BlockId,
    n: int,
    env: Map<ValueId, D>,
    x: M,
)
    requires
        verify::valid(f),
        fits(f),
        is_counting(f, l, r, t),
        f.has_block(b),
        0 <= n <= f.block(b).insts.len(),
    ensures
        semantics::executed(m, f.block(b).insts, n, env, x).0[r.counter] == env[r.counter],
    decreases n,
{
    if n > 0 {
        lemma_counter_kept(f, m, l, r, t, b, n - 1, env, x);
        let inst = f.block(b).insts[n - 1];
        if inst.result == Some(r.counter) {
            lemma_result(f, b, n - 1, r.counter);
        }
    }
}

/// The header goes on with the loop where the counter is below the bound.
proof fn lemma_compared<D, M>(
    f: FuncView,
    m: Meaning<D, M>,
    number: spec_fn(D) -> i32,
    l: LoopView,
    r: Reduction,
    t: Places,
    env: Map<ValueId, D>,
    x: M,
)
    requires
        verify::valid(f),
        fits(f),
        is_arithmetic(m, number),
        is_counting(f, l, r, t),
        l.has(r.header),
    ensures
        ({
            let insts = f.block(r.header).insts;
            let e1 = semantics::executed(m, insts, insts.len() as int, env, x).0;
            (m.truth)(e1[t.condition]) == (number(env[r.counter]) < number(env[r.bound]))
        }),
{
    let insts = f.block(r.header).insts;
    let n = insts.len() as int;
    let j = t.at_compare;
    let (e, x1) = semantics::executed(m, insts, j, env, x);
    lemma_counter_kept(f, m, l, r, t, r.header, j, env, x);
    lemma_not_defined(f, r.header, r.bound, j);
    lemma_untouched(m, insts, j, env, x, r.bound);
    assert(semantics::executed(m, insts, j + 1, env, x) == one(m, insts[j], e, x1));
    let kind = insts[j].kind;
    assert(ssa::data_of(kind, e) =~= seq![e[r.counter], e[r.bound]]);
    let d = of_compare(m, CompareOp::Lt, r.counter, r.bound, e[r.counter], e[r.bound], x1);
    lemma_unique(f, r.header, j, t.condition);
    lemma_stays(m, insts, j, n, env, x, t.condition);
}

/// The latch counts one more round.
proof fn lemma_next<D, M>(
    f: FuncView,
    m: Meaning<D, M>,
    number: spec_fn(D) -> i32,
    l: LoopView,
    r: Reduction,
    t: Places,
    env: Map<ValueId, D>,
    x: M,
    rounds: int,
)
    requires
        verify::valid(f),
        fits(f),
        is_arithmetic(m, number),
        is_counting(f, l, r, t),
        constants_kept(f, m, env),
        number(env[r.counter]) == rounds,
        rounds < i32::MAX,
    ensures
        ({
            let insts = f.block(r.latch).insts;
            let e1 = semantics::executed(m, insts, insts.len() as int, env, x).0;
            e1[t.next] == m.integer((rounds + 1) as i32)
        }),
{
    let insts = f.block(r.latch).insts;
    let n = insts.len() as int;
    let j = t.at_next;
    let (e, x1) = semantics::executed(m, insts, j, env, x);
    meaning_laws::lemma_results_are_computed(f);
    meaning_laws::lemma_execution_keeps_constants(f, m, r.latch, j, env, x);
    lemma_counter_kept(f, m, l, r, t, r.latch, j, env, x);
    lemma_count(f, m, number, insts[j].kind, r.counter, e, x1, rounds);
    assert(semantics::executed(m, insts, j + 1, env, x) == one(m, insts[j], e, x1));
    lemma_unique(f, r.latch, j, t.next);
    lemma_stays(m, insts, j, n, env, x, t.next);
}

proof fn lemma_counts<D, M>(
    f: FuncView,
    m: Meaning<D, M>,
    number: spec_fn(D) -> i32,
    l: LoopView,
    r: Reduction,
    t: Places,
    bound: D,
    s: State<D, M>,
    n: nat,
)
    requires
        verify::valid(f),
        fits(f),
        is_arithmetic(m, number),
        is_counting(f, l, r, t),
        counts(f, m, number, r, bound, s, 0),
        stays_inside(f, m, l, s, n),
    ensures
        counts(
            f,
            m,
            number,
            r,
            bound,
            semantics::steps(f, m, s, n),
            times_run(f, m, r.latch, s, n) as int,
        ),
    decreases n,
{
    if n > 0 {
        let k = (n - 1) as nat;
        assert(stays_inside(f, m, l, s, k));
        lemma_counts(f, m, number, l, r, t, bound, s, k);
        assert(is_inside(f, l, semantics::steps(f, m, s, k)));
        assert(is_inside(f, l, semantics::steps(f, m, s, n)));
        lemma_step(
            f,
            m,
            number,
            l,
            r,
            t,
            bound,
            semantics::steps(f, m, s, k),
            times_run(f, m, r.latch, s, k) as int,
        );
    }
}

proof fn lemma_from_entry<D, M>(
    f: FuncView,
    l: LoopView,
    r: Reduction,
    t: Places,
    m: Meaning<D, M>,
    number: spec_fn(D) -> i32,
    env: Map<ValueId, D>,
    memory: M,
    n: nat,
)
    requires
        verify::valid(f),
        fits(f),
        is_counting(f, l, r, t),
        is_arithmetic(m, number),
        constants_kept(f, m, env),
        stays_inside(f, m, l, semantics::arrived(f, t.entering, r.header, env, memory), n),
        is_at(
            semantics::steps(f, m, semantics::arrived(f, t.entering, r.header, env, memory), n),
            r.header,
        ),
    ensures
        ({
            let s = semantics::arrived(f, t.entering, r.header, env, memory);
            let rounds = times_run(f, m, r.latch, s, n);
            let bound = number(env[r.bound]);
            &&& is_inside(f, l, semantics::steps(f, m, s, n + 1)) <==> rounds < bound
            &&& rounds == 0 || rounds <= bound
        }),
{
    let s = semantics::arrived(f, t.entering, r.header, env, memory);
    let head = f.block(r.header).insts;
    let len = head.len() as int;
    meaning_laws::lemma_results_are_computed(f);
    meaning_laws::lemma_assignment_keeps_constants(f, m, r.header, len, t.entering, env);
    assert(semantics::steps(f, m, s, 0) == s);
    assert(is_inside(f, l, semantics::steps(f, m, s, 0)));
    lemma_no_phi(f, l, r.header, r.bound);
    ssa::lemma_not_assigned(head, len, t.entering, env, r.bound);
    lemma_unique(f, r.header, t.at_phi, r.counter);
    ssa::lemma_phi_takes(head, len, t.at_phi, t.entering, env, r.counter, t.initial);
    assert(env[t.initial] == m.integer(0)) by {
        assert(f.has_value(t.initial));
    }
    let bound = env[r.bound];
    assert(counts(f, m, number, r, bound, s, 0));
    lemma_counts(f, m, number, l, r, t, bound, s, n);
    let rounds = times_run(f, m, r.latch, s, n);
    assert(is_inside(f, l, semantics::steps(f, m, s, n)));
    lemma_step(f, m, number, l, r, t, bound, semantics::steps(f, m, s, n), rounds as int);
}

/// A loop that is found to repeat a reduction runs as many rounds as its bound
/// says, from the time that it is entered on: wherever control is in its header,
/// the loop goes on as long as fewer rounds have been run, and it is left when as
/// many have been run (none, where the bound is negative).
pub proof fn the_loop_runs_as_often_as_its_bound_says<D, M>(
    f: FuncView,
    l: LoopView,
    r: Reduction,
    m: Meaning<D, M>,
    number: spec_fn(D) -> i32,
    env: Map<ValueId, D>,
    memory: M,
    n: nat,
)
    requires
        verify::valid(f),
        fits(f),
        f.has_block(l.header),
        cfg::reachable(f, l.header),
        l == loops::loop_at(f, l.header),
        repeat_reduction::reduction_matches(f, l, r),
        is_arithmetic(m, number),
        constants_kept(f, m, env),
        ({
            let s = semantics::arrived(f, l.unique_entering_pred->0, l.header, env, memory);
            &&& stays_inside(f, m, l, s, n)
            &&& is_at(semantics::steps(f, m, s, n), l.header)
        }),
    ensures
        ({
            let s = semantics::arrived(f, l.unique_entering_pred->0, l.header, env, memory);
            let rounds = times_run(f, m, l.unique_latch()->0, s, n);
            let bound = number(env[r.bound]);
            &&& is_inside(f, l, semantics::steps(f, m, s, n + 1)) <==> rounds < bound
            &&& bound >= 0 ==> rounds <= bound
            &&& !is_inside(f, l, semantics::steps(f, m, s, n + 1)) && bound >= 0 ==> rounds == bound
            &&& bound < 0 ==> rounds == 0
        }),
{
    let t = lemma_counting(f, l, r);
    lemma_from_entry(f, l, r, t, m, number, env, memory, n);
}

} // verus!
