//! Threading branches on phis keeps what a function computes.
use vstd::prelude::*;

use crate::cfg;
use crate::edit;
use crate::ir::{BlockId, FuncView, InstView, KindView, Terminator, ValueId};
use crate::pass::simplify_cfg::branches;
use crate::pass::simplify_cfg::branches::PhiBranchView;
use crate::pass::simplify_cfg::meaning_laws;
use crate::pass::simplify_cfg::structural;
use crate::query;
use crate::semantics;
use crate::semantics::{Meaning, State};
use crate::util;
use crate::verify;

verus! {

// ---------------------------------------------------------------------------
// Counting reads
// ---------------------------------------------------------------------------

pub proof fn lemma_no_occurrence(list: Seq<ValueId>, v: ValueId)
    ensures
        list.contains(v) ==> query::occurrences(list, v) >= 1,
    decreases list.len(),
{
    if list.contains(v) && list.last() != v {
        let k = choose|k: int| 0 <= k < list.len() && list[k] == v;
        assert(list.drop_last()[k] == v);
        lemma_no_occurrence(list.drop_last(), v);
    }
}

pub proof fn lemma_insts_uses(insts: Seq<InstView>, v: ValueId, n: int, i: int)
    requires
        0 <= i < n <= insts.len(),
    ensures
        query::insts_uses(insts, v, n) >= query::occurrences(edit::operands(insts[i].kind), v),
    decreases n,
{
    if i < n - 1 {
        lemma_insts_uses(insts, v, n - 1, i);
    }
}

/// How often block `b` reads `v`.
pub open spec fn block_uses(f: FuncView, b: int, v: ValueId) -> nat {
    query::insts_uses(f.blocks[b].insts, v, f.blocks[b].insts.len() as int) + query::occurrences(
        edit::terminator_reads(f.blocks[b].terminator),
        v,
    )
}

pub proof fn lemma_two_blocks(f: FuncView, v: ValueId, n: int, a: int, b: int)
    requires
        0 <= a < n <= f.blocks.len(),
        0 <= b < n,
    ensures
        query::blocks_uses(f, v, n) >= block_uses(f, a, v) + (if a == b {
            0
        } else {
            block_uses(f, b, v)
        }),
    decreases n,
{
    if a < n - 1 && b < n - 1 {
        lemma_two_blocks(f, v, n - 1, a, b);
    } else if a < n - 1 {
        lemma_two_blocks(f, v, n - 1, a, a);
    } else if b < n - 1 {
        lemma_two_blocks(f, v, n - 1, b, b);
    }
}

/// Nothing reads the value but the branch of block `b`.
pub open spec fn read_by_branch_only(f: FuncView, b: BlockId, v: ValueId) -> bool {
    &&& forall|c: BlockId, i: int|
        f.has_block(c) && 0 <= i < f.block(c).insts.len() ==> semantics::ignores(
            (#[trigger] f.block(c).insts[i]).kind,
            set![v],
        )
    &&& forall|c: BlockId|
        f.has_block(c) && c != b ==> !edit::terminator_reads(#[trigger] f.terminator(c)).contains(v)
}

proof fn lemma_single_use(f: FuncView, b: BlockId, v: ValueId)
    requires
        f.has_block(b),
        query::uses(f, v) == 1,
        edit::terminator_reads(f.terminator(b)).contains(v),
    ensures
        read_by_branch_only(f, b, v),
{
    let n = f.blocks.len() as int;
    lemma_no_occurrence(edit::terminator_reads(f.terminator(b)), v);
    assert forall|c: BlockId, i: int|
        f.has_block(c) && 0 <= i < f.block(c).insts.len() implies semantics::ignores(
        (#[trigger] f.block(c).insts[i]).kind,
        set![v],
    ) by {
        let list = edit::operands(f.block(c).insts[i].kind);
        lemma_two_blocks(f, v, n, b.0 as int, c.0 as int);
        lemma_insts_uses(f.block(c).insts, v, f.block(c).insts.len() as int, i);
        lemma_no_occurrence(list, v);
    }
    assert forall|c: BlockId| f.has_block(c) && c != b implies !edit::terminator_reads(
        #[trigger] f.terminator(c),
    ).contains(v) by {
        lemma_two_blocks(f, v, n, b.0 as int, c.0 as int);
        lemma_no_occurrence(edit::terminator_reads(f.terminator(c)), v);
    }
}

// ---------------------------------------------------------------------------
// Phis name every predecessor
// ---------------------------------------------------------------------------

/// A valid phi takes a value from every predecessor.
pub proof fn lemma_phi_names(f: FuncView, incomings: Seq<(BlockId, ValueId)>, b: BlockId, pred: BlockId)
    requires
        f.blocks.len() <= usize::MAX,
        verify::phi_valid(f, incomings, b),
        edit::incomings_wf(incomings, f.blocks.len(), f.values.len()),
        f.has_block(pred),
        cfg::edge(f, pred, b),
    ensures
        exists|k: int| 0 <= k < incomings.len() && (#[trigger] incomings[k]).0 == pred,
{
    let list = cfg::preds(f, b);
    let named = incomings.map_values(|inc: (BlockId, ValueId)| inc.0);
    let n = f.blocks.len() as int;
    cfg::lemma_preds_below_sorted(f, b, n);
    assert(list.no_duplicates());
    assert(named.no_duplicates()) by {
        assert forall|i: int, j: int| 0 <= i < named.len() && 0 <= j < named.len() && i
            != j implies named[i] != named[j] by {
            if i < j {
                assert(incomings[i].0 != incomings[j].0);
            } else {
                assert(incomings[j].0 != incomings[i].0);
            }
        }
    }
    named.unique_seq_to_set();
    list.unique_seq_to_set();
    assert(named.to_set().subset_of(list.to_set())) by {
        assert forall|x: BlockId| named.to_set().contains(x) implies list.to_set().contains(x) by {
            let k = choose|k: int| 0 <= k < named.len() && named[k] == x;
            assert(cfg::edge(f, incomings[k].0, b));
            cfg::lemma_preds_below(f, b, n, x);
        }
    }
    vstd::set_lib::lemma_subset_equality(named.to_set(), list.to_set());
    cfg::lemma_preds_below(f, b, n, pred);
    assert(list.to_set().contains(pred));
    assert(named.to_set().contains(pred));
    let k = choose|k: int| 0 <= k < named.len() && named[k] == pred;
    assert(incomings[k].0 == pred);
}

pub proof fn lemma_incoming_found(incomings: Seq<(BlockId, ValueId)>, pred: BlockId, k: int)
    requires
        0 <= k < incomings.len(),
        incomings[k].0 == pred,
    ensures
        util::incoming_from(incomings, pred) is Some,
    decreases incomings.len(),
{
    if incomings[0].0 != pred {
        assert(incomings.drop_first()[k - 1] == incomings[k]);
        lemma_incoming_found(incomings.drop_first(), pred, k - 1);
    }
}

/// The value from `pred` is that of an entry.
pub proof fn lemma_incoming_entry(incomings: Seq<(BlockId, ValueId)>, pred: BlockId)
    ensures
        util::incoming_from(incomings, pred) matches Some(v) ==> exists|k: int|
            0 <= k < incomings.len() && #[trigger] incomings[k] == (pred, v),
    decreases incomings.len(),
{
    if incomings.len() > 0 {
        let rest = incomings.drop_first();
        lemma_incoming_entry(rest, pred);
        if incomings[0].0 == pred {
            assert(incomings[0] == (pred, incomings[0].1));
        } else if let Some(v) = util::incoming_from(rest, pred) {
            let k = choose|k: int| 0 <= k < rest.len() && #[trigger] rest[k] == (pred, v);
            assert(incomings[k + 1] == (pred, v));
        }
    }
}

// ---------------------------------------------------------------------------
// Threading one block
// ---------------------------------------------------------------------------

/// The targets of a terminator exist.
pub open spec fn targets_in(g: FuncView, t: Option<Terminator>) -> bool {
    match t {
        Some(Terminator::Jump(target)) => g.has_block(target),
        Some(Terminator::Branch { cond: _, then_target, else_target }) => g.has_block(then_target)
            && g.has_block(else_target),
        _ => true,
    }
}

/// An empty slot, or the phi that the branch is on.
pub open spec fn is_nop_or_phi(inst: InstView, p: PhiBranchView) -> bool {
    inst.kind is Nop || (inst.result == Some(p.cond) && inst.kind == (KindView::Phi {
        incomings: p.incomings,
    }))
}

/// No two entries come from the same block.
pub open spec fn are_distinct(incomings: Seq<(BlockId, ValueId)>) -> bool {
    forall|j: int, k: int|
        0 <= j < k < incomings.len() ==> (#[trigger] incomings[j]).0 != (#[trigger] incomings[k]).0
}

/// The block `b` of `g` does nothing but branch on a phi, and each of its
/// predecessors can decide the branch.
#[verifier::opaque]
pub open spec fn ready(g: FuncView, b: BlockId, p: PhiBranchView) -> bool {
    &&& g.has_block(b)
    &&& b != g.entry
    &&& g.terminator(b) == Some(
        Terminator::Branch {
            cond: p.cond,
            then_target: p.then_target,
            else_target: p.else_target,
        },
    )
    &&& forall|i: int|
        0 <= i < g.block(b).insts.len() ==> is_nop_or_phi(#[trigger] g.block(b).insts[i], p)
    &&& structural::has_live_phi(g.block(b).insts)
    &&& read_by_branch_only(g, b, p.cond)
    &&& !structural::has_live_phi(g.block(p.then_target).insts)
    &&& !structural::has_live_phi(g.block(p.else_target).insts)
    &&& forall|q: BlockId|
        g.has_block(q) && #[trigger] cfg::edge(g, q, b) ==> util::incoming_from(p.incomings, q)
            is Some
    &&& branches::entries_decidable(g, b, p.incomings)
    &&& are_distinct(p.incomings)
    &&& edit::incomings_wf(p.incomings, g.blocks.len(), g.values.len())
    &&& forall|c: BlockId| g.has_block(c) ==> targets_in(g, #[trigger] g.terminator(c))
    &&& meaning_laws::results_are_computed(g)
}

/// The terminators after the first `n` entries have been decided.
proof fn lemma_entries_decided(g: FuncView, b: BlockId, p: PhiBranchView, n: int)
    requires
        ready(g, b, p),
        0 <= n <= p.incomings.len(),
    ensures
        ({
            let h = branches::entries_decided(g, b, p, n);
            &&& h == (FuncView { blocks: h.blocks, ..g })
            &&& h.blocks.len() == g.blocks.len()
            &&& forall|c: BlockId| #[trigger]
                g.has_block(c) ==> h.block(c).insts == g.block(c).insts
            &&& forall|k: int|
                0 <= k < n ==> h.terminator((#[trigger] p.incomings[k]).0) == branches::decided(
                    g,
                    g.terminator(p.incomings[k].0),
                    b,
                    p,
                    p.incomings[k].1,
                )
            &&& forall|c: BlockId| #[trigger]
                g.has_block(c) && (forall|k: int|
                    0 <= k < n ==> (#[trigger] p.incomings[k]).0 != c) ==> h.terminator(c)
                    == g.terminator(c)
        }),
    decreases n,
{
    reveal(ready);
    if n > 0 {
        lemma_entries_decided(g, b, p, n - 1);
        let before = branches::entries_decided(g, b, p, n - 1);
        let h = branches::entries_decided(g, b, p, n);
        let (pred, v) = p.incomings[n - 1];
        assert(g.has_block(pred));
        assert(before.terminator(pred) == g.terminator(pred));
        assert(h.terminator(pred) == branches::decided(g, g.terminator(pred), b, p, v));
        assert forall|k: int| 0 <= k < n implies h.terminator((#[trigger] p.incomings[k]).0)
            == branches::decided(
            g,
            g.terminator(p.incomings[k].0),
            b,
            p,
            p.incomings[k].1,
        ) by {
            if k < n - 1 {
                assert(p.incomings[k].0 != p.incomings[n - 1].0);
                assert(before.terminator(p.incomings[k].0) == branches::decided(
                    g,
                    g.terminator(p.incomings[k].0),
                    b,
                    p,
                    p.incomings[k].1,
                ));
            }
        }
        assert forall|c: BlockId| #[trigger]
            g.has_block(c) && (forall|k: int|
                0 <= k < n ==> (#[trigger] p.incomings[k]).0 != c) implies h.terminator(c)
            == g.terminator(c) by {
            assert(p.incomings[n - 1].0 != c);
            assert(before.terminator(c) == g.terminator(c));
        }
    }
}

proof fn lemma_without_definition(insts: Seq<InstView>, v: ValueId, i: int)
    requires
        0 <= i,
    ensures
        branches::without_definition(insts, v, i).len() == insts.len(),
        forall|j: int|
            0 <= j < insts.len() ==> (#[trigger] branches::without_definition(insts, v, i)[j])
                == insts[j] || branches::without_definition(insts, v, i)[j] == edit::nop(),
    decreases insts.len() - i,
{
    if i < insts.len() && insts[i].result != Some(v) {
        lemma_without_definition(insts, v, i + 1);
    }
}

/// The threaded function, block by block.
proof fn lemma_threaded(g: FuncView, b: BlockId, p: PhiBranchView)
    requires
        ready(g, b, p),
    ensures
        ({
            let h = branches::threaded(g, b, p);
            &&& h == (FuncView { blocks: h.blocks, ..g })
            &&& h.blocks.len() == g.blocks.len()
            &&& forall|c: BlockId| #[trigger]
                g.has_block(c) && c != b ==> h.block(c).insts == g.block(c).insts
            &&& h.block(b).insts.len() == g.block(b).insts.len()
            &&& forall|j: int|
                0 <= j < g.block(b).insts.len() ==> (#[trigger] h.block(b).insts[j]) == g.block(
                    b,
                ).insts[j] || h.block(b).insts[j] == edit::nop()
            &&& h.terminator(b) == Some(Terminator::Jump(p.else_target))
            &&& forall|k: int|
                0 <= k < p.incomings.len() ==> h.terminator((#[trigger] p.incomings[k]).0)
                    == branches::decided(
                    g,
                    g.terminator(p.incomings[k].0),
                    b,
                    p,
                    p.incomings[k].1,
                )
            &&& forall|c: BlockId| #[trigger]
                g.has_block(c) && c != b && (forall|k: int|
                    0 <= k < p.incomings.len() ==> (#[trigger] p.incomings[k]).0 != c)
                    ==> h.terminator(c) == g.terminator(c)
        }),
{
    reveal(ready);
    let n = p.incomings.len() as int;
    lemma_entries_decided(g, b, p, n);
    let mid = branches::entries_decided(g, b, p, n);
    lemma_without_definition(mid.block(b).insts, p.cond, 0);
    let h = branches::threaded(g, b, p);
    assert(mid.block(b).insts == g.block(b).insts);
    assert forall|k: int| 0 <= k < p.incomings.len() implies h.terminator(
        (#[trigger] p.incomings[k]).0,
    ) == branches::decided(g, g.terminator(p.incomings[k].0), b, p, p.incomings[k].1) by {
        assert(branches::entry_decidable(g, b, p.incomings[k]));
        assert(p.incomings[k].0 != b);
    }
}

/// The states of the two runs agree but for the phi, and control is not in `b`.
#[verifier::opaque]
pub open spec fn corresponds<D, M>(
    g: FuncView,
    m: Meaning<D, M>,
    b: BlockId,
    cond: ValueId,
    s: State<D, M>,
    t: State<D, M>,
) -> bool {
    match (s, t) {
        (
            State::Running { block, env, memory },
            State::Running { block: other, env: data, memory: mem },
        ) => block == other && g.has_block(block) && block != b && memory == mem
            && semantics::alike(env, data, set![cond]) && meaning_laws::constants_kept(g, m, env),
        (State::Running { .. }, _) => false,
        (_, State::Running { .. }) => false,
        _ => s == t,
    }
}

pub open spec fn matching<D, M>(g: FuncView, m: Meaning<D, M>, b: BlockId, cond: ValueId) -> spec_fn(
    State<D, M>,
    State<D, M>,
) -> bool {
    |s: State<D, M>, t: State<D, M>| corresponds(g, m, b, cond, s, t)
}

/// What happens from the arrival at the block to the arrival at an arm.
proof fn lemma_phi_branch_run<D, M>(
    g: FuncView,
    m: Meaning<D, M>,
    b: BlockId,
    p: PhiBranchView,
    pred: BlockId,
    env: Map<ValueId, D>,
    memory: M,
)
    requires
        ready(g, b, p),
        util::incoming_from(p.incomings, pred) is Some,
    ensures
        ({
            let v = util::incoming_from(p.incomings, pred)->Some_0;
            semantics::step(g, m, semantics::arrived(g, pred, b, env, memory))
                == (State::Running {
                block: branches::arm(p, (m.truth)(env[v])),
                env: env.insert(p.cond, env[v]),
                memory,
            })
        }),
{
    reveal(ready);
    let v = util::incoming_from(p.incomings, pred)->Some_0;
    let insts = g.block(b).insts;
    let n = insts.len() as int;
    let i = choose|i: int|
        0 <= i < insts.len() && (#[trigger] insts[i]).kind is Phi && insts[i].result is Some;
    assert(is_nop_or_phi(insts[i], p));
    lemma_phi_assigned(insts, p, n, i, pred, env);
    let after = env.insert(p.cond, env[v]);
    lemma_only_phis(m, insts, p, n, after, memory);
    let arm = branches::arm(p, (m.truth)(env[v]));
    let list = g.block(arm).insts;
    assert(targets_in(g, g.terminator(b)));
    assert forall|j: int| 0 <= j < list.len() implies !((#[trigger] list[j]).kind is Phi)
        || list[j].result is None by {
    }
    semantics::lemma_nothing_assigned(list, list.len() as int, b, after);
}

proof fn lemma_phi_assigned<D>(
    insts: Seq<InstView>,
    p: PhiBranchView,
    n: int,
    at: int,
    pred: BlockId,
    env: Map<ValueId, D>,
)
    requires
        n <= insts.len(),
        forall|i: int| 0 <= i < insts.len() ==> is_nop_or_phi(#[trigger] insts[i], p),
        0 <= at < insts.len(),
        insts[at].kind is Phi,
        util::incoming_from(p.incomings, pred) is Some,
    ensures
        ({
            let v = util::incoming_from(p.incomings, pred)->Some_0;
            let out = semantics::phis_assigned(insts, n, pred, env);
            &&& out == env || out == env.insert(p.cond, env[v])
            &&& at < n ==> out == env.insert(p.cond, env[v])
        }),
    decreases n,
{
    if n > 0 {
        lemma_phi_assigned(insts, p, n - 1, at, pred, env);
        let v = util::incoming_from(p.incomings, pred)->Some_0;
        assert(is_nop_or_phi(insts[n - 1], p));
        assert(env.insert(p.cond, env[v]).insert(p.cond, env[v]) =~= env.insert(p.cond, env[v]));
    }
}

proof fn lemma_only_phis<D, M>(
    m: Meaning<D, M>,
    insts: Seq<InstView>,
    p: PhiBranchView,
    n: int,
    env: Map<ValueId, D>,
    memory: M,
)
    requires
        n <= insts.len(),
        forall|i: int| 0 <= i < insts.len() ==> is_nop_or_phi(#[trigger] insts[i], p),
    ensures
        semantics::executed(m, insts, n, env, memory) == (env, memory),
    decreases n,
{
    if n > 0 {
        lemma_only_phis(m, insts, p, n - 1, env, memory);
        assert(is_nop_or_phi(insts[n - 1], p));
    }
}

/// Where control goes from the end of a block.
pub open spec fn next_block<D, M>(
    m: Meaning<D, M>,
    t: Option<Terminator>,
    env: Map<ValueId, D>,
) -> Option<BlockId> {
    match t {
        Some(Terminator::Jump(target)) => Some(target),
        Some(Terminator::Branch { cond, then_target, else_target }) => Some(
            if (m.truth)(env[cond]) {
                then_target
            } else {
                else_target
            },
        ),
        _ => None,
    }
}

/// The value that the phi takes is not the phi.
proof fn lemma_entry_is_another_value(g: FuncView, b: BlockId, p: PhiBranchView, pred: BlockId)
    requires
        ready(g, b, p),
    ensures
        util::incoming_from(p.incomings, pred) matches Some(v) ==> v != p.cond,
        g.value(p.cond).kind is Inst,
{
    reveal(ready);
    let insts = g.block(b).insts;
    let i = choose|i: int|
        0 <= i < insts.len() && (#[trigger] insts[i]).kind is Phi && insts[i].result is Some;
    assert(is_nop_or_phi(insts[i], p));
    assert(semantics::ignores(g.block(b).insts[i].kind, set![p.cond]));
    semantics::lemma_incoming_is_operand(p.incomings, pred);
    if let Some(v) = util::incoming_from(p.incomings, pred) {
        let list = edit::operands(insts[i].kind);
        let k = choose|k: int| 0 <= k < list.len() && list[k] == v;
        assert(!set![p.cond].contains(list[k]));
    }
}

/// The terminator of the threaded function leads past the block, to the arm
/// that the phi's value selects.
proof fn lemma_next_block<D, M>(
    g: FuncView,
    m: Meaning<D, M>,
    b: BlockId,
    p: PhiBranchView,
    block: BlockId,
    env: Map<ValueId, D>,
    data: Map<ValueId, D>,
)
    requires
        ready(g, b, p),
        m.decides_constants(),
        g.has_block(block),
        block != b,
        semantics::alike(env, data, set![p.cond]),
        meaning_laws::constants_kept(g, m, env),
    ensures
        ({
            let h = branches::threaded(g, b, p);
            let next = next_block(m, g.terminator(block), env);
            let there = next_block(m, h.terminator(block), data);
            if next == Some(b) {
                &&& util::incoming_from(p.incomings, block) is Some
                &&& there == Some(
                    branches::arm(
                        p,
                        (m.truth)(env[util::incoming_from(p.incomings, block)->Some_0]),
                    ),
                )
            } else {
                there == next
            }
        }),
        next_block(m, g.terminator(block), env) is None ==> branches::threaded(
            g,
            b,
            p,
        ).terminator(block) == g.terminator(block),
{
    reveal(ready);
    let h = branches::threaded(g, b, p);
    lemma_threaded(g, b, p);
    meaning_laws::lemma_targets(g, block);
    let reads = edit::terminator_reads(g.terminator(block));
    assert(!reads.contains(p.cond));
    if let Some(Terminator::Branch { cond, then_target, else_target }) = g.terminator(block) {
        assert(reads[0] == cond);
        assert(env[cond] == data[cond]);
    }
    if exists|k: int| 0 <= k < p.incomings.len() && (#[trigger] p.incomings[k]).0 == block {
        let k = choose|k: int|
            0 <= k < p.incomings.len() && (#[trigger] p.incomings[k]).0 == block;
        let v = p.incomings[k].1;
        assert(branches::entry_decidable(g, b, p.incomings[k]));
        assert(h.terminator(p.incomings[k].0) == branches::decided(
            g,
            g.terminator(block),
            b,
            p,
            v,
        ));
        lemma_incoming_found(p.incomings, block, k);
        lemma_incoming_entry(p.incomings, block);
        let w = util::incoming_from(p.incomings, block)->Some_0;
        let j = choose|j: int|
            0 <= j < p.incomings.len() && #[trigger] p.incomings[j] == (block, w);
        if j < k {
            assert(p.incomings[j].0 != p.incomings[k].0);
        } else if k < j {
            assert(p.incomings[k].0 != p.incomings[j].0);
        }
        assert(w == v);
        lemma_entry_is_another_value(g, b, p, block);
        assert(env[v] == data[v]);
        if let Some(taken) = query::bool_of(g, v) {
            assert(g.has_value(v));
            assert(env[v] == (m.constant)(g.value(v).kind->Const_0));
            assert((m.truth)(env[v]) == taken);
        }
    } else {
        assert(h.terminator(block) == g.terminator(block));
        if next_block(m, g.terminator(block), env) == Some(b) {
            assert(cfg::edge(g, block, b));
            lemma_incoming_entry(p.incomings, block);
            let w = util::incoming_from(p.incomings, block)->Some_0;
            let j = choose|j: int|
                0 <= j < p.incomings.len() && #[trigger] p.incomings[j] == (block, w);
            assert(p.incomings[j].0 == block);
        }
    }
}

proof fn lemma_step_threaded<D, M>(
    g: FuncView,
    m: Meaning<D, M>,
    b: BlockId,
    p: PhiBranchView,
    s: State<D, M>,
    t: State<D, M>,
)
    requires
        ready(g, b, p),
        m.decides_constants(),
        corresponds(g, m, b, p.cond, s, t),
    ensures
        exists|k: nat|
            k >= 1 && corresponds(
                g,
                m,
                b,
                p.cond,
                #[trigger] semantics::steps(g, m, s, k),
                semantics::step(branches::threaded(g, b, p), m, t),
            ),
{
    reveal(ready);
    let h = branches::threaded(g, b, p);
    let unread = set![p.cond];
    reveal(corresponds);
    semantics::lemma_few_steps(g, m, s);
    lemma_threaded(g, b, p);
    match (s, t) {
        (
            State::Running { block, env, memory },
            State::Running { block: _, env: data, memory: _ },
        ) => {
            let x = g.block(block).insts;
            let n = x.len() as int;
            assert(h.block(block).insts == x);
            semantics::lemma_executed_alike(m, x, n, env, data, memory, unread);
            meaning_laws::lemma_execution_keeps_constants(g, m, block, n, env, memory);
            let (here, mem) = semantics::executed(m, x, n, env, memory);
            let (there, _) = semantics::executed(m, x, n, data, memory);
            lemma_next_block(g, m, b, p, block, here, there);
            assert(targets_in(g, g.terminator(block)));
            let reads = edit::terminator_reads(g.terminator(block));
            assert(!reads.contains(p.cond));
            match next_block(m, g.terminator(block), here) {
                Some(target) => {
                    if target == b {
                        lemma_phi_branch_run(g, m, b, p, block, here, mem);
                        lemma_entry_is_another_value(g, b, p, block);
                        let v = util::incoming_from(p.incomings, block)->Some_0;
                        let arm = branches::arm(p, (m.truth)(here[v]));
                        assert(targets_in(g, g.terminator(b)));
                        assert(arm != b);
                        let list = g.block(arm).insts;
                        assert(h.block(arm).insts == list);
                        assert forall|j: int| 0 <= j < list.len() implies !((
                        #[trigger] list[j]).kind is Phi) || list[j].result is None by {
                        }
                        semantics::lemma_nothing_assigned(list, list.len() as int, block, there);
                        assert(corresponds(
    g,
    m,
    b,
    p.cond,
    semantics::steps(g, m, s, 2),
    semantics::step(h, m, t),
));
                    } else {
                        let list = g.block(target).insts;
                        let k = list.len() as int;
                        assert(h.block(target).insts == list);
                        semantics::lemma_assigned_alike(list, k, block, here, there, unread);
                        meaning_laws::lemma_assignment_keeps_constants(
                            g,
                            m,
                            target,
                            k,
                            block,
                            here,
                        );
                        assert(corresponds(
    g,
    m,
    b,
    p.cond,
    semantics::steps(g, m, s, 1),
    semantics::step(h, m, t),
));
                    }
                },
                None => {
                    if let Some(Terminator::Return(Some(v))) = g.terminator(block) {
                        assert(reads[0] == v);
                        assert(here[v] == there[v]);
                    }
                    assert(corresponds(
    g,
    m,
    b,
    p.cond,
    semantics::steps(g, m, s, 1),
    semantics::step(h, m, t),
));
                },
            }
        },
        _ => {
            assert(corresponds(
    g,
    m,
    b,
    p.cond,
    semantics::steps(g, m, s, 1),
    semantics::step(h, m, t),
));
        },
    }
}

proof fn lemma_threaded_follows<D, M>(
    g: FuncView,
    m: Meaning<D, M>,
    b: BlockId,
    p: PhiBranchView,
    rel: spec_fn(State<D, M>, State<D, M>) -> bool,
)
    requires
        ready(g, b, p),
        m.decides_constants(),
        rel == matching(g, m, b, p.cond),
    ensures
        semantics::follows(g, branches::threaded(g, b, p), m, rel),
{
    let h = branches::threaded(g, b, p);
    assert forall|s: State<D, M>, t: State<D, M>| #[trigger] semantics::caught_up(
        g,
        h,
        m,
        rel,
        s,
        t,
    ) by {
        if rel(s, t) {
            lemma_step_threaded(g, m, b, p, s, t);
            let k = choose|k: nat|
                k >= 1 && corresponds(
                    g,
                    m,
                    b,
                    p.cond,
                    #[trigger] semantics::steps(g, m, s, k),
                    semantics::step(h, m, t),
                );
            assert(rel(semantics::steps(g, m, s, k), semantics::step(h, m, t)));
        }
    }
}

proof fn lemma_threaded_ends_alike<D, M>(
    g: FuncView,
    m: Meaning<D, M>,
    b: BlockId,
    cond: ValueId,
)
    ensures
        semantics::end_alike(matching(g, m, b, cond)),
{
    reveal(corresponds);
}

proof fn lemma_threaded_start<D, M>(
    g: FuncView,
    m: Meaning<D, M>,
    b: BlockId,
    p: PhiBranchView,
    args: Map<ValueId, D>,
    memory: M,
)
    requires
        ready(g, b, p),
        g.has_block(g.entry),
    ensures
        matching(g, m, b, p.cond)(
            semantics::start(g, m, args, memory),
            semantics::start(branches::threaded(g, b, p), m, args, memory),
        ),
{
    reveal(ready);
    reveal(corresponds);
    lemma_threaded(g, b, p);
    let h = branches::threaded(g, b, p);
    assert(semantics::initial(g, m, args) =~= semantics::initial(h, m, args));
}

/// Threading one block keeps what every call returns.
proof fn lemma_threading_one<D, M>(
    g: FuncView,
    b: BlockId,
    p: PhiBranchView,
    m: Meaning<D, M>,
    args: Map<ValueId, D>,
    memory: M,
    out: State<D, M>,
)
    requires
        ready(g, b, p),
        g.has_block(g.entry),
        m.decides_constants(),
    ensures
        semantics::yields(branches::threaded(g, b, p), m, args, memory, out) == semantics::yields(
            g,
            m,
            args,
            memory,
            out,
        ),
{
    let rel = matching(g, m, b, p.cond);
    lemma_threaded_follows(g, m, b, p, rel);
    lemma_threaded_ends_alike(g, m, b, p.cond);
    lemma_threaded_start(g, m, b, p, args, memory);
    semantics::followers_compute_the_same(
        g,
        branches::threaded(g, b, p),
        m,
        rel,
        args,
        memory,
        out,
    );
}

// ---------------------------------------------------------------------------
// Threading all blocks
// ---------------------------------------------------------------------------

/// Every instruction that is not an empty slot is listed.
pub proof fn lemma_active_complete(insts: Seq<InstView>, n: int, i: int)
    requires
        0 <= i < n <= insts.len() <= usize::MAX,
        !(insts[i].kind is Nop),
    ensures
        query::active_below(insts, n).contains(i as usize),
    decreases n,
{
    let before = query::active_below(insts, n - 1);
    if i == n - 1 {
        assert(query::active_below(insts, n)[before.len() as int] == i as usize);
    } else {
        lemma_active_complete(insts, n - 1, i);
        let k = choose|k: int| 0 <= k < before.len() && before[k] == i as usize;
        assert(query::active_below(insts, n)[k] == i as usize);
    }
}

/// The numbers of blocks and instructions fit the machine.
pub open spec fn fits(f: FuncView) -> bool {
    &&& f.blocks.len() <= usize::MAX
    &&& forall|b: BlockId| #[trigger] f.has_block(b) ==> f.block(b).insts.len() <= usize::MAX
}

/// What holds of a branch on a phi in a valid function.
proof fn lemma_phi_branch(f: FuncView, b: BlockId)
    requires
        verify::valid(f),
        fits(f),
        f.has_block(b),
    ensures
        branches::phi_branch(f, b) matches Some(p) ==> {
            &&& f.terminator(b) == Some(
                Terminator::Branch {
                    cond: p.cond,
                    then_target: p.then_target,
                    else_target: p.else_target,
                },
            )
            &&& forall|i: int|
                0 <= i < f.block(b).insts.len() ==> is_nop_or_phi(
                    #[trigger] f.block(b).insts[i],
                    p,
                )
            &&& structural::has_live_phi(f.block(b).insts)
            &&& read_by_branch_only(f, b, p.cond)
            &&& f.has_block(p.then_target)
            &&& f.has_block(p.else_target)
            &&& !structural::has_live_phi(f.block(p.then_target).insts)
            &&& !structural::has_live_phi(f.block(p.else_target).insts)
            &&& are_distinct(p.incomings)
            &&& edit::incomings_wf(p.incomings, f.blocks.len(), f.values.len())
        },
{
    if let Some(p) = branches::phi_branch(f, b) {
        let insts = f.block(b).insts;
        let n = insts.len() as int;
        let at = query::active(f, b);
        query::lemma_active_below(insts, n);
        let a = at[0] as int;
        assert(0 <= a < n);
        assert forall|i: int| 0 <= i < insts.len() implies is_nop_or_phi(
            #[trigger] insts[i],
            p,
        ) by {
            if !(insts[i].kind is Nop) {
                lemma_active_complete(insts, n, i);
                let k = choose|k: int| 0 <= k < at.len() && at[k] == i as usize;
                assert(k == 0);
            }
        }
        assert(insts[a].kind is Phi && insts[a].result is Some);
        let reads = edit::terminator_reads(f.terminator(b));
        assert(reads[0] == p.cond);
        lemma_single_use(f, b, p.cond);
        query::lemma_terminator_wf(f, b);
        query::lemma_inst_wf(f, b, a);
        assert(verify::block_valid(f, b));
        assert(verify::inst_valid(f, b, a));
        meaning_laws::lemma_targets(f, b);
        lemma_no_phi_behind(f, b, p.then_target);
        lemma_no_phi_behind(f, b, p.else_target);
    }
}

/// A successor whose phis take nothing from the block has none.
proof fn lemma_no_phi_behind(f: FuncView, b: BlockId, t: BlockId)
    requires
        verify::valid(f),
        f.blocks.len() <= usize::MAX,
        f.has_block(b),
        f.has_block(t),
        cfg::edge(f, b, t),
        !branches::phi_takes_from(f.block(t).insts, b),
    ensures
        !structural::has_live_phi(f.block(t).insts),
{
    let insts = f.block(t).insts;
    if structural::has_live_phi(insts) {
        let i = choose|i: int|
            0 <= i < insts.len() && (#[trigger] insts[i]).kind is Phi && insts[i].result is Some;
        assert(verify::block_valid(f, t));
        assert(verify::inst_valid(f, t, i));
        query::lemma_inst_wf(f, t, i);
        if let KindView::Phi { incomings } = insts[i].kind {
            lemma_phi_names(f, incomings, t, b);
            let k = choose|k: int| 0 <= k < incomings.len() && (#[trigger] incomings[k]).0 == b;
            lemma_incoming_found(incomings, b, k);
            assert(branches::kind_takes_from(insts[i].kind, b));
        }
    }
}

/// `g` is `f` with some of the branches on phis in blocks below `k` threaded.
#[verifier::opaque]
pub open spec fn progress(f: FuncView, g: FuncView, k: int) -> bool {
    &&& g.values == f.values
    &&& g.entry == f.entry
    &&& g.blocks.len() == f.blocks.len()
    &&& forall|c: BlockId| #[trigger]
        f.has_block(c) ==> g.block(c).insts.len() == f.block(c).insts.len()
    &&& forall|c: BlockId, i: int|
        f.has_block(c) && 0 <= i < f.block(c).insts.len() ==> (#[trigger] g.block(c).insts[i])
            == f.block(c).insts[i] || g.block(c).insts[i] == edit::nop()
    &&& forall|c: BlockId| #[trigger]
        f.has_block(c) && c.0 >= k && branches::phi_branch(f, c) is Some ==> g.block(c).insts
            == f.block(c).insts
    &&& forall|q: BlockId, c: BlockId|
        f.has_block(q) && f.has_block(c) && branches::phi_branch(f, c) is Some
            && #[trigger] cfg::edge(g, q, c) ==> cfg::edge(f, q, c)
    &&& forall|q: BlockId, c: BlockId|
        #![trigger g.terminator(q), branches::phi_branch(f, c)]
        f.has_block(q) && f.has_block(c) && c.0 >= k && q != c ==> (branches::phi_branch(
            f,
            c,
        ) matches Some(p) ==> !edit::terminator_reads(g.terminator(q)).contains(p.cond))
    &&& forall|c: BlockId| f.has_block(c) ==> targets_in(f, #[trigger] g.terminator(c))
}

proof fn lemma_progress_start(f: FuncView)
    requires
        verify::valid(f),
        fits(f),
    ensures
        progress(f, f, 0),
{
    reveal(progress);
    assert forall|q: BlockId, c: BlockId|
        #![trigger f.terminator(q), branches::phi_branch(f, c)]
        f.has_block(q) && f.has_block(c) && c.0 >= 0 && q != c implies (branches::phi_branch(f, c)
        matches Some(p) ==> !edit::terminator_reads(f.terminator(q)).contains(p.cond)) by {
        lemma_phi_branch(f, c);
    }
    assert forall|c: BlockId| f.has_block(c) implies targets_in(f, #[trigger] f.terminator(c)) by {
        query::lemma_terminator_wf(f, c);
    }
}

proof fn lemma_progress_ready(f: FuncView, g: FuncView, b: BlockId, p: PhiBranchView)
    requires
        verify::valid(f),
        fits(f),
        !query::has_phi(f.block(f.entry).insts),
        progress(f, g, b.0 as int),
        f.has_block(b),
        branches::phi_branch(f, b) == Some(p),
        branches::still_threadable(g, b, p, cfg::preds(f, b)),
    ensures
        ready(g, b, p),
{
    reveal(progress);
    reveal(ready);
    lemma_phi_branch(f, b);
    let n = f.blocks.len() as int;
    let list = cfg::preds(f, b);
    assert(f.has_block(b));
    assert(g.block(b).insts == f.block(b).insts);
    assert(b != f.entry) by {
        let insts = f.block(b).insts;
        let i = choose|i: int|
            0 <= i < insts.len() && (#[trigger] insts[i]).kind is Phi && insts[i].result is Some;
        assert(f.has_inst(b, i));
        assert(f.inst(b, i).kind is Phi);
    }
    assert(read_by_branch_only(g, b, p.cond)) by {
        assert forall|c: BlockId, i: int|
            g.has_block(c) && 0 <= i < g.block(c).insts.len() implies semantics::ignores(
            (#[trigger] g.block(c).insts[i]).kind,
            set![p.cond],
        ) by {
            assert(f.has_block(c));
            assert(semantics::ignores(f.block(c).insts[i].kind, set![p.cond]));
        }
        assert forall|c: BlockId| g.has_block(c) && c != b implies !edit::terminator_reads(
            #[trigger] g.terminator(c),
        ).contains(p.cond) by {
            assert(branches::phi_branch(f, b) is Some);
            assert(f.has_block(c));
        }
    }
    lemma_arm_kept(f, g, b.0 as int, p.then_target);
    lemma_arm_kept(f, g, b.0 as int, p.else_target);
    assert forall|q: BlockId| g.has_block(q) && #[trigger] cfg::edge(g, q, b) implies
        util::incoming_from(p.incomings, q) is Some by {
        assert(f.has_block(q));
        assert(cfg::edge(f, q, b));
        cfg::lemma_preds_below(f, b, n, q);
        let k = choose|k: int| 0 <= k < list.len() && list[k] == q;
        assert(util::incoming_from(p.incomings, list[k]) is Some);
    }
    meaning_laws::lemma_results_are_computed(f);
    assert(meaning_laws::results_are_computed(g)) by {
        assert forall|c: BlockId, i: int|
            g.has_block(c) && 0 <= i < g.block(c).insts.len() implies ((
        #[trigger] g.block(c).insts[i]).result matches Some(v) ==> g.value(v).kind is Inst) by {
            assert(f.has_block(c));
            assert(f.block(c).insts[i].result matches Some(v) ==> f.value(v).kind is Inst);
        }
    }
    assert forall|c: BlockId| g.has_block(c) implies targets_in(g, #[trigger] g.terminator(c)) by {
        assert(f.has_block(c));
        assert(targets_in(f, g.terminator(c)));
    }
}

/// A block without phis stays without phis.
proof fn lemma_arm_kept(f: FuncView, g: FuncView, k: int, t: BlockId)
    requires
        progress(f, g, k),
        f.has_block(t),
        !structural::has_live_phi(f.block(t).insts),
    ensures
        !structural::has_live_phi(g.block(t).insts),
{
    reveal(progress);
    let x = f.block(t).insts;
    let y = g.block(t).insts;
    if structural::has_live_phi(y) {
        let i = choose|i: int|
            0 <= i < y.len() && (#[trigger] y[i]).kind is Phi && y[i].result is Some;
        assert(g.block(t).insts[i] == f.block(t).insts[i] || g.block(t).insts[i] == edit::nop());
        assert(x[i].kind is Phi && x[i].result is Some);
    }
}

pub proof fn lemma_succ(t: Option<Terminator>, c: BlockId)
    ensures
        cfg::succ_list(t).contains(c) <==> match t {
            Some(Terminator::Jump(x)) => x == c,
            Some(Terminator::Branch { cond: _, then_target, else_target }) => then_target == c
                || else_target == c,
            _ => false,
        },
{
    let list = cfg::succ_list(t);
    match t {
        Some(Terminator::Jump(x)) => {
            assert(list[0] == x);
        },
        Some(Terminator::Branch { cond, then_target, else_target }) => {
            assert(list[0] == then_target);
            if then_target != else_target {
                assert(list[1] == else_target);
            }
        },
        _ => {},
    }
}

/// A terminator of the threaded function reads what it read before, or the
/// phi's value; it leads where it led before, or to an arm.
proof fn lemma_threaded_terminator(g: FuncView, b: BlockId, p: PhiBranchView, q: BlockId)
    requires
        ready(g, b, p),
        g.has_block(q),
    ensures
        ({
            let t = g.terminator(q);
            let u = branches::threaded(g, b, p).terminator(q);
            &&& targets_in(g, u)
            &&& forall|c: BlockId| #[trigger]
                cfg::succ_list(u).contains(c) ==> cfg::succ_list(t).contains(c) || c
                    == p.then_target || c == p.else_target
            &&& forall|v: ValueId| #[trigger]
                edit::terminator_reads(u).contains(v) ==> edit::terminator_reads(t).contains(v)
                    || exists|k: int| 0 <= k < p.incomings.len() && (#[trigger] p.incomings[k]).1
                    == v
        }),
{
    reveal(ready);
    lemma_threaded(g, b, p);
    let h = branches::threaded(g, b, p);
    let t = g.terminator(q);
    let u = h.terminator(q);
    assert(targets_in(g, g.terminator(b)));
    assert(targets_in(g, t));
    assert forall|c: BlockId| #[trigger] cfg::succ_list(u).contains(c) implies cfg::succ_list(
        t,
    ).contains(c) || c == p.then_target || c == p.else_target by {
        lemma_succ(u, c);
        lemma_succ(t, c);
        if exists|k: int| 0 <= k < p.incomings.len() && (#[trigger] p.incomings[k]).0 == q {
            let k = choose|k: int| 0 <= k < p.incomings.len() && (#[trigger] p.incomings[k]).0 == q;
            assert(h.terminator(p.incomings[k].0) == branches::decided(
                g,
                t,
                b,
                p,
                p.incomings[k].1,
            ));
        }
    }
    assert forall|v: ValueId| #[trigger] edit::terminator_reads(u).contains(v) implies
        edit::terminator_reads(t).contains(v) || exists|k: int|
        0 <= k < p.incomings.len() && (#[trigger] p.incomings[k]).1 == v by {
        if exists|k: int| 0 <= k < p.incomings.len() && (#[trigger] p.incomings[k]).0 == q {
            let k = choose|k: int| 0 <= k < p.incomings.len() && (#[trigger] p.incomings[k]).0 == q;
            assert(h.terminator(p.incomings[k].0) == branches::decided(
                g,
                t,
                b,
                p,
                p.incomings[k].1,
            ));
            if let Some(Terminator::Branch { cond, then_target, else_target }) = t {
                assert(edit::terminator_reads(t)[0] == cond);
            }
        }
    }
    if exists|k: int| 0 <= k < p.incomings.len() && (#[trigger] p.incomings[k]).0 == q {
        let k = choose|k: int| 0 <= k < p.incomings.len() && (#[trigger] p.incomings[k]).0 == q;
        assert(h.terminator(p.incomings[k].0) == branches::decided(g, t, b, p, p.incomings[k].1));
    }
}

proof fn lemma_progress_step(f: FuncView, g: FuncView, b: BlockId, p: PhiBranchView)
    requires
        verify::valid(f),
        fits(f),
        progress(f, g, b.0 as int),
        f.has_block(b),
        branches::phi_branch(f, b) == Some(p),
        ready(g, b, p),
    ensures
        progress(f, branches::threaded(g, b, p), b.0 + 1),
{
    reveal(progress);
    lemma_phi_branch(f, b);
    lemma_threaded(g, b, p);
    let h = branches::threaded(g, b, p);
    assert forall|c: BlockId| #[trigger] f.has_block(c) implies h.block(c).insts.len() == f.block(
        c,
    ).insts.len() by {
        assert(g.has_block(c));
        assert(g.block(c).insts.len() == f.block(c).insts.len());
    }
    assert forall|c: BlockId, i: int| f.has_block(c) && 0 <= i < f.block(c).insts.len() implies (
    #[trigger] h.block(c).insts[i]) == f.block(c).insts[i] || h.block(c).insts[i]
        == edit::nop() by {
        assert(g.has_block(c));
        assert(g.block(c).insts.len() == f.block(c).insts.len());
        assert(g.block(c).insts[i] == f.block(c).insts[i] || g.block(c).insts[i] == edit::nop());
        if c == b {
            assert(h.block(b).insts[i] == g.block(b).insts[i] || h.block(b).insts[i]
                == edit::nop());
        }
    }
    assert forall|c: BlockId| #[trigger]
        f.has_block(c) && c.0 >= b.0 + 1 && branches::phi_branch(f, c) is Some implies h.block(
        c,
    ).insts == f.block(c).insts by {
        assert(g.has_block(c));
    }
    assert forall|q: BlockId, c: BlockId|
        f.has_block(q) && f.has_block(c) && branches::phi_branch(f, c) is Some
            && #[trigger] cfg::edge(h, q, c) implies cfg::edge(f, q, c) by {
        lemma_phi_branch(f, c);
        lemma_threaded_terminator(g, b, p, q);
        assert(cfg::succ_list(h.terminator(q)).contains(c));
        assert(cfg::edge(g, q, c));
    }
    assert forall|q: BlockId, c: BlockId|
        #![trigger h.terminator(q), branches::phi_branch(f, c)]
        f.has_block(q) && f.has_block(c) && c.0 >= b.0 + 1 && q != c implies (branches::phi_branch(
        f,
        c,
    ) matches Some(o) ==> !edit::terminator_reads(h.terminator(q)).contains(o.cond)) by {
        if let Some(o) = branches::phi_branch(f, c) {
            lemma_phi_branch(f, c);
            lemma_threaded_terminator(g, b, p, q);
            assert(!edit::terminator_reads(g.terminator(q)).contains(o.cond));
            if edit::terminator_reads(h.terminator(q)).contains(o.cond) {
                let k = choose|k: int|
                    0 <= k < p.incomings.len() && (#[trigger] p.incomings[k]).1 == o.cond;
                let insts = f.block(b).insts;
                let i = choose|i: int|
                    0 <= i < insts.len() && (#[trigger] insts[i]).kind is Phi && insts[i].result
                        is Some;
                assert(is_nop_or_phi(insts[i], p));
                assert(semantics::ignores(f.block(b).insts[i].kind, set![o.cond]));
                assert(edit::operands(insts[i].kind)[k] == o.cond);
            }
        }
    }
    assert forall|c: BlockId| f.has_block(c) implies targets_in(f, #[trigger] h.terminator(c)) by {
        lemma_threaded_terminator(g, b, p, c);
    }
}

proof fn lemma_progress_skip(f: FuncView, g: FuncView, k: int)
    requires
        progress(f, g, k),
    ensures
        progress(f, g, k + 1),
{
    reveal(progress);
}

proof fn lemma_threading<D, M>(
    f: FuncView,
    g: FuncView,
    b: int,
    changed: bool,
    m: Meaning<D, M>,
    args: Map<ValueId, D>,
    memory: M,
    out: State<D, M>,
)
    requires
        verify::valid(f),
        fits(f),
        !query::has_phi(f.block(f.entry).insts),
        m.decides_constants(),
        0 <= b,
        progress(f, g, b),
    ensures
        semantics::yields(branches::thread_from(f, g, b, changed).0, m, args, memory, out)
            == semantics::yields(g, m, args, memory, out),
    decreases f.blocks.len() - b,
{
    if b < f.blocks.len() {
        let id = BlockId(b as usize);
        if let Some(p) = branches::phi_branch(f, id) {
            if branches::still_threadable(g, id, p, cfg::preds(f, id)) {
                lemma_progress_ready(f, g, id, p);
                lemma_progress_step(f, g, id, p);
                assert(g.has_block(g.entry)) by {
                    reveal(progress);
                }
                lemma_threading_one(g, id, p, m, args, memory, out);
                lemma_threading(
                    f,
                    branches::threaded(g, id, p),
                    b + 1,
                    true,
                    m,
                    args,
                    memory,
                    out,
                );
            } else {
                lemma_progress_skip(f, g, b);
                lemma_threading(f, g, b + 1, changed, m, args, memory, out);
            }
        } else {
            lemma_progress_skip(f, g, b);
            lemma_threading(f, g, b + 1, changed, m, args, memory, out);
        }
    }
}

/// Deciding branches on phis where the phis' values come from keeps what every
/// call returns, wherever a branch on a constant goes the way that the constant
/// says. The entry block must not hold a phi: nothing leads there first.
pub proof fn threading_keeps_the_meaning<D, M>(
    f: FuncView,
    m: Meaning<D, M>,
    args: Map<ValueId, D>,
    memory: M,
    out: State<D, M>,
)
    requires
        verify::valid(f),
        fits(f),
        !query::has_phi(f.block(f.entry).insts),
        m.decides_constants(),
    ensures
        semantics::yields(branches::phi_branch_step(f).0, m, args, memory, out)
            == semantics::yields(f, m, args, memory, out),
{
    lemma_progress_start(f);
    lemma_threading(f, f, 0, false, m, args, memory, out);
}

} // verus!
