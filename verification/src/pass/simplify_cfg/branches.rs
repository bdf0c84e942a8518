//! Branches whose outcome is known, and phis with a single value.
use vstd::prelude::*;

use crate::cfg;
use crate::cfg::ControlFlowGraph;
use crate::edit;
use crate::ir;
use crate::ir::{
    BlockId, BlockView, FuncView, Function, Inst, InstKind, InstView, KindView, Terminator, ValueId,
};
use crate::pass::simplify_cfg::structural;
use crate::pass::simplify_cfg::structural::remove_phi_incomings;
use crate::query;
use crate::query::{
    active_insts, block_is_empty, const_bool, preds_of, terminator_of, value_use_counts,
};
use crate::util;
use crate::util::{first_incoming, rewrite_function_uses, ValueMap};
use crate::verify::contains_block;

verus! {

// ---------------------------------------------------------------------------
// Branches with a known outcome
// ---------------------------------------------------------------------------

/// The terminator with a branch whose outcome is known turned into a jump.
pub open spec fn straight(f: FuncView, t: Option<Terminator>) -> Option<Terminator> {
    match t {
        Some(Terminator::Branch { cond, then_target, else_target }) => if then_target
            == else_target {
            Some(Terminator::Jump(then_target))
        } else {
            match query::bool_of(f, cond) {
                Some(true) => Some(Terminator::Jump(then_target)),
                Some(false) => Some(Terminator::Jump(else_target)),
                None => t,
            }
        },
        t => t,
    }
}

/// The target that a branch with a known outcome never takes.
pub open spec fn never_taken(f: FuncView, t: Option<Terminator>) -> Option<BlockId> {
    match t {
        Some(Terminator::Branch { cond, then_target, else_target }) => if then_target
            == else_target {
            None
        } else {
            match query::bool_of(f, cond) {
                Some(true) => Some(else_target),
                Some(false) => Some(then_target),
                None => None,
            }
        },
        _ => None,
    }
}

pub open spec fn straightened(f: FuncView) -> FuncView {
    FuncView {
        blocks: f.blocks.map_values(
            |block: BlockView| BlockView { terminator: straight(f, block.terminator), ..block },
        ),
        ..f
    }
}

/// `g` without the edges of the first `n` blocks of `f` that are never taken.
pub open spec fn without_dead_edges(f: FuncView, g: FuncView, n: int) -> FuncView
    decreases n,
{
    if n <= 0 {
        g
    } else {
        let before = without_dead_edges(f, g, n - 1);
        match never_taken(f, f.blocks[n - 1].terminator) {
            Some(target) => structural::drop_edge(before, BlockId((n - 1) as usize), target),
            None => before,
        }
    }
}

/// Some branch has a known outcome.
pub open spec fn some_straight(f: FuncView) -> bool {
    exists|b: int|
        0 <= b < f.blocks.len() && straight(f, (#[trigger] f.blocks[b]).terminator)
            != f.blocks[b].terminator
}

/// The effect of simplifying the branches.
pub open spec fn branch_step(f: FuncView) -> (FuncView, bool) {
    (without_dead_edges(f, straightened(f), f.blocks.len() as int), some_straight(f))
}

fn straighten(func: &Function, t: Option<Terminator>) -> (r: (Option<Terminator>, Option<BlockId>))
    requires
        edit::terminator_wf(t, func@.blocks.len(), func@.values.len()),
    ensures
        r.0 == straight(func@, t),
        r.1 == never_taken(func@, t),
        edit::terminator_wf(r.0, func@.blocks.len(), func@.values.len()),
        r.1 matches Some(b) ==> func@.has_block(b),
{
    match t {
        Some(Terminator::Branch { cond, then_target, else_target }) => {
            if then_target == else_target {
                (Some(Terminator::Jump(then_target)), None)
            } else {
                match const_bool(func, cond) {
                    Some(true) => (Some(Terminator::Jump(then_target)), Some(else_target)),
                    Some(false) => (Some(Terminator::Jump(else_target)), Some(then_target)),
                    None => (t, None),
                }
            }
        },
        _ => (t, None),
    }
}

/// Turns branches whose outcome is known into jumps.
#[verifier::loop_isolation(false)]
pub fn simplify_branches(func: &mut Function) -> (r: bool)
    requires
        old(func)@.wf(),
    ensures
        (final(func)@, r) == branch_step(old(func)@),
        final(func)@.wf(),
{
    let ghost f = func@;
    let ghost want = straightened(f);
    let n = func.blocks.len();
    let mut removed: Vec<Option<BlockId>> = Vec::new();
    let mut changed = false;
    for b in 0..n
        invariant
            func@ == (FuncView { blocks: func@.blocks, ..f }),
            func@.blocks.len() == n,
            func@.wf(),
            forall|j: int| 0 <= j < b ==> #[trigger] func@.blocks[j] == want.blocks[j],
            forall|j: int| b <= j < n ==> #[trigger] func@.blocks[j] == f.blocks[j],
            removed.len() == b,
            forall|j: int|
                0 <= j < b ==> #[trigger] removed@[j] == never_taken(f, f.blocks[j].terminator) && (
                removed@[j] matches Some(t) ==> t.0 < n),
            changed == exists|j: int|
                0 <= j < b && straight(f, (#[trigger] f.blocks[j]).terminator)
                    != f.blocks[j].terminator,
    {
        let id = BlockId(b);
        proof {
            query::lemma_terminator_wf(func@, id);
        }
        let before = terminator_of(func, id);
        let (after, dead) = straighten(func, before);
        assert(before == f.blocks[b as int].terminator);
        assert(after == straight(f, before));
        removed.push(dead);
        if after != before {
            changed = true;
            func.put_terminator(id, after);
        }
        assert(func@.blocks =~= func@.blocks);
    }
    assert(func@.blocks =~= want.blocks);
    for b in 0..n
        invariant
            func@ == without_dead_edges(f, want, b as int),
            func@.blocks.len() == n,
            func@.wf(),
    {
        assert(removed@[b as int] == never_taken(f, f.blocks[b as int].terminator));
        if let Some(target) = removed[b] {
            remove_phi_incomings(func, BlockId(b), target);
        }
    }
    changed
}

// ---------------------------------------------------------------------------
// Phis with a single value
// ---------------------------------------------------------------------------

/// Every entry has the value `v`.
pub open spec fn all_take(incomings: Seq<(BlockId, ValueId)>, v: ValueId) -> bool {
    forall|k: int| 0 <= k < incomings.len() ==> (#[trigger] incomings[k]).1 == v
}

/// A phi that always has the same value: its result and that value.
pub open spec fn trivial_phi(inst: InstView) -> Option<(ValueId, ValueId)> {
    match (inst.result, inst.kind) {
        (Some(result), KindView::Phi { incomings }) => if incomings.len() > 0 && all_take(
            incomings,
            incomings[0].1,
        ) {
            Some((result, incomings[0].1))
        } else {
            None
        },
        _ => None,
    }
}

/// What the trivial phis among the first `n` instructions stand for.
pub open spec fn insts_trivial(
    insts: Seq<InstView>,
    n: int,
    base: Map<ValueId, ValueId>,
) -> Map<ValueId, ValueId>
    decreases n,
{
    if n <= 0 {
        base
    } else {
        let before = insts_trivial(insts, n - 1, base);
        match trivial_phi(insts[n - 1]) {
            Some((result, value)) => before.insert(result, value),
            None => before,
        }
    }
}

/// What the trivial phis of the first `n` blocks stand for.
pub open spec fn blocks_trivial(f: FuncView, n: int) -> Map<ValueId, ValueId>
    decreases n,
{
    if n <= 0 {
        Map::empty()
    } else {
        let insts = f.blocks[n - 1].insts;
        insts_trivial(insts, insts.len() as int, blocks_trivial(f, n - 1))
    }
}

pub open spec fn cleared_insts(insts: Seq<InstView>) -> Seq<InstView> {
    insts.map_values(
        |inst: InstView|
            if trivial_phi(inst) is Some {
                edit::nop()
            } else {
                inst
            },
    )
}

/// The function without its trivial phis.
pub open spec fn cleared(f: FuncView) -> FuncView {
    FuncView {
        blocks: f.blocks.map_values(
            |block: BlockView| BlockView { insts: cleared_insts(block.insts), ..block },
        ),
        ..f
    }
}

pub open spec fn has_trivial_phi(f: FuncView, n: int) -> bool {
    exists|b: int, i: int|
        0 <= b < n && 0 <= i < f.blocks[b].insts.len() && trivial_phi(
            #[trigger] f.blocks[b].insts[i],
        ) is Some
}

/// The effect of removing trivial phis.
pub open spec fn trivial_step(f: FuncView) -> (FuncView, bool) {
    let map = blocks_trivial(f, f.blocks.len() as int);
    (
        util::map_uses(cleared(f), util::resolver(map, f.values.len())),
        has_trivial_phi(f, f.blocks.len() as int),
    )
}

fn is_trivial_phi(inst: &Inst) -> (r: Option<(ValueId, ValueId)>)
    ensures
        r == trivial_phi(inst@),
{
    if let (Some(result), InstKind::Phi { incomings }) = (inst.result, &inst.kind) {
        let n = incomings.len();
        if n == 0 {
            return None;
        }
        let first = incomings[0].1;
        for k in 0..n
            invariant
                n == incomings.len(),
                n > 0,
                inst@.result == Some(result),
                inst@.kind == (KindView::Phi { incomings: incomings@ }),
                first == incomings@[0].1,
                forall|j: int| 0 <= j < k ==> (#[trigger] incomings@[j]).1 == first,
        {
            if incomings[k].1 != first {
                assert(incomings@[k as int].1 != first);
                return None;
            }
        }
        Some((result, first))
    } else {
        None
    }
}

/// Replaces phis that always have the same value by that value.
#[verifier::loop_isolation(false)]
pub fn simplify_trivial_phis(func: &mut Function) -> (r: bool)
    requires
        old(func)@.wf(),
    ensures
        (final(func)@, r) == trivial_step(old(func)@),
        final(func)@.wf(),
{
    let ghost f = func@;
    let ghost want = cleared(f);
    let nb = func.blocks.len();
    let nv = func.values.len();
    let mut map = ValueMap::new();
    let mut changed = false;
    for b in 0..nb
        invariant
            func@ == (FuncView { blocks: func@.blocks, ..f }),
            func@.blocks.len() == nb,
            func@.wf(),
            forall|j: int| 0 <= j < b ==> #[trigger] func@.blocks[j] == want.blocks[j],
            forall|j: int| b <= j < nb ==> #[trigger] func@.blocks[j] == f.blocks[j],
            map@ == blocks_trivial(f, b as int),
            util::range_below(map@, nv as nat),
            changed == has_trivial_phi(f, b as int),
    {
        let id = BlockId(b);
        let ghost insts = f.blocks[b as int].insts;
        let ghost base = map@;
        let ghost changed_before = changed;
        proof {
            query::lemma_terminator_wf(f, id);
            assert(func.blocks.len() == func@.blocks.len());
            assert(func@.blocks[b as int] == f.blocks[b as int]);
        }
        let n = func.blocks[b].insts.len();
        let mut list: Vec<Inst> = Vec::new();
        for i in 0..n
            invariant
                list.len() == i,
                n == insts.len(),
                insts == f.blocks[b as int].insts,
                forall|j: int| 0 <= j < i ==> #[trigger] list@[j]@ == cleared_insts(insts)[j],
                map@ == insts_trivial(insts, i as int, base),
                util::range_below(map@, nv as nat),
                changed == (changed_before || exists|j: int|
                    0 <= j < i && trivial_phi(#[trigger] insts[j]) is Some),
        {
            let inst = &func.blocks[b].insts[i];
            assert(inst@ == insts[i as int]);
            assert(edit::inst_wf(insts[i as int], f.blocks.len(), f.values.len()));
            match is_trivial_phi(inst) {
                Some((result, value)) => {
                    proof {
                        if let KindView::Phi { incomings } = insts[i as int].kind {
                            assert(incomings[0].1.0 < nv);
                        }
                    }
                    map.insert(result, value);
                    list.push(Inst { result: None, kind: InstKind::Nop });
                    changed = true;
                    assert(trivial_phi(insts[i as int]) is Some);
                },
                None => {
                    list.push(inst.clone());
                },
            }
        }
        proof {
            assert(ir::insts_view(list@) =~= cleared_insts(insts));
            assert forall|i: int| 0 <= i < cleared_insts(insts).len() implies edit::inst_wf(
                #[trigger] cleared_insts(insts)[i],
                f.blocks.len(),
                f.values.len(),
            ) by {
                assert(edit::inst_wf(insts[i], f.blocks.len(), f.values.len()));
            }
            assert(changed == has_trivial_phi(f, b + 1)) by {
                if has_trivial_phi(f, b + 1) {
                    let (x, i) = choose|x: int, i: int|
                        0 <= x < b + 1 && 0 <= i < f.blocks[x].insts.len() && trivial_phi(
                            #[trigger] f.blocks[x].insts[i],
                        ) is Some;
                    if x < b {
                        assert(has_trivial_phi(f, b as int));
                    } else {
                        assert(trivial_phi(insts[i]) is Some);
                    }
                }
                if changed && !changed_before {
                    let j = choose|j: int|
                        0 <= j < n && trivial_phi(#[trigger] insts[j]) is Some;
                    assert(trivial_phi(f.blocks[b as int].insts[j]) is Some);
                }
            }
        }
        func.set_insts(id, list);
        assert(func@.blocks[b as int] == want.blocks[b as int]);
    }
    assert(func@.blocks =~= want.blocks);
    rewrite_function_uses(func, &map);
    changed
}

// ---------------------------------------------------------------------------
// Branches on a phi of booleans
// ---------------------------------------------------------------------------

/// A block that holds nothing but a phi and a branch on it.
pub struct PhiBranch {
    pub cond: ValueId,
    pub then_target: BlockId,
    pub else_target: BlockId,
    pub incomings: Vec<(BlockId, ValueId)>,
}

pub struct PhiBranchView {
    pub cond: ValueId,
    pub then_target: BlockId,
    pub else_target: BlockId,
    pub incomings: Seq<(BlockId, ValueId)>,
}

impl View for PhiBranch {
    type V = PhiBranchView;

    open spec fn view(&self) -> PhiBranchView {
        PhiBranchView {
            cond: self.cond,
            then_target: self.then_target,
            else_target: self.else_target,
            incomings: self.incomings@,
        }
    }
}

/// The block does nothing but return.
pub open spec fn only_returns(f: FuncView, b: BlockId) -> bool {
    query::all_nops(f.block(b).insts) && f.terminator(b) matches Some(Terminator::Return(_))
}

/// Some phi of the block takes a value from `pred`.
pub open spec fn phi_takes_from(insts: Seq<InstView>, pred: BlockId) -> bool {
    exists|i: int|
        0 <= i < insts.len() && kind_takes_from((#[trigger] insts[i]).kind, pred)
}

pub open spec fn kind_takes_from(kind: KindView, pred: BlockId) -> bool {
    match kind {
        KindView::Phi { incomings } => util::incoming_from(incomings, pred) is Some,
        _ => false,
    }
}

/// The block `b` as a branch on a phi that can be decided where the phi's
/// values come from.
pub open spec fn phi_branch(f: FuncView, b: BlockId) -> Option<PhiBranchView> {
    match f.terminator(b) {
        Some(Terminator::Branch { cond, then_target, else_target }) => {
            let at = query::active(f, b);
            if at.len() == 1 && f.block(b).insts[at[0] as int].result == Some(cond) {
                match f.block(b).insts[at[0] as int].kind {
                    KindView::Phi { incomings } => if query::uses(f, cond) == 1 && (only_returns(
                        f,
                        then_target,
                    ) || only_returns(f, else_target)) && !phi_takes_from(f.block(then_target).insts, b)
                        && !phi_takes_from(f.block(else_target).insts, b) {
                        Some(PhiBranchView { cond, then_target, else_target, incomings })
                    } else {
                        None
                    },
                    _ => None,
                }
            } else {
                None
            }
        },
        _ => None,
    }
}

/// The entries name exactly the blocks of the list.
pub open spec fn names_exactly(incomings: Seq<(BlockId, ValueId)>, list: Seq<BlockId>) -> bool {
    &&& forall|k: int|
        0 <= k < list.len() ==> util::incoming_from(incomings, #[trigger] list[k]) is Some
    &&& forall|k: int|
        0 <= k < incomings.len() ==> list.contains((#[trigger] incomings[k]).0)
}

/// The entry can be decided at the end of its block: an unconditional jump
/// always can, a branch only if the value is a constant.
pub open spec fn entry_decidable(g: FuncView, b: BlockId, inc: (BlockId, ValueId)) -> bool {
    inc.0 != b && match g.terminator(inc.0) {
        Some(Terminator::Jump(target)) => target == b,
        Some(Terminator::Branch { cond: _, then_target, else_target }) => (then_target == b
            || else_target == b) && query::bool_of(g, inc.1) is Some,
        _ => false,
    }
}

pub open spec fn entries_decidable(
    g: FuncView,
    b: BlockId,
    incomings: Seq<(BlockId, ValueId)>,
) -> bool {
    forall|k: int| 0 <= k < incomings.len() ==> entry_decidable(g, b, #[trigger] incomings[k])
}

/// `p` still describes block `b` of `g`, where `list` are the predecessors.
pub open spec fn still_threadable(
    g: FuncView,
    b: BlockId,
    p: PhiBranchView,
    list: Seq<BlockId>,
) -> bool {
    &&& g.terminator(b) == Some(
        Terminator::Branch {
            cond: p.cond,
            then_target: p.then_target,
            else_target: p.else_target,
        },
    )
    &&& names_exactly(p.incomings, list)
    &&& entries_decidable(g, b, p.incomings)
}

pub open spec fn arm(p: PhiBranchView, taken: bool) -> BlockId {
    if taken {
        p.then_target
    } else {
        p.else_target
    }
}

/// The terminator of a block that led to `b` with the phi's value `v`.
pub open spec fn decided(
    g: FuncView,
    t: Option<Terminator>,
    b: BlockId,
    p: PhiBranchView,
    v: ValueId,
) -> Option<Terminator> {
    match (t, query::bool_of(g, v)) {
        (Some(Terminator::Jump(target)), known) => if target != b {
            t
        } else {
            match known {
                Some(taken) => Some(Terminator::Jump(arm(p, taken))),
                None => Some(
                    Terminator::Branch {
                        cond: v,
                        then_target: p.then_target,
                        else_target: p.else_target,
                    },
                ),
            }
        },
        (Some(Terminator::Branch { cond, then_target, else_target }), Some(taken)) => Some(
            Terminator::Branch {
                cond,
                then_target: if then_target == b {
                    arm(p, taken)
                } else {
                    then_target
                },
                else_target: if else_target == b {
                    arm(p, taken)
                } else {
                    else_target
                },
            },
        ),
        _ => t,
    }
}

/// `g` with the first `n` entries of the phi decided where they come from.
pub open spec fn entries_decided(g: FuncView, b: BlockId, p: PhiBranchView, n: int) -> FuncView
    decreases n,
{
    if n <= 0 {
        g
    } else {
        let before = entries_decided(g, b, p, n - 1);
        let (pred, v) = p.incomings[n - 1];
        before.with_terminator(pred, decided(before, before.terminator(pred), b, p, v))
    }
}

/// The instructions without the first one that defines `v`, searched from `i`.
pub open spec fn without_definition(insts: Seq<InstView>, v: ValueId, i: int) -> Seq<InstView>
    decreases insts.len() - i,
{
    if i < 0 || i >= insts.len() {
        insts
    } else if insts[i].result == Some(v) {
        insts.update(i, edit::nop())
    } else {
        without_definition(insts, v, i + 1)
    }
}

/// `g` when block `b` has been threaded.
pub open spec fn threaded(g: FuncView, b: BlockId, p: PhiBranchView) -> FuncView {
    let h = entries_decided(g, b, p, p.incomings.len() as int);
    h.with_insts(b, without_definition(h.block(b).insts, p.cond, 0)).with_terminator(
        b,
        Some(Terminator::Jump(p.else_target)),
    )
}

/// Threads the phi branches that `f` has from block `b` on, one after another,
/// in `g`.
pub open spec fn thread_from(f: FuncView, g: FuncView, b: int, changed: bool) -> (FuncView, bool)
    decreases f.blocks.len() - b,
{
    if b < 0 || b >= f.blocks.len() {
        (g, changed)
    } else {
        let id = BlockId(b as usize);
        match phi_branch(f, id) {
            Some(p) => if still_threadable(g, id, p, cfg::preds(f, id)) {
                thread_from(f, threaded(g, id, p), b + 1, true)
            } else {
                thread_from(f, g, b + 1, changed)
            },
            None => thread_from(f, g, b + 1, changed),
        }
    }
}

/// The effect of threading branches on phis.
pub open spec fn phi_branch_step(f: FuncView) -> (FuncView, bool) {
    thread_from(f, f, 0, false)
}

fn block_returns(func: &Function, b: BlockId) -> (r: bool)
    requires
        func@.has_block(b),
    ensures
        r == only_returns(func@, b),
{
    if !block_is_empty(func, b) {
        return false;
    }
    match func.blocks[b.0].terminator {
        Some(Terminator::Return(_)) => true,
        _ => false,
    }
}

fn block_takes_from(func: &Function, b: BlockId, pred: BlockId) -> (r: bool)
    requires
        func@.has_block(b),
    ensures
        r == phi_takes_from(func@.block(b).insts, pred),
{
    let n = func.blocks[b.0].insts.len();
    for i in 0..n
        invariant
            func@.has_block(b),
            n == func@.block(b).insts.len(),
            forall|j: int|
                0 <= j < i ==> !kind_takes_from((#[trigger] func@.block(b).insts[j]).kind, pred),
    {
        let inst = &func.blocks[b.0].insts[i];
        assert(inst@ == func@.block(b).insts[i as int]);
        if let InstKind::Phi { incomings } = &inst.kind {
            if first_incoming(incomings, pred).is_some() {
                assert(kind_takes_from(func@.block(b).insts[i as int].kind, pred));
                return true;
            }
        }
    }
    false
}

fn find_phi_branch(func: &Function, use_counts: &Vec<usize>, b: BlockId) -> (r: Option<PhiBranch>)
    requires
        func@.wf(),
        func@.has_block(b),
        use_counts.len() == func@.values.len(),
        forall|v: ValueId|
            func@.has_value(v) ==> query::counts(
                #[trigger] use_counts@[v.0 as int],
                query::uses(func@, v),
            ),
    ensures
        match r {
            Some(p) => phi_branch(func@, b) == Some(p@),
            None => phi_branch(func@, b) is None,
        },
{
    let ghost f = func@;
    proof {
        query::lemma_terminator_wf(f, b);
    }
    if let Some(Terminator::Branch { cond, then_target, else_target }) = func.blocks[b.0].terminator {
        let at = active_insts(func, b);
        if at.len() != 1 {
            return None;
        }
        let inst = &func.blocks[b.0].insts[at[0]];
        assert(inst@ == f.block(b).insts[at@[0] as int]);
        if inst.result != Some(cond) {
            return None;
        }
        if let InstKind::Phi { incomings } = &inst.kind {
            assert(query::counts(use_counts@[cond.0 as int], query::uses(f, cond)));
            if use_counts[cond.0] == 1 && (block_returns(func, then_target) || block_returns(
                func,
                else_target,
            )) && !block_takes_from(func, then_target, b) && !block_takes_from(
                func,
                else_target,
                b,
            ) {
                return Some(
                    PhiBranch {
                        cond,
                        then_target,
                        else_target,
                        incomings: ir::clone_incomings(incomings),
                    },
                );
            }
        }
    }
    None
}

fn entries_name_exactly(incomings: &Vec<(BlockId, ValueId)>, list: &Vec<BlockId>) -> (r: bool)
    ensures
        r == names_exactly(incomings@, list@),
{
    let n = list.len();
    for k in 0..n
        invariant
            n == list.len(),
            forall|j: int|
                0 <= j < k ==> util::incoming_from(incomings@, #[trigger] list@[j]) is Some,
    {
        if first_incoming(incomings, list[k]).is_none() {
            assert(util::incoming_from(incomings@, list@[k as int]) is None);
            return false;
        }
    }
    let m = incomings.len();
    for k in 0..m
        invariant
            m == incomings.len(),
            forall|j: int| 0 <= j < k ==> list@.contains((#[trigger] incomings@[j]).0),
    {
        if !contains_block(list, incomings[k].0) {
            assert(!list@.contains(incomings@[k as int].0));
            return false;
        }
    }
    true
}

fn entries_are_decidable(func: &Function, b: BlockId, incomings: &Vec<(BlockId, ValueId)>) -> (r:
    bool)
    requires
        edit::incomings_wf(incomings@, func@.blocks.len(), func@.values.len()),
    ensures
        r == entries_decidable(func@, b, incomings@),
{
    let n = incomings.len();
    for k in 0..n
        invariant
            n == incomings.len(),
            edit::incomings_wf(incomings@, func@.blocks.len(), func@.values.len()),
            forall|j: int| 0 <= j < k ==> entry_decidable(func@, b, #[trigger] incomings@[j]),
    {
        let (pred, v) = (incomings[k].0, incomings[k].1);
        assert(incomings@[k as int].0.0 < func@.blocks.len());
        assert(incomings@[k as int] == (pred, v));
        let good = pred != b && match func.blocks[pred.0].terminator {
            Some(Terminator::Jump(target)) => target == b,
            Some(Terminator::Branch { cond: _, then_target, else_target }) => (then_target == b
                || else_target == b) && const_bool(func, v).is_some(),
            _ => false,
        };
        assert(good == entry_decidable(func@, b, incomings@[k as int]));
        if !good {
            return false;
        }
    }
    true
}

fn decide(func: &Function, t: Option<Terminator>, b: BlockId, p: &PhiBranch, v: ValueId) -> (r:
    Option<Terminator>)
    requires
        func@.has_value(v),
    ensures
        r == decided(func@, t, b, p@, v),
{
    let known = const_bool(func, v);
    match t {
        Some(Terminator::Jump(target)) => {
            if target != b {
                return t;
            }
            match known {
                Some(taken) => Some(
                    Terminator::Jump(
                        if taken {
                            p.then_target
                        } else {
                            p.else_target
                        },
                    ),
                ),
                None => Some(
                    Terminator::Branch {
                        cond: v,
                        then_target: p.then_target,
                        else_target: p.else_target,
                    },
                ),
            }
        },
        Some(Terminator::Branch { cond, then_target, else_target }) => match known {
            Some(taken) => {
                let chosen = if taken {
                    p.then_target
                } else {
                    p.else_target
                };
                Some(
                    Terminator::Branch {
                        cond,
                        then_target: if then_target == b {
                            chosen
                        } else {
                            then_target
                        },
                        else_target: if else_target == b {
                            chosen
                        } else {
                            else_target
                        },
                    },
                )
            },
            None => t,
        },
        _ => t,
    }
}

/// Deletes the first instruction of a block that defines `v`.
fn clear_definition(func: &mut Function, b: BlockId, v: ValueId)
    requires
        old(func)@.has_block(b),
    ensures
        final(func)@ == old(func)@.with_insts(
            b,
            without_definition(old(func)@.block(b).insts, v, 0),
        ),
        old(func)@.wf() ==> final(func)@.wf(),
{
    let ghost f = func@;
    let ghost insts = f.block(b).insts;
    let n = func.blocks[b.0].insts.len();
    for i in 0..n
        invariant
            func@ == f,
            old(func)@ == f,
            f.has_block(b),
            insts == f.block(b).insts,
            n == insts.len(),
            without_definition(insts, v, 0) == without_definition(insts, v, i as int),
    {
        let inst = &func.blocks[b.0].insts[i];
        assert(inst@ == insts[i as int]);
        if inst.result == Some(v) {
            func.clear_inst(b, i);
            return;
        }
    }
    assert(f.with_insts(b, insts).blocks =~= f.blocks);
}

fn thread_phi_branch(func: &mut Function, b: BlockId, p: &PhiBranch)
    requires
        old(func)@.wf(),
        old(func)@.has_block(b),
        old(func)@.has_block(p.then_target),
        old(func)@.has_block(p.else_target),
        edit::incomings_wf(p.incomings@, old(func)@.blocks.len(), old(func)@.values.len()),
    ensures
        final(func)@ == threaded(old(func)@, b, p@),
        final(func)@.wf(),
        final(func)@.blocks.len() == old(func)@.blocks.len(),
        final(func)@.values == old(func)@.values,
{
    let ghost g = func@;
    let n = p.incomings.len();
    for k in 0..n
        invariant
            n == p.incomings.len(),
            func@ == entries_decided(g, b, p@, k as int),
            func@.wf(),
            func@.blocks.len() == g.blocks.len(),
            func@.values == g.values,
            g.has_block(p.then_target),
            g.has_block(p.else_target),
            edit::incomings_wf(p.incomings@, g.blocks.len(), g.values.len()),
    {
        let (pred, v) = (p.incomings[k].0, p.incomings[k].1);
        assert(p.incomings@[k as int].0.0 < g.blocks.len());
        proof {
            query::lemma_terminator_wf(func@, pred);
        }
        let t = terminator_of(func, pred);
        let after = decide(func, t, b, p, v);
        func.put_terminator(pred, after);
    }
    clear_definition(func, b, p.cond);
    func.put_terminator(b, Some(Terminator::Jump(p.else_target)));
}

/// Decides a branch on a phi of booleans at the places that the phi's values
/// come from.
#[verifier::loop_isolation(false)]
pub fn thread_boolean_phi_branches(func: &mut Function) -> (r: bool)
    requires
        old(func)@.wf(),
    ensures
        (final(func)@, r) == phi_branch_step(old(func)@),
        final(func)@.wf(),
{
    let before = func.clone();
    let ghost f = before@;
    let use_counts = value_use_counts(&before);
    let graph = ControlFlowGraph::new(&before);
    let n = before.blocks.len();
    let mut changed = false;
    for b in 0..n
        invariant
            func@.wf(),
            func@.blocks.len() == n,
            func@.values == f.values,
            thread_from(f, f, 0, false) == thread_from(f, func@, b as int, changed),
    {
        let id = BlockId(b);
        if let Some(p) = find_phi_branch(&before, &use_counts, id) {
            proof {
                query::lemma_terminator_wf(f, id);
                assert(before.blocks@[b as int].insts.len() == f.block(id).insts.len());
                query::lemma_active_below(f.block(id).insts, f.block(id).insts.len() as int);
                query::lemma_inst_wf(f, id, query::active(f, id)[0] as int);
                assert(func.blocks.len() == func@.blocks.len());
            }
            let here = terminator_of(func, id);
            let same = match here {
                Some(Terminator::Branch { cond, then_target, else_target }) => cond == p.cond
                    && then_target == p.then_target && else_target == p.else_target,
                _ => false,
            };
            if same && entries_name_exactly(&p.incomings, preds_of(&before, &graph, id))
                && entries_are_decidable(func, id, &p.incomings) {
                thread_phi_branch(func, id, &p);
                changed = true;
            }
        }
    }
    changed
}

} // verus!
