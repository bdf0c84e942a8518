//! Jump threading: an edge is led past branches whose outcome it decides.
use vstd::prelude::*;

use crate::cfg;
use crate::cfg::{reach_from, ControlFlowGraph, Dominators};
use crate::edit;
use crate::edit::{inst_operands, terminator_operands};
use crate::ir;
use crate::ir::{
    BinaryOp, BlockId, CastOp, FuncView, Function, Inst, InstKind, InstView, KindView, Terminator,
    UnaryOp, ValueId,
};
use crate::pass::simplify_cfg::known_bits;
use crate::pass::simplify_cfg::known_bits::{
    collect_known_bit_facts, known_bool_at, KnownBitFact,
};
use crate::pass::simplify_cfg::structural;
use crate::pass::simplify_cfg::structural::remove_phi_incomings;
use crate::query;
use crate::query::{block_has_phi, jump_target, terminator_of, unique_incoming};
use crate::util;
use crate::util::{defining_block, resolve_kind, ValueMap};
use crate::verify;
use crate::verify::contains_block;

verus! {

pub const MAX_BLOCKS: usize = 1024;

pub const MAX_THREADED_BLOCKS: usize = 6;

pub const MAX_DUPLICATED_INSTS: usize = 12;

pub const MAX_PROVEN_BRANCHES: usize = 4;

/// How many replacements are followed for one value. A replacement names a value
/// as it is at the end of the new block, so it is not replaced again.
pub const RESOLVE_STEPS: usize = 1;

/// The work that goes into deciding one branch.
pub const PROOF_WORK: usize = 256;

// ---------------------------------------------------------------------------
// Mathematical model
// ---------------------------------------------------------------------------

pub open spec fn resolved(map: Map<ValueId, ValueId>, v: ValueId) -> ValueId {
    util::resolve(map, v, RESOLVE_STEPS as nat)
}

/// What the phis from position `i` on stand for when control comes from
/// `pred`; `None` if a phi has no single value for it or is out of place. All
/// phis of a block take their values at once: each value is read as it was
/// before the block, through `entry`.
pub open spec fn phis_mapped(
    insts: Seq<InstView>,
    i: int,
    past_phis: bool,
    pred: BlockId,
    entry: Map<ValueId, ValueId>,
    map: Map<ValueId, ValueId>,
) -> Option<Map<ValueId, ValueId>>
    decreases insts.len() - i,
{
    if i < 0 || i >= insts.len() {
        Some(map)
    } else {
        match (insts[i].result, insts[i].kind) {
            (_, KindView::Nop) => phis_mapped(insts, i + 1, past_phis, pred, entry, map),
            (Some(result), KindView::Phi { incomings }) => if past_phis {
                None
            } else {
                match query::sole_incoming(incomings, pred) {
                    Some(v) => phis_mapped(
                        insts,
                        i + 1,
                        past_phis,
                        pred,
                        entry,
                        map.insert(result, resolved(entry, v)),
                    ),
                    None => None,
                }
            },
            (None, KindView::Phi { .. }) => None,
            _ => phis_mapped(insts, i + 1, true, pred, entry, map),
        }
    }
}

/// An operation that may be duplicated.
pub open spec fn threadable(kind: KindView) -> bool {
    match kind {
        KindView::Unary { op, .. } => op == UnaryOp::Ineg || op == UnaryOp::Not,
        KindView::Binary { op, .. } => !(op == BinaryOp::Idiv || op == BinaryOp::Imod || op
            == BinaryOp::Fadd || op == BinaryOp::Fsub || op == BinaryOp::Fmul || op
            == BinaryOp::Fdiv),
        KindView::ICompare { .. } => true,
        KindView::Cast { op, .. } => op == CastOp::BoolToI32 || op == CastOp::I32ToBool,
        _ => false,
    }
}

/// What threading has built so far.
pub struct Progress {
    pub f: FuncView,
    pub map: Map<ValueId, ValueId>,
    pub duplicated: nat,
}

/// Copies the operations from position `i` on to the end of block `thread`;
/// `None` if one may not be copied or there are too many.
pub open spec fn copied(p: Progress, thread: BlockId, insts: Seq<InstView>, i: int) -> Option<
    Progress,
>
    decreases insts.len() - i,
{
    if i < 0 || i >= insts.len() {
        Some(p)
    } else {
        let inst = insts[i];
        if inst.kind is Nop || inst.kind is Phi {
            copied(p, thread, insts, i + 1)
        } else {
            match inst.result {
                Some(old) => if !threadable(inst.kind) || p.duplicated + 1
                    > MAX_DUPLICATED_INSTS {
                    None
                } else {
                    let kind = util::map_kind(
                        inst.kind,
                        util::resolver(p.map, RESOLVE_STEPS as nat),
                    );
                    copied(
                        Progress {
                            f: p.f.append(thread, kind, p.f.value(old).ty),
                            map: p.map.insert(old, p.f.next_value()),
                            duplicated: p.duplicated + 1,
                        },
                        thread,
                        insts,
                        i + 1,
                    )
                },
                None => None,
            }
        }
    }
}

/// The phi can take a value from the new block as well.
pub open spec fn phi_extends(inst: InstView, thread: BlockId, from: BlockId) -> bool {
    match inst.kind {
        KindView::Phi { incomings } => query::sole_incoming(incomings, from) is Some
            && util::incoming_from(incomings, thread) is None,
        _ => true,
    }
}

pub open spec fn phis_extend(insts: Seq<InstView>, thread: BlockId, from: BlockId) -> bool {
    forall|i: int|
        0 <= i < insts.len() && verify::phis_lead(insts, i) ==> phi_extends(
            #[trigger] insts[i],
            thread,
            from,
        )
}

pub open spec fn extended_inst(
    inst: InstView,
    thread: BlockId,
    from: BlockId,
    map: Map<ValueId, ValueId>,
) -> InstView {
    match inst.kind {
        KindView::Phi { incomings } => match query::sole_incoming(incomings, from) {
            Some(v) => InstView {
                kind: KindView::Phi { incomings: incomings.push((thread, resolved(map, v))) },
                ..inst
            },
            None => inst,
        },
        _ => inst,
    }
}

pub open spec fn extended_insts(
    insts: Seq<InstView>,
    thread: BlockId,
    from: BlockId,
    map: Map<ValueId, ValueId>,
) -> Seq<InstView> {
    Seq::new(
        insts.len(),
        |i: int|
            if verify::phis_lead(insts, i) {
                extended_inst(insts[i], thread, from, map)
            } else {
                insts[i]
            },
    )
}

/// The leading phis of `target` take from `thread` what they take from `from`.
pub open spec fn edge_added(
    f: FuncView,
    thread: BlockId,
    from: BlockId,
    target: BlockId,
    map: Map<ValueId, ValueId>,
) -> Option<FuncView> {
    let insts = f.block(target).insts;
    if phis_extend(insts, thread, from) {
        Some(f.with_insts(target, extended_insts(insts, thread, from, map)))
    } else {
        None
    }
}

/// The two edges of a branch that ends the new block.
pub open spec fn branch_added(
    f: FuncView,
    thread: BlockId,
    from: BlockId,
    then_target: BlockId,
    else_target: BlockId,
    map: Map<ValueId, ValueId>,
) -> Option<FuncView> {
    match edge_added(f, thread, from, then_target, map) {
        Some(g) => edge_added(g, thread, from, else_target, map),
        None => None,
    }
}

/// Ends the new block with a jump to `target`.
pub open spec fn closed(
    f: FuncView,
    thread: BlockId,
    from: BlockId,
    target: BlockId,
    map: Map<ValueId, ValueId>,
    proven: nat,
) -> Option<(FuncView, Terminator, nat)> {
    match edge_added(f, thread, from, target, map) {
        Some(g) => Some((g, Terminator::Jump(target), proven)),
        None => None,
    }
}

/// Some value of the list is defined in block `d`.
pub open spec fn owned_in(f: FuncView, list: Seq<ValueId>, d: BlockId) -> bool {
    exists|k: int| 0 <= k < list.len() && util::def_block(f, #[trigger] list[k]) == Some(d)
}

/// Control can pass from the start of `start` to block `u` without running `d`.
pub open spec fn is_behind(f: FuncView, start: BlockId, d: BlockId, u: BlockId) -> bool {
    u != d && cfg::reaches(cfg::succ_lists(f), start, u, Some(d))
}

/// The phi reads a value of `d` where `d` has not run again.
pub open spec fn entry_is_stale(
    f: FuncView,
    start: BlockId,
    d: BlockId,
    entry: (BlockId, ValueId),
) -> bool {
    is_behind(f, start, d, entry.0) && util::def_block(f, entry.1) == Some(d)
}

/// The instruction reads a value of `d` where `d` has not run again.
pub open spec fn inst_is_stale(f: FuncView, start: BlockId, d: BlockId, c: BlockId, i: int) -> bool {
    match f.inst(c, i).kind {
        KindView::Phi { incomings } => exists|k: int|
            0 <= k < incomings.len() && entry_is_stale(f, start, d, #[trigger] incomings[k]),
        kind => is_behind(f, start, d, c) && owned_in(f, edit::operands(kind), d),
    }
}

/// The block reads a value of `d` where `d` has not run again.
pub open spec fn block_is_stale(f: FuncView, start: BlockId, d: BlockId, c: BlockId) -> bool {
    ||| exists|i: int| f.has_inst(c, i) && #[trigger] inst_is_stale(f, start, d, c, i)
    ||| is_behind(f, start, d, c) && owned_in(f, edit::terminator_reads(f.terminator(c)), d)
}

/// From `start` on, the values of `d` are read only where `d` has run again.
pub open spec fn is_recomputed(f: FuncView, start: BlockId, d: BlockId) -> bool {
    forall|c: BlockId| #[trigger] f.has_block(c) ==> !block_is_stale(f, start, d, c)
}

/// From `start` on, the values of the blocks that were led past are read only
/// where the blocks have run again.
pub open spec fn all_recomputed(f: FuncView, start: BlockId, passed: Seq<BlockId>) -> bool {
    forall|k: int| 0 <= k < passed.len() ==> is_recomputed(f, start, #[trigger] passed[k])
}

/// Follows the edge from `from` to `current` and on, copying what is computed
/// on the way to block `thread`, as long as the branches are decided. Gives
/// the function, the end of the new block and the number of branches decided.
pub open spec fn followed(
    p: Progress,
    base: FuncView,
    pred: BlockId,
    facts: Seq<KnownBitFact>,
    thread: BlockId,
    visited: Seq<BlockId>,
    current: BlockId,
    from: BlockId,
    proven: nat,
) -> Option<(FuncView, Terminator, nat)>
    decreases MAX_THREADED_BLOCKS - visited.len(),
{
    if visited.len() >= MAX_THREADED_BLOCKS || visited.contains(current) {
        None
    } else {
        let seen = visited.push(current);
        let insts = p.f.block(current).insts;
        match phis_mapped(insts, 0, false, from, p.map, p.map) {
            None => None,
            Some(map) => match copied(Progress { map, ..p }, thread, insts, 0) {
                None => None,
                Some(q) => match q.f.terminator(current) {
                    None => None,
                    Some(Terminator::Return(None)) => Some(
                        (q.f, Terminator::Return(None), proven),
                    ),
                    Some(Terminator::Return(Some(v))) => Some(
                        (q.f, Terminator::Return(Some(resolved(q.map, v))), proven),
                    ),
                    Some(Terminator::Jump(target)) => if seen.contains(target) {
                        if all_recomputed(base, target, seen) {
                            closed(q.f, thread, current, target, q.map, proven)
                        } else {
                            None
                        }
                    } else {
                        followed(q, base, pred, facts, thread, seen, target, current, proven)
                    },
                    Some(Terminator::Branch { cond, then_target, else_target }) => {
                        let c = resolved(q.map, cond);
                        match known_bits::bool_at(
                            q.f,
                            base,
                            c,
                            pred,
                            facts,
                            0,
                            PROOF_WORK as nat,
                        ).0 {
                            None => if proven == 0 || !all_recomputed(base, then_target, seen)
                                || !all_recomputed(base, else_target, seen) {
                                None
                            } else {
                                match branch_added(
                                    q.f,
                                    thread,
                                    current,
                                    then_target,
                                    else_target,
                                    q.map,
                                ) {
                                    Some(g) => Some(
                                        (
                                            g,
                                            Terminator::Branch {
                                                cond: c,
                                                then_target,
                                                else_target,
                                            },
                                            proven,
                                        ),
                                    ),
                                    None => None,
                                }
                            },
                            Some(taken) => {
                                let target = if taken {
                                    then_target
                                } else {
                                    else_target
                                };
                                if proven + 1 > MAX_PROVEN_BRANCHES {
                                    None
                                } else if seen.contains(target) {
                                    if all_recomputed(base, target, seen) {
                                        closed(q.f, thread, current, target, q.map, proven + 1)
                                    } else {
                                        None
                                    }
                                } else {
                                    followed(
                                        q,
                                        base,
                                        pred,
                                        facts,
                                        thread,
                                        seen,
                                        target,
                                        current,
                                        proven + 1,
                                    )
                                }
                            },
                        }
                    },
                },
            },
        }
    }
}

/// The function with the edge from `pred` to `header` threaded.
pub open spec fn edge_threaded(
    f: FuncView,
    pred: BlockId,
    header: BlockId,
    facts: Seq<KnownBitFact>,
) -> Option<FuncView> {
    let thread = f.next_block();
    let start = Progress {
        f: f.add_block("jump.thread"@),
        map: Map::empty(),
        duplicated: 0,
    };
    if query::jump_of(f, pred) != Some(header) || !query::has_phi(f.block(header).insts) {
        None
    } else {
        match followed(start, f, pred, facts, thread, Seq::empty(), header, pred, 0) {
            Some((g, end, proven)) => {
                let h = structural::drop_edge(g, pred, header).with_terminator(
                    pred,
                    Some(Terminator::Jump(thread)),
                ).with_terminator(thread, Some(end));
                if proven > 0 && verify::valid(h) {
                    Some(h)
                } else {
                    None
                }
            },
            None => None,
        }
    }
}

/// The state that is kept between rounds: the function, the edges that were
/// tried and the attempts that are left.
pub struct ThreadState {
    pub f: FuncView,
    pub attempted: Seq<BlockId>,
    pub budget: nat,
}

/// Tries the edges of the blocks from `pred` on until one is threaded.
pub open spec fn threads_from(
    s: ThreadState,
    facts: Seq<KnownBitFact>,
    limit: nat,
    pred: int,
) -> (ThreadState, bool)
    decreases s.f.blocks.len() - pred,
{
    if pred < 0 || pred >= s.f.blocks.len() || pred >= limit || s.budget == 0 {
        (s, false)
    } else {
        let id = BlockId(pred as usize);
        match query::jump_of(s.f, id) {
            Some(target) => if target != id && !s.attempted.contains(id) {
                let next = ThreadState {
                    attempted: s.attempted.push(id),
                    budget: (s.budget - 1) as nat,
                    ..s
                };
                match edge_threaded(s.f, id, target, facts) {
                    Some(g) => (ThreadState { f: g, ..next }, true),
                    None => threads_from(next, facts, limit, pred + 1),
                }
            } else {
                threads_from(s, facts, limit, pred + 1)
            },
            None => threads_from(s, facts, limit, pred + 1),
        }
    }
}

/// The effect of one round of threading.
pub open spec fn thread_step(s: ThreadState, limit: nat) -> (ThreadState, bool) {
    if s.f.blocks.len() > MAX_BLOCKS || s.budget == 0 {
        (s, false)
    } else {
        threads_from(s, known_bits::all_facts(s.f), limit, 0)
    }
}

// ---------------------------------------------------------------------------
// Executable threading
// ---------------------------------------------------------------------------

/// Maps the phis of a block to the values that come from `pred`.
#[verifier::loop_isolation(false)]
fn map_threaded_phis(func: &Function, block: BlockId, pred: BlockId, map: &mut ValueMap) -> (r: bool)
    requires
        func@.wf(),
        func@.has_block(block),
        util::range_below(old(map)@, func@.values.len()),
    ensures
        r ==> phis_mapped(func@.block(block).insts, 0, false, pred, old(map)@, old(map)@) == Some(
            final(map)@,
        ),
        !r ==> phis_mapped(func@.block(block).insts, 0, false, pred, old(map)@, old(map)@) is None,
        util::range_below(final(map)@, func@.values.len()),
{
    let ghost insts = func@.block(block).insts;
    let entry = map.clone();
    let ghost start = entry@;
    let n = func.blocks[block.0].insts.len();
    let mut past_phis = false;
    for i in 0..n
        invariant
            func@.wf(),
            func@.has_block(block),
            insts == func@.block(block).insts,
            n == insts.len(),
            util::range_below(map@, func@.values.len()),
            util::range_below(start, func@.values.len()),
            start == entry@,
            phis_mapped(insts, 0, false, pred, start, start) == phis_mapped(
                insts,
                i as int,
                past_phis,
                pred,
                start,
                map@,
            ),
    {
        let inst = &func.blocks[block.0].insts[i];
        assert(inst@ == insts[i as int]);
        proof {
            query::lemma_inst_wf(func@, block, i as int);
            assert(func.values.len() == func@.values.len());
        }
        match &inst.kind {
            InstKind::Nop => {},
            InstKind::Phi { incomings } => {
                if past_phis {
                    return false;
                }
                match inst.result {
                    Some(result) => {
                        match unique_incoming(incomings, pred) {
                            Some(v) => {
                                let w = entry.resolve(v, RESOLVE_STEPS);
                                proof {
                                    query::lemma_sole_incoming_wf(
                                        incomings@,
                                        pred,
                                        func@.blocks.len(),
                                        func@.values.len(),
                                    );
                                    util::lemma_resolve_in_range(
                                        start,
                                        v,
                                        RESOLVE_STEPS as nat,
                                        func@.values.len(),
                                    );
                                }
                                map.insert(result, w);
                            },
                            None => {
                                return false;
                            },
                        }
                    },
                    None => {
                        return false;
                    },
                }
            },
            _ => {
                past_phis = true;
            },
        }
    }
    true
}

fn is_threadable(kind: &InstKind) -> (r: bool)
    ensures
        r == threadable(kind@),
{
    match kind {
        InstKind::Unary { op, .. } => *op == UnaryOp::Ineg || *op == UnaryOp::Not,
        InstKind::Binary { op, .. } => match *op {
            BinaryOp::Idiv => false,
            BinaryOp::Imod => false,
            BinaryOp::Fadd => false,
            BinaryOp::Fsub => false,
            BinaryOp::Fmul => false,
            BinaryOp::Fdiv => false,
            _ => true,
        },
        InstKind::ICompare { .. } => true,
        InstKind::Cast { op, .. } => *op == CastOp::BoolToI32 || *op == CastOp::I32ToBool,
        _ => false,
    }
}

/// Copies the operations of a block to the end of block `thread`.
#[verifier::loop_isolation(false)]
fn copy_operations(
    func: &mut Function,
    thread: BlockId,
    block: BlockId,
    map: &mut ValueMap,
    duplicated: &mut usize,
) -> (r: bool)
    requires
        old(func)@.wf(),
        old(func)@.has_block(thread),
        old(func)@.has_block(block),
        util::range_below(old(map)@, old(func)@.values.len()),
        *old(duplicated) <= MAX_DUPLICATED_INSTS,
    ensures
        ({
            let start = Progress {
                f: old(func)@,
                map: old(map)@,
                duplicated: *old(duplicated) as nat,
            };
            let end = Progress {
                f: final(func)@,
                map: final(map)@,
                duplicated: *final(duplicated) as nat,
            };
            let want = copied(start, thread, old(func)@.block(block).insts, 0);
            (r ==> want == Some(end)) && (!r ==> want is None)
        }),
        final(func)@.wf(),
        final(func)@.blocks.len() == old(func)@.blocks.len(),
        forall|c: BlockId| #[trigger]
            old(func)@.has_block(c) ==> final(func)@.terminator(c) == old(func)@.terminator(c),
        util::range_below(final(map)@, final(func)@.values.len()),
        *final(duplicated) <= MAX_DUPLICATED_INSTS,
{
    let ghost f0 = func@;
    let ghost insts = func@.block(block).insts;
    let ghost start = Progress { f: func@, map: map@, duplicated: *duplicated as nat };
    let ghost nb = func@.blocks.len();
    let ghost nv = func@.values.len();
    proof {
        query::lemma_terminator_wf(func@, block);
    }
    let source = func.blocks[block.0].clone();
    assert(source@ == func@.block(block));
    let n = source.insts.len();
    for i in 0..n
        invariant
            func@.wf(),
            func@.blocks.len() == nb,
            forall|c: BlockId| #[trigger]
                f0.has_block(c) ==> func@.terminator(c) == f0.terminator(c),
            func@.values.len() >= nv,
            func@.has_block(thread),
            util::range_below(map@, func@.values.len()),
            *duplicated <= MAX_DUPLICATED_INSTS,
            copied(start, thread, insts, 0) == copied(
                Progress { f: func@, map: map@, duplicated: *duplicated as nat },
                thread,
                insts,
                i as int,
            ),
    {
        let inst = &source.insts[i];
        assert(inst@ == insts[i as int]);
        assert(edit::inst_wf(insts[i as int], nb, nv));
        match inst.kind {
            InstKind::Nop => {},
            InstKind::Phi { .. } => {},
            _ => {
                let old_result = match inst.result {
                    Some(v) => v,
                    None => {
                        return false;
                    },
                };
                if !is_threadable(&inst.kind) || *duplicated + 1 > MAX_DUPLICATED_INSTS {
                    return false;
                }
                let kind = resolve_kind(&inst.kind, map, RESOLVE_STEPS);
                proof {
                    assert(func.values.len() == func@.values.len());
                    util::lemma_resolver_keeps_range(
                        map@,
                        RESOLVE_STEPS as nat,
                        func@.values.len(),
                    );
                    assert(edit::kind_wf(inst@.kind, nb, func@.values.len()));
                    util::lemma_map_kind_wf(
                        inst@.kind,
                        util::resolver(map@, RESOLVE_STEPS as nat),
                        nb,
                        func@.values.len(),
                    );
                }
                let ty = func.values[old_result.0].ty.clone();
                let copy = func.append_value(thread, kind, ty);
                assert(func@.values.len() == func.values.len());
                map.insert(old_result, copy);
                *duplicated = *duplicated + 1;
            },
        }
    }
    true
}

fn phis_can_extend(func: &Function, target: BlockId, thread: BlockId, from: BlockId) -> (r: bool)
    requires
        func@.has_block(target),
    ensures
        r == phis_extend(func@.block(target).insts, thread, from),
{
    let ghost insts = func@.block(target).insts;
    let n = func.blocks[target.0].insts.len();
    for i in 0..n
        invariant
            func@.has_block(target),
            insts == func@.block(target).insts,
            n == insts.len(),
            verify::phis_lead(insts, i as int),
            forall|j: int| 0 <= j < i ==> phi_extends(#[trigger] insts[j], thread, from),
    {
        let inst = &func.blocks[target.0].insts[i];
        assert(inst@ == insts[i as int]);
        match &inst.kind {
            InstKind::Phi { incomings } => {
                if unique_incoming(incomings, from).is_none() || util::first_incoming(
                    incomings,
                    thread,
                ).is_some() {
                    assert(!phi_extends(insts[i as int], thread, from));
                    return false;
                }
            },
            InstKind::Nop => {},
            _ => {
                assert forall|j: int| 0 <= j < insts.len() && verify::phis_lead(insts, j) implies
                phi_extends(#[trigger] insts[j], thread, from) by {
                    if j > i {
                        assert(!(insts[i as int].kind is Phi || insts[i as int].kind is Nop));
                    }
                }
                return true;
            },
        }
    }
    true
}

/// Lets the leading phis of `target` take from `thread` what they take from
/// `from`.
fn add_threaded_phi_edge(
    func: &mut Function,
    thread: BlockId,
    from: BlockId,
    target: BlockId,
    map: &ValueMap,
) -> (r: bool)
    requires
        old(func)@.wf(),
        old(func)@.has_block(thread),
        old(func)@.has_block(target),
        util::range_below(map@, old(func)@.values.len()),
    ensures
        r ==> edge_added(old(func)@, thread, from, target, map@) == Some(final(func)@),
        !r ==> edge_added(old(func)@, thread, from, target, map@) is None,
        final(func)@.wf(),
        final(func)@.blocks.len() == old(func)@.blocks.len(),
        final(func)@.values == old(func)@.values,
{
    if !phis_can_extend(func, target, thread, from) {
        return false;
    }
    let ghost f = func@;
    let ghost insts = f.block(target).insts;
    let ghost want = extended_insts(insts, thread, from, map@);
    let ghost nb = f.blocks.len();
    let ghost nv = f.values.len();
    let n = func.blocks[target.0].insts.len();
    let mut list: Vec<Inst> = Vec::new();
    let mut leading = true;
    for i in 0..n
        invariant
            func@ == f,
            f.wf(),
            f.has_block(target),
            f.has_block(thread),
            nb == f.blocks.len(),
            nv == f.values.len(),
            insts == f.block(target).insts,
            want == extended_insts(insts, thread, from, map@),
            n == insts.len(),
            util::range_below(map@, nv),
            leading == verify::phis_lead(insts, i as int),
            list.len() == i,
            forall|j: int| 0 <= j < i ==> #[trigger] list@[j]@ == want[j],
            forall|j: int| 0 <= j < i ==> edit::inst_wf(#[trigger] want[j], nb, nv),
    {
        let inst = &func.blocks[target.0].insts[i];
        assert(inst@ == insts[i as int]);
        proof {
            query::lemma_inst_wf(f, target, i as int);
        }
        match &inst.kind {
            InstKind::Phi { incomings } => {
                let extra = if leading {
                    unique_incoming(incomings, from)
                } else {
                    None
                };
                match extra {
                    Some(v) => {
                        let mut entries = ir::clone_incomings(incomings);
                        let w = map.resolve(v, RESOLVE_STEPS);
                        entries.push((thread, w));
                        proof {
                            query::lemma_sole_incoming_wf(incomings@, from, nb, nv);
                            util::lemma_resolve_in_range(map@, v, RESOLVE_STEPS as nat, nv);
                            assert forall|k: int| 0 <= k < entries.len() implies (
                            #[trigger] entries@[k]).0.0 < nb && entries@[k].1.0 < nv by {
                                if k < incomings.len() {
                                    assert(entries@[k] == incomings@[k]);
                                }
                            }
                        }
                        list.push(
                            Inst {
                                result: inst.result,
                                kind: InstKind::Phi { incomings: entries },
                            },
                        );
                    },
                    None => {
                        list.push(inst.clone());
                    },
                }
            },
            InstKind::Nop => {
                list.push(inst.clone());
            },
            _ => {
                list.push(inst.clone());
                assert(!verify::phis_lead(insts, i + 1)) by {
                    assert(!(insts[i as int].kind is Phi || insts[i as int].kind is Nop));
                }
                leading = false;
            },
        }
    }
    assert(ir::insts_view(list@) =~= want);
    func.set_insts(target, list);
    true
}


fn any_owned(func: &Function, list: &Vec<ValueId>, d: BlockId) -> (r: bool)
    ensures
        r == owned_in(func@, list@, d),
{
    let n = list.len();
    for k in 0..n
        invariant
            n == list.len(),
            forall|j: int| 0 <= j < k ==> util::def_block(func@, #[trigger] list@[j]) != Some(d),
    {
        if defining_block(func, list[k]) == Some(d) {
            assert(util::def_block(func@, list@[k as int]) == Some(d));
            return true;
        }
    }
    false
}

/// The marks tell which blocks can be reached without running `d`.
pub open spec fn marks_behind(f: FuncView, start: BlockId, d: BlockId, marks: Seq<bool>) -> bool {
    &&& marks.len() == f.blocks.len()
    &&& forall|b: int|
        0 <= b < marks.len() ==> (#[trigger] marks[b] <==> cfg::reaches(
            cfg::succ_lists(f),
            start,
            BlockId(b as usize),
            Some(d),
        ))
}

fn stale_inst(
    func: &Function,
    marks: &Vec<bool>,
    Ghost(start): Ghost<BlockId>,
    d: BlockId,
    c: usize,
    i: usize,
) -> (r: bool)
    requires
        func@.wf(),
        func@.has_inst(BlockId(c), i as int),
        marks_behind(func@, start, d, marks@),
    ensures
        r == inst_is_stale(func@, start, d, BlockId(c), i as int),
{
    let inst = &func.blocks[c].insts[i];
    proof {
        query::lemma_inst_wf(func@, BlockId(c), i as int);
    }
    assert(inst@ == func@.inst(BlockId(c), i as int));
    match &inst.kind {
        InstKind::Phi { incomings } => {
            let n = incomings.len();
            for k in 0..n
                invariant
                    n == incomings.len(),
                    func@.inst(BlockId(c), i as int).kind == (KindView::Phi {
                        incomings: incomings@,
                    }),
                    edit::incomings_wf(incomings@, func@.blocks.len(), func@.values.len()),
                    marks_behind(func@, start, d, marks@),
                    forall|j: int|
                        0 <= j < k ==> !entry_is_stale(func@, start, d, #[trigger] incomings@[j]),
            {
                let (pred, v) = incomings[k];
                assert(incomings@[k as int].0.0 < func@.blocks.len());
                assert(marks@[pred.0 as int] <==> cfg::reaches(
                    cfg::succ_lists(func@),
                    start,
                    pred,
                    Some(d),
                ));
                if pred != d && marks[pred.0] && defining_block(func, v) == Some(d) {
                    proof {
                        let list = func@.inst(BlockId(c), i as int).kind->incomings;
                        assert(list == incomings@);
                        assert(incomings@[k as int] == (pred, v));
                        assert(entry_is_stale(func@, start, d, list[k as int]));
                        assert(inst_is_stale(func@, start, d, BlockId(c), i as int));
                    }
                    return true;
                }
            }
            false
        },
        _ => {
            assert(marks@[c as int] <==> cfg::reaches(
                cfg::succ_lists(func@),
                start,
                BlockId(c),
                Some(d),
            ));
            let reads = inst_operands(&inst.kind);
            c != d.0 && marks[c] && any_owned(func, &reads, d)
        },
    }
}

/// From `start` on, the values of `d` are read only where `d` has run again.
fn values_recomputed(func: &Function, graph: &ControlFlowGraph, start: BlockId, d: BlockId) -> (r: bool)
    requires
        func@.wf(),
        graph.of(func@),
        func@.has_block(start),
    ensures
        r == is_recomputed(func@, start, d),
{
    let ghost f = func@;
    let ghost lists = cfg::succ_lists(f);
    assert(cfg::lists_view(graph.succs@) == lists);
    assert(graph.succs.len() == lists.len()) by {
        assert(cfg::lists_view(graph.succs@).len() == graph.succs.len());
    }
    proof {
        assert forall|a: int, k: int| 0 <= a < lists.len() && 0 <= k < lists[a].len() implies (
        #[trigger] lists[a][k]).0 < lists.len() by {
            let id = BlockId(a as usize);
            assert(f.blocks.len() == func.blocks.len());
            query::lemma_terminator_wf(f, id);
            assert(lists[a] == cfg::succ_list(f.terminator(id)));
        }
    }
    let marks = reach_from(&graph.succs, start, Some(d));
    let n = func.blocks.len();
    assert(n == f.blocks.len());
    for c in 0..n
        invariant
            func@ == f,
            f.wf(),
            n == f.blocks.len(),
            marks_behind(f, start, d, marks@),
            forall|b: BlockId| #[trigger]
                f.has_block(b) && b.0 < c ==> !block_is_stale(f, start, d, b),
    {
        let id = BlockId(c);
        let count = func.blocks[c].insts.len();
        assert(count == f.block(id).insts.len());
        for i in 0..count
            invariant
                func@ == f,
                f.wf(),
                f.has_block(id),
                id == BlockId(c),
                count == f.block(id).insts.len(),
                marks_behind(f, start, d, marks@),
                forall|j: int| 0 <= j < i ==> !#[trigger] inst_is_stale(f, start, d, id, j),
        {
            if stale_inst(func, &marks, Ghost(start), d, c, i) {
                assert(f.has_inst(id, i as int));
                assert(block_is_stale(f, start, d, id));
                return false;
            }
        }
        let reads = terminator_operands(&func.blocks[c].terminator);
        assert(func.blocks[c as int].terminator == f.terminator(id));
        assert(marks@[c as int] <==> cfg::reaches(cfg::succ_lists(f), start, id, Some(d)));
        if c != d.0 && marks[c] && any_owned(func, &reads, d) {
            assert(block_is_stale(f, start, d, id));
            return false;
        }
        assert(!block_is_stale(f, start, d, id));
    }
    true
}

fn values_all_recomputed(
    func: &Function,
    graph: &ControlFlowGraph,
    start: BlockId,
    passed: &Vec<BlockId>,
) -> (r: bool)
    requires
        func@.wf(),
        graph.of(func@),
        func@.has_block(start),
    ensures
        r == all_recomputed(func@, start, passed@),
{
    let n = passed.len();
    for k in 0..n
        invariant
            func@.wf(),
            graph.of(func@),
            func@.has_block(start),
            n == passed.len(),
            forall|j: int| 0 <= j < k ==> is_recomputed(func@, start, #[trigger] passed@[j]),
    {
        if !values_recomputed(func, graph, start, passed[k]) {
            assert(!is_recomputed(func@, start, passed@[k as int]));
            return false;
        }
    }
    true
}

/// Follows the edge from `pred` to `header`; see `followed`.
#[verifier::rlimit(60)]
#[verifier::loop_isolation(false)]
fn follow_edge(
    func: &mut Function,
    base: &Function,
    graph: &ControlFlowGraph,
    dom: &Dominators,
    facts: &Vec<KnownBitFact>,
    thread: BlockId,
    pred: BlockId,
    header: BlockId,
) -> (r: Option<(Terminator, usize)>)
    requires
        old(func)@.wf(),
        old(func)@.has_block(thread),
        old(func)@.has_block(header),
        old(func)@.blocks.len() == base@.blocks.len() + 1,
        forall|c: BlockId| #[trigger]
            base@.has_block(c) ==> old(func)@.terminator(c) == base@.terminator(c),
        thread == base@.next_block(),
        base@.wf(),
        base@.has_block(pred),
        base@.has_block(header),
        graph.of(base@),
        dom.of(base@),
        known_bits::facts_in(facts@, base@),
    ensures
        ({
            let start = Progress { f: old(func)@, map: Map::empty(), duplicated: 0 };
            let want = followed(
                start,
                base@,
                pred,
                facts@,
                thread,
                Seq::empty(),
                header,
                pred,
                0,
            );
            match r {
                Some((end, proven)) => want == Some((final(func)@, end, proven as nat)),
                None => want is None,
            }
        }),
        final(func)@.blocks.len() == old(func)@.blocks.len(),
{
    let ghost f0 = func@;
    let ghost want = followed(
        Progress { f: f0, map: Map::empty(), duplicated: 0 },
        base@,
        pred,
        facts@,
        thread,
        Seq::empty(),
        header,
        pred,
        0,
    );
    let mut map = ValueMap::new();
    let mut visited: Vec<BlockId> = Vec::new();
    let mut current = header;
    let mut from = pred;
    let mut duplicated: usize = 0;
    let mut proven: usize = 0;
    assert(visited@ =~= Seq::<BlockId>::empty());
    while visited.len() < MAX_THREADED_BLOCKS
        invariant
            func@.wf(),
            func@.blocks.len() == f0.blocks.len(),
            func@.has_block(thread),
            base@.has_block(current),
            func@.has_block(current),
            forall|c: BlockId| #[trigger]
                base@.has_block(c) ==> func@.terminator(c) == base@.terminator(c),
            base@.wf(),
            base@.has_block(pred),
            graph.of(base@),
            dom.of(base@),
            known_bits::facts_in(facts@, base@),
            util::range_below(map@, func@.values.len()),
            duplicated <= MAX_DUPLICATED_INSTS,
            proven <= MAX_PROVEN_BRANCHES,
            visited.len() <= MAX_THREADED_BLOCKS,
            want == followed(
                Progress { f: func@, map: map@, duplicated: duplicated as nat },
                base@,
                pred,
                facts@,
                thread,
                visited@,
                current,
                from,
                proven as nat,
            ),
        decreases MAX_THREADED_BLOCKS - visited.len(),
    {
        if contains_block(&visited, current) {
            return None;
        }
        visited.push(current);
        if !map_threaded_phis(func, current, from, &mut map) {
            return None;
        }
        let ghost before = func@;
        if !copy_operations(func, thread, current, &mut map, &mut duplicated) {
            return None;
        }
        assert forall|c: BlockId| #[trigger] base@.has_block(c) implies func@.terminator(c)
            == base@.terminator(c) by {
            assert(before.has_block(c));
        }
        proof {
            query::lemma_terminator_wf(func@, current);
            query::lemma_terminator_wf(base@, current);
            assert(base@.has_block(current));
            assert(func@.terminator(current) == base@.terminator(current));
        }
        match terminator_of(func, current) {
            None => {
                return None;
            },
            Some(Terminator::Return(None)) => {
                return Some((Terminator::Return(None), proven));
            },
            Some(Terminator::Return(Some(v))) => {
                let w = map.resolve(v, RESOLVE_STEPS);
                return Some((Terminator::Return(Some(w)), proven));
            },
            Some(Terminator::Jump(target)) => {
                if contains_block(&visited, target) {
                    if !values_all_recomputed(base, graph, target, &visited) {
                        return None;
                    }
                    if add_threaded_phi_edge(func, thread, current, target, &map) {
                        return Some((Terminator::Jump(target), proven));
                    }
                    return None;
                }
                from = current;
                current = target;
            },
            Some(Terminator::Branch { cond, then_target, else_target }) => {
                let c = map.resolve(cond, RESOLVE_STEPS);
                proof {
                    util::lemma_resolve_in_range(
                        map@,
                        cond,
                        RESOLVE_STEPS as nat,
                        func@.values.len(),
                    );
                }
                let mut work: usize = PROOF_WORK;
                match known_bool_at(func, base, c, pred, dom, facts, 0, &mut work) {
                    None => {
                        if proven == 0 || !values_all_recomputed(
                            base,
                            graph,
                            then_target,
                            &visited,
                        ) || !values_all_recomputed(base, graph, else_target, &visited) {
                            return None;
                        }
                        if !add_threaded_phi_edge(func, thread, current, then_target, &map) {
                            return None;
                        }
                        if !add_threaded_phi_edge(func, thread, current, else_target, &map) {
                            return None;
                        }
                        return Some(
                            (Terminator::Branch { cond: c, then_target, else_target }, proven),
                        );
                    },
                    Some(taken) => {
                        if proven + 1 > MAX_PROVEN_BRANCHES {
                            return None;
                        }
                        proven = proven + 1;
                        let target = if taken {
                            then_target
                        } else {
                            else_target
                        };
                        if contains_block(&visited, target) {
                            if !values_all_recomputed(base, graph, target, &visited) {
                                return None;
                            }
                            if add_threaded_phi_edge(func, thread, current, target, &map) {
                                return Some((Terminator::Jump(target), proven));
                            }
                            return None;
                        }
                        from = current;
                        current = target;
                    },
                }
            },
        }
    }
    None
}

/// Threads the edge from `pred` to `header` past the branches that it
/// decides.
fn try_thread_known_integer_edge(
    func: &mut Function,
    pred: BlockId,
    header: BlockId,
    graph: &ControlFlowGraph,
    dom: &Dominators,
    facts: &Vec<KnownBitFact>,
) -> (r: bool)
    requires
        old(func)@.wf(),
        old(func)@.has_block(pred),
        old(func)@.has_block(header),
        graph.of(old(func)@),
        dom.of(old(func)@),
        known_bits::facts_in(facts@, old(func)@),
    ensures
        r ==> edge_threaded(old(func)@, pred, header, facts@) == Some(final(func)@),
        !r ==> edge_threaded(old(func)@, pred, header, facts@) is None && final(func)@ == old(
            func,
        )@,
        final(func)@.wf(),
{
    if jump_target(func, pred) != Some(header) || !block_has_phi(func, header) {
        return false;
    }
    let before = func.clone();
    let thread = func.add_block("jump.thread");
    assert(func@.blocks.len() == func.blocks.len());
    match follow_edge(func, &before, graph, dom, facts, thread, pred, header) {
        Some((end, proven)) => {
            if proven > 0 {
                remove_phi_incomings(func, pred, header);
                func.set_terminator(pred, Terminator::Jump(thread));
                func.set_terminator(thread, end);
                if func.verify().is_ok() {
                    return true;
                }
            }
            *func = before;
            false
        },
        None => {
            *func = before;
            false
        },
    }
}

/// Tries, one after another, the edges that have not been tried before until
/// one can be threaded.
#[verifier::loop_isolation(false)]
pub fn thread_known_integer_edges(
    func: &mut Function,
    limit: usize,
    attempted: &mut Vec<BlockId>,
    budget: &mut usize,
) -> (r: bool)
    requires
        old(func)@.wf(),
    ensures
        ({
            let start = ThreadState {
                f: old(func)@,
                attempted: old(attempted)@,
                budget: *old(budget) as nat,
            };
            let end = ThreadState {
                f: final(func)@,
                attempted: final(attempted)@,
                budget: *final(budget) as nat,
            };
            thread_step(start, limit as nat) == (end, r)
        }),
        final(func)@.wf(),
{
    let ghost start = ThreadState { f: func@, attempted: attempted@, budget: *budget as nat };
    let n = func.blocks.len();
    if n > MAX_BLOCKS || *budget == 0 {
        return false;
    }
    let graph = ControlFlowGraph::new(func);
    let dom = Dominators::new(func, &graph);
    let facts = collect_known_bit_facts(func, &graph);
    let ghost f = func@;
    for pred in 0..n
        invariant
            func@ == f,
            threads_from(start, facts@, limit as nat, 0) == threads_from(
                ThreadState { f: func@, attempted: attempted@, budget: *budget as nat },
                facts@,
                limit as nat,
                pred as int,
            ),
    {
        if pred >= limit || *budget == 0 {
            return false;
        }
        let id = BlockId(pred);
        proof {
            query::lemma_terminator_wf(f, id);
        }
        if let Some(target) = jump_target(func, id) {
            if target != id && !contains_block(attempted, id) {
                attempted.push(id);
                *budget = *budget - 1;
                if try_thread_known_integer_edge(func, id, target, &graph, &dom, &facts) {
                    return true;
                }
            }
        }
    }
    false
}

} // verus!
