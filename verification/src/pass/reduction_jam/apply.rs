//! The rewriting: a copy of the nest that runs several rounds at once.
//!
//! The copy stands before the nest and runs while all its lanes stay below the
//! bound; the nest runs what is left.
use vstd::prelude::*;

use crate::emit;
use crate::emit::{
    add_named_blocks, emit, emit_binary, emit_comparison, emit_phi, emit_store, end_branch,
    end_jump, new_block, set_phi,
};
use crate::ir;
use crate::ir::{
    BinaryOp, BlockId, CompareOp, Const, FuncView, Function, Inst, InstKind, InstView, KindView,
    Terminator, Type, ValueId,
};
use crate::names;
use crate::names::numbered;
use crate::pass::reduction_jam::nest;
use crate::pass::reduction_jam::nest::{ConditionalNest, Nest};
use crate::patterns;
use crate::patterns::as_branch;
use crate::query;
use crate::util;
use crate::util::{defining_inst, get_or_add_i32_const, resolve_kind, ValueMap};

verus! {

/// The new blocks that both kinds of nests have.
#[derive(Clone, Copy, PartialEq, Eq, Structural)]
pub struct Frame {
    pub header: usize,
    pub setup: usize,
    pub inner: usize,
    /// The block that leads into the inner loop.
    pub first: usize,
    /// The block that leads back to the header of the inner loop.
    pub back: usize,
    pub exit: usize,
}

/// The new counters.
#[derive(Clone, Copy, PartialEq, Eq, Structural)]
pub struct Counters {
    pub outer: ValueId,
    pub step: ValueId,
    pub inner: ValueId,
    pub inner_initial: ValueId,
}

// ---------------------------------------------------------------------------
// Mathematical model: copies of blocks
// ---------------------------------------------------------------------------

/// The load reads what the shared lane has read.
pub open spec fn is_reused(
    inst: InstView,
    map: Map<ValueId, ValueId>,
    shared: Option<Map<ValueId, ValueId>>,
) -> bool {
    match (shared, inst.result, inst.kind) {
        (Some(s), Some(r), KindView::Load { ptr }) => util::apply(map, ptr) == util::apply(s, ptr)
            && s.contains_key(r),
        _ => false,
    }
}

/// A copy of an instruction at the end of the target block.
pub open spec fn inst_copied(
    g: FuncView,
    inst: InstView,
    f: FuncView,
    map: Map<ValueId, ValueId>,
    target: usize,
    shared: Option<Map<ValueId, ValueId>>,
) -> (FuncView, Map<ValueId, ValueId>) {
    if inst.kind is Nop || inst.kind is Store {
        (f, map)
    } else if is_reused(inst, map, shared) {
        (f, map.insert(inst.result->0, (shared->0)[inst.result->0]))
    } else {
        let kind = util::map_kind(inst.kind, util::resolver(map, 1));
        match inst.result {
            Some(r) => (
                emit::emitted(f, target, kind, g.value(r).ty),
                map.insert(r, f.next_value()),
            ),
            None => (f, map),
        }
    }
}

/// A copy of the first `n` instructions of block `b` of `g`; stores are left
/// out.
pub open spec fn block_copied(
    g: FuncView,
    b: BlockId,
    f: FuncView,
    map: Map<ValueId, ValueId>,
    target: usize,
    shared: Option<Map<ValueId, ValueId>>,
    n: int,
) -> (FuncView, Map<ValueId, ValueId>)
    decreases n,
{
    if n <= 0 {
        (f, map)
    } else {
        let (f1, map1) = block_copied(g, b, f, map, target, shared, n - 1);
        inst_copied(g, g.inst(b, n - 1), f1, map1, target, shared)
    }
}

/// A copy of block `b` of `g` at the end of the target block.
#[verifier::opaque]
pub open spec fn copied(
    g: FuncView,
    b: BlockId,
    f: FuncView,
    map: Map<ValueId, ValueId>,
    target: usize,
    shared: Option<Map<ValueId, ValueId>>,
) -> (FuncView, Map<ValueId, ValueId>) {
    block_copied(g, b, f, map, target, shared, g.block(b).insts.len() as int)
}

/// What a lane has loaded in the first `n` instructions, and from where.
pub open spec fn loaded_below(
    insts: Seq<InstView>,
    map: Map<ValueId, ValueId>,
    n: int,
) -> Map<ValueId, ValueId>
    decreases n,
{
    if n <= 0 {
        Map::empty()
    } else {
        let before = loaded_below(insts, map, n - 1);
        match (insts[n - 1].result, insts[n - 1].kind) {
            (Some(r), KindView::Load { ptr }) => if map.contains_key(r) {
                before.insert(ptr, util::apply(map, ptr)).insert(r, map[r])
            } else {
                before
            },
            _ => before,
        }
    }
}

#[verifier::opaque]
pub open spec fn loaded_in(g: FuncView, b: BlockId, map: Map<ValueId, ValueId>) -> Map<
    ValueId,
    ValueId,
> {
    let insts = g.block(b).insts;
    loaded_below(insts, map, insts.len() as int)
}

// ---------------------------------------------------------------------------
// Mathematical model: parts
// ---------------------------------------------------------------------------

/// The counters of the first `k` lanes.
pub open spec fn indices_added(f: FuncView, header: usize, outer: ValueId, k: int) -> (
    FuncView,
    Seq<ValueId>,
)
    decreases k,
{
    if k <= 1 {
        (f, seq![outer])
    } else {
        let (f1, list) = indices_added(f, header, outer, k - 1);
        let offset = util::const_value(f1, Const::Int((k - 1) as i32));
        let f2 = util::with_const(f1, Const::Int((k - 1) as i32));
        (
            emit::emitted(f2, header, emit::binary(BinaryOp::Iadd, outer, offset), Type::I32),
            list.push(f2.next_value()),
        )
    }
}

/// The header of the copy: the counters of the lanes, and the test of the last.
pub open spec fn header_built(f: FuncView, n: Nest, fr: Frame, factor: int) -> (
    FuncView,
    ValueId,
    ValueId,
    Seq<ValueId>,
) {
    let outer = f.next_value();
    let start = n.outer_induction.initial;
    let g1 = emit::emitted(
        f,
        fr.header,
        emit::phi(seq![(n.outer_preheader, start), (BlockId(fr.exit), start)]),
        Type::I32,
    );
    let g2 = util::with_const(g1, Const::Int(1));
    let step = util::const_value(g2, Const::Int(factor as i32));
    let g3 = util::with_const(g2, Const::Int(factor as i32));
    let (g4, indices) = indices_added(g3, fr.header, outer, factor);
    let cond = g4.next_value();
    let g5 = emit::emitted(
        g4,
        fr.header,
        emit::comparison(CompareOp::Lt, indices[factor - 1], n.outer_bound),
        Type::I1,
    );
    let g6 = emit::ended(g5, fr.header, emit::branch(cond, fr.setup, n.outer_header.0));
    (g6, outer, step, indices)
}

/// The setups of the first `k` lanes.
pub open spec fn setups_copied(
    g: FuncView,
    n: Nest,
    f: FuncView,
    target: usize,
    indices: Seq<ValueId>,
    k: int,
) -> (FuncView, Seq<Map<ValueId, ValueId>>)
    decreases k,
{
    if k <= 0 {
        (f, Seq::empty())
    } else {
        let (f1, maps) = setups_copied(g, n, f, target, indices, k - 1);
        let start = Map::empty().insert(n.outer_induction.phi, indices[k - 1]);
        let (f2, map) = copied(g, n.inner_preheader, f1, start, target, None);
        (f2, maps.push(map))
    }
}

/// The accumulators of the first `k` lanes, and where they start.
pub open spec fn accumulators_added(
    n: Nest,
    f: FuncView,
    fr: Frame,
    maps: Seq<Map<ValueId, ValueId>>,
    k: int,
) -> (FuncView, Seq<(ValueId, ValueId)>)
    decreases k,
{
    if k <= 0 {
        (f, Seq::empty())
    } else {
        let (f1, list) = accumulators_added(n, f, fr, maps, k - 1);
        let start = util::apply(maps[k - 1], n.accumulator_initial);
        (
            emit::emitted(
                f1,
                fr.inner,
                emit::phi(seq![(BlockId(fr.setup), start), (BlockId(fr.back), start)]),
                Type::I32,
            ),
            list.push((f1.next_value(), start)),
        )
    }
}

/// The header of the inner loop of the copy.
pub open spec fn inner_built(
    n: Nest,
    f: FuncView,
    fr: Frame,
    maps: Seq<Map<ValueId, ValueId>>,
    factor: int,
) -> (FuncView, ValueId, ValueId, Seq<(ValueId, ValueId)>) {
    let start = util::apply(maps[0], n.inner_induction.initial);
    let inner = f.next_value();
    let g1 = emit::emitted(
        f,
        fr.inner,
        emit::phi(seq![(BlockId(fr.setup), start), (BlockId(fr.back), start)]),
        Type::I32,
    );
    let (g2, sums) = accumulators_added(n, g1, fr, maps, factor);
    let cond = g2.next_value();
    let g3 = emit::emitted(
        g2,
        fr.inner,
        emit::comparison(CompareOp::Lt, inner, n.inner_bound),
        Type::I1,
    );
    let g4 = emit::ended(g3, fr.inner, emit::branch(cond, fr.first, fr.exit));
    let g5 = emit::ended(g4, fr.setup, Terminator::Jump(BlockId(fr.inner)));
    (g5, inner, start, sums)
}

/// What stands for the values of the nest in a lane of the inner loop.
pub open spec fn lane_map(n: Nest, map: Map<ValueId, ValueId>, inner: ValueId, sum: ValueId) -> Map<
    ValueId,
    ValueId,
> {
    map.insert(n.inner_induction.phi, inner).insert(n.accumulator, sum)
}

/// The bodies of the first `k` lanes.
pub open spec fn bodies_copied(
    g: FuncView,
    n: Nest,
    f: FuncView,
    fr: Frame,
    inner: ValueId,
    sums: Seq<(ValueId, ValueId)>,
    maps: Seq<Map<ValueId, ValueId>>,
    k: int,
) -> (FuncView, Seq<Map<ValueId, ValueId>>)
    decreases k,
{
    if k <= 0 {
        (f, maps)
    } else {
        let (f1, maps1) = bodies_copied(g, n, f, fr, inner, sums, maps, k - 1);
        let start = lane_map(n, maps1[k - 1], inner, sums[k - 1].0);
        let (f2, map) = copied(g, n.inner_latch, f1, start, fr.back, None);
        (f2, maps1.update(k - 1, map))
    }
}

/// The accumulators of the first `k` lanes with their next values.
pub open spec fn backedges_set(
    n: Nest,
    f: FuncView,
    fr: Frame,
    sums: Seq<(ValueId, ValueId)>,
    maps: Seq<Map<ValueId, ValueId>>,
    k: int,
) -> FuncView
    decreases k,
{
    if k <= 0 {
        f
    } else {
        let f1 = backedges_set(n, f, fr, sums, maps, k - 1);
        emit::phi_set(
            f1,
            sums[k - 1].0,
            seq![
                (BlockId(fr.setup), sums[k - 1].1),
                (BlockId(fr.back), util::apply(maps[k - 1], n.accumulator_next)),
            ],
        )
    }
}

/// What the first `k` lanes compute behind the inner loop.
pub open spec fn exits_copied(
    g: FuncView,
    n: Nest,
    f: FuncView,
    target: usize,
    maps: Seq<Map<ValueId, ValueId>>,
    k: int,
) -> (FuncView, Seq<Map<ValueId, ValueId>>)
    decreases k,
{
    if k <= 0 {
        (f, maps)
    } else {
        let (f1, maps1) = exits_copied(g, n, f, target, maps, k - 1);
        let (f2, map) = copied(g, n.inner_exit, f1, maps1[k - 1], target, None);
        (f2, maps1.update(k - 1, map))
    }
}

/// The stores of the first `k` lanes, in the order of the rounds.
pub open spec fn stores_added(
    n: Nest,
    f: FuncView,
    target: usize,
    sums: Seq<(ValueId, ValueId)>,
    maps: Seq<Map<ValueId, ValueId>>,
    k: int,
) -> FuncView
    decreases k,
{
    if k <= 0 {
        f
    } else {
        emit::effected(
            stores_added(n, f, target, sums, maps, k - 1),
            target,
            emit::store(util::apply(maps[k - 1], n.store_ptr), sums[k - 1].0),
        )
    }
}

/// The incoming list with the first entry from `pred`, from place `k` on,
/// replaced.
pub open spec fn rerouted(
    incomings: Seq<(BlockId, ValueId)>,
    pred: BlockId,
    entry: (BlockId, ValueId),
    k: int,
) -> Seq<(BlockId, ValueId)>
    decreases incomings.len() - k,
{
    if k < 0 || k >= incomings.len() {
        incomings
    } else if incomings[k].0 == pred {
        incomings.update(k, entry)
    } else {
        rerouted(incomings, pred, entry, k + 1)
    }
}

/// The nest is entered from the copy.
pub open spec fn entered(g: FuncView, n: Nest, f: FuncView, fr: Frame, outer: ValueId) -> FuncView {
    let f1 = emit::ended(f, n.outer_preheader.0, Terminator::Jump(BlockId(fr.header)));
    let f2 = match util::def_kind(g, n.outer_induction.phi) {
        Some(KindView::Phi { incomings }) => emit::phi_set(
            f1,
            n.outer_induction.phi,
            rerouted(incomings, n.outer_preheader, (BlockId(fr.header), outer), 0),
        ),
        _ => f1,
    };
    FuncView { reduction_jammed: true, ..f2 }
}

/// The loops of the copy closed, the results stored.
pub open spec fn closed_up(
    g: FuncView,
    n: Nest,
    f: FuncView,
    fr: Frame,
    cs: Counters,
    sums: Seq<(ValueId, ValueId)>,
    maps: Seq<Map<ValueId, ValueId>>,
    inner_next: ValueId,
    factor: int,
) -> FuncView {
    let g1 = emit::phi_set(
        f,
        cs.inner,
        seq![(BlockId(fr.setup), cs.inner_initial), (BlockId(fr.back), inner_next)],
    );
    let g2 = backedges_set(n, g1, fr, sums, maps, factor);
    let (g3, maps1) = exits_copied(g, n, g2, fr.exit, maps, factor);
    let g4 = stores_added(n, g3, fr.exit, sums, maps1, factor);
    let next = g4.next_value();
    let g5 = emit::emitted(
        g4,
        fr.exit,
        emit::binary(BinaryOp::Iadd, cs.outer, cs.step),
        Type::I32,
    );
    let g6 = emit::phi_set(
        g5,
        cs.outer,
        seq![(n.outer_preheader, n.outer_induction.initial), (BlockId(fr.exit), next)],
    );
    let g7 = emit::ended(g6, fr.exit, Terminator::Jump(BlockId(fr.header)));
    entered(g, n, g7, fr, cs.outer)
}

// ---------------------------------------------------------------------------
// Mathematical model: plain nests
// ---------------------------------------------------------------------------

pub open spec fn plain_names() -> Seq<Seq<char>> {
    seq![
        "reduction.jam.header"@,
        "reduction.jam.setup"@,
        "reduction.jam.inner"@,
        "reduction.jam.body"@,
        "reduction.jam.exit"@,
    ]
}

pub open spec fn plain_frame(base: nat) -> Frame {
    Frame {
        header: base as usize,
        setup: (base + 1) as usize,
        inner: (base + 2) as usize,
        first: (base + 3) as usize,
        back: (base + 3) as usize,
        exit: (base + 4) as usize,
    }
}

/// The function with the nest jammed.
pub open spec fn jammed(g: FuncView, n: Nest, factor: int) -> FuncView {
    let fr = plain_frame(g.blocks.len());
    let f0 = emit::blocks_named(g, plain_names(), 0);
    let (f1, outer, step, indices) = header_built(f0, n, fr, factor);
    let (f2, maps) = setups_copied(g, n, f1, fr.setup, indices, factor);
    let (f3, inner, inner_initial, sums) = inner_built(n, f2, fr, maps, factor);
    let (f4, maps1) = bodies_copied(g, n, f3, fr, inner, sums, maps, factor);
    let f5 = emit::ended(f4, fr.back, Terminator::Jump(BlockId(fr.inner)));
    closed_up(
        g,
        n,
        f5,
        fr,
        Counters { outer, step, inner, inner_initial },
        sums,
        maps1,
        util::apply(maps1[0], n.inner_induction.next),
        factor,
    )
}

// ---------------------------------------------------------------------------
// Mathematical model: nests with a condition
// ---------------------------------------------------------------------------

/// The function with the blocks of the first `k` lanes.
pub open spec fn lane_blocks_added(f: FuncView, k: int) -> FuncView
    decreases k,
{
    if k <= 0 {
        f
    } else {
        let f1 = lane_blocks_added(f, k - 1);
        let number = names::decimal((k - 1) as nat);
        let f2 = emit::block_added(f1, "conditional.reduction.jam.condition."@ + number);
        let f3 = emit::block_added(f2, "conditional.reduction.jam.update."@ + number);
        emit::block_added(f3, "conditional.reduction.jam.merge."@ + number)
    }
}

pub open spec fn conditional_names() -> Seq<Seq<char>> {
    seq![
        "conditional.reduction.jam.header"@,
        "conditional.reduction.jam.setup"@,
        "conditional.reduction.jam.inner"@,
    ]
}

/// The block of lane `k` that holds the condition; the update and the merge
/// follow it.
pub open spec fn lane_block(base: nat, k: int) -> usize {
    (base + 3 + 3 * k) as usize
}

pub open spec fn conditional_frame(base: nat, factor: int) -> Frame {
    Frame {
        header: base as usize,
        setup: (base + 1) as usize,
        inner: (base + 2) as usize,
        first: lane_block(base, 0),
        back: (base + 2 + 3 * factor) as usize,
        exit: (base + 3 + 3 * factor) as usize,
    }
}

/// The branch of the condition block in a lane.
pub open spec fn branched(
    g: FuncView,
    c: ConditionalNest,
    f: FuncView,
    map: Map<ValueId, ValueId>,
    at: usize,
) -> FuncView {
    match patterns::branch_of(g, c.condition) {
        Some((cond, t, e)) => emit::ended(
            f,
            at,
            emit::branch(
                util::apply(map, cond),
                lane_target(c, at, t),
                lane_target(c, at, e),
            ),
        ),
        None => f,
    }
}

pub open spec fn lane_target(c: ConditionalNest, at: usize, b: BlockId) -> usize {
    if b == c.update {
        (at + 1) as usize
    } else {
        (at + 2) as usize
    }
}

/// An entry of the phi that selects the sum, in a lane.
pub open spec fn lane_entry(
    c: ConditionalNest,
    map: Map<ValueId, ValueId>,
    at: usize,
    entry: (BlockId, ValueId),
) -> (BlockId, ValueId) {
    (
        if entry.0 == c.condition {
            BlockId(at)
        } else {
            BlockId((at + 1) as usize)
        },
        util::apply(map, entry.1),
    )
}

/// The phi that selects the sum, in a lane.
pub open spec fn selected(
    g: FuncView,
    c: ConditionalNest,
    f: FuncView,
    map: Map<ValueId, ValueId>,
    at: usize,
) -> (FuncView, Map<ValueId, ValueId>) {
    match util::def_kind(g, c.nest.accumulator_next) {
        Some(KindView::Phi { incomings }) => (
            emit::emitted(
                f,
                (at + 2) as usize,
                emit::phi(
                    Seq::new(incomings.len(), |j: int| lane_entry(c, map, at, incomings[j])),
                ),
                Type::I32,
            ),
            map.insert(c.nest.accumulator_next, f.next_value()),
        ),
        _ => (f, map),
    }
}

/// The step of the inner counter, in the last lane.
pub open spec fn stepped(
    g: FuncView,
    c: ConditionalNest,
    f: FuncView,
    map: Map<ValueId, ValueId>,
    at: usize,
) -> (FuncView, Map<ValueId, ValueId>) {
    match util::def_kind(g, c.nest.inner_induction.next) {
        Some(kind) => (
            emit::emitted(
                f,
                (at + 2) as usize,
                util::map_kind(kind, util::resolver(map, 1)),
                Type::I32,
            ),
            map.insert(c.nest.inner_induction.next, f.next_value()),
        ),
        None => (f, map),
    }
}

/// A lane of the inner loop: its condition stands in block `at`.
pub open spec fn lane_copied(
    g: FuncView,
    c: ConditionalNest,
    f: FuncView,
    map: Map<ValueId, ValueId>,
    at: usize,
    shared: Option<Map<ValueId, ValueId>>,
    inner: Option<usize>,
) -> (FuncView, Map<ValueId, ValueId>) {
    let (f1, map1) = copied(g, c.condition, f, map, at, shared);
    let f2 = branched(g, c, f1, map1, at);
    let (f3, map2) = copied(g, c.update, f2, map1, (at + 1) as usize, None);
    let f4 = emit::ended(
        f3,
        (at + 1) as usize,
        Terminator::Jump(BlockId((at + 2) as usize)),
    );
    let (f5, map3) = selected(g, c, f4, map2, at);
    match inner {
        Some(header) => {
            let (f6, map4) = stepped(g, c, f5, map3, at);
            (emit::ended(f6, (at + 2) as usize, Terminator::Jump(BlockId(header))), map4)
        },
        None => (
            emit::ended(
                f5,
                (at + 2) as usize,
                Terminator::Jump(BlockId((at + 3) as usize)),
            ),
            map3,
        ),
    }
}

/// The first `k` lanes of the inner loop. A later lane reuses what the first
/// has loaded in its condition.
pub open spec fn lanes_copied(
    g: FuncView,
    c: ConditionalNest,
    f: FuncView,
    fr: Frame,
    inner: ValueId,
    sums: Seq<(ValueId, ValueId)>,
    maps: Seq<Map<ValueId, ValueId>>,
    factor: int,
    k: int,
) -> (FuncView, Seq<Map<ValueId, ValueId>>)
    decreases k,
{
    if k <= 0 {
        (f, maps)
    } else {
        let (f1, maps1) = lanes_copied(g, c, f, fr, inner, sums, maps, factor, k - 1);
        let shared = if k == 1 {
            None
        } else {
            Some(loaded_in(g, c.condition, maps1[0]))
        };
        let (f2, map) = lane_copied(
            g,
            c,
            f1,
            lane_map(c.nest, maps1[k - 1], inner, sums[k - 1].0),
            lane_block(g.blocks.len(), k - 1),
            shared,
            if k == factor {
                Some(fr.inner)
            } else {
                None
            },
        );
        (f2, maps1.update(k - 1, map))
    }
}

/// The function with the nest jammed.
pub open spec fn conditionally_jammed(g: FuncView, c: ConditionalNest, factor: int) -> FuncView {
    let n = c.nest;
    let fr = conditional_frame(g.blocks.len(), factor);
    let f0 = emit::block_added(
        lane_blocks_added(emit::blocks_named(g, conditional_names(), 0), factor),
        "conditional.reduction.jam.exit"@,
    );
    let (f1, outer, step, indices) = header_built(f0, n, fr, factor);
    let (f2, maps) = setups_copied(g, n, f1, fr.setup, indices, factor);
    let (f3, inner, inner_initial, sums) = inner_built(n, f2, fr, maps, factor);
    let (f4, maps1) = lanes_copied(g, c, f3, fr, inner, sums, maps, factor, factor);
    closed_up(
        g,
        n,
        f4,
        fr,
        Counters { outer, step, inner, inner_initial },
        sums,
        maps1,
        util::apply(maps1[factor - 1], n.inner_induction.next),
        factor,
    )
}

// ---------------------------------------------------------------------------
// Executable functions
// ---------------------------------------------------------------------------

pub open spec fn maps_view(list: Seq<ValueMap>) -> Seq<Map<ValueId, ValueId>> {
    list.map_values(|m: ValueMap| m@)
}

pub open spec fn option_map(share: bool, shared: ValueMap) -> Option<Map<ValueId, ValueId>> {
    if share {
        Some(shared@)
    } else {
        None
    }
}

/// Copies an instruction.
fn copy_inst(
    source: &Function,
    inst: &Inst,
    func: &mut Function,
    map: &mut ValueMap,
    target: usize,
    share: bool,
    shared: &ValueMap,
)
    requires
        target < old(func)@.blocks.len(),
        inst@.result matches Some(r) ==> source@.has_value(r),
    ensures
        (final(func)@, final(map)@) == inst_copied(
            source@,
            inst@,
            old(func)@,
            old(map)@,
            target,
            option_map(share, *shared),
        ),
        final(func)@.blocks.len() == old(func)@.blocks.len(),
        final(func)@.values.len() >= old(func)@.values.len(),
{
    assert(source.values.len() == source@.values.len());
    match &inst.kind {
        InstKind::Nop => {
            return ;
        },
        InstKind::Store { .. } => {
            return ;
        },
        InstKind::Load { ptr } => {
            if share {
                if let Some(r) = inst.result {
                    if map.apply(*ptr) == shared.apply(*ptr) {
                        if let Some(w) = shared.get(r) {
                            map.insert(r, w);
                            return ;
                        }
                    }
                }
            }
        },
        _ => {},
    }
    if let Some(r) = inst.result {
        assert(source.values@[r.0 as int]@ == source@.value(r));
        let ty = source.values[r.0].ty.clone();
        let kind = resolve_kind(&inst.kind, map, 1);
        let v = emit(func, target, kind, ty);
        map.insert(r, v);
    }
}

/// Copies a block to the end of another.
fn copy_block(
    source: &Function,
    b: BlockId,
    func: &mut Function,
    map: &mut ValueMap,
    target: usize,
    share: bool,
    shared: &ValueMap,
)
    requires
        source@.wf(),
        source@.has_block(b),
        target < old(func)@.blocks.len(),
    ensures
        (final(func)@, final(map)@) == copied(
            source@,
            b,
            old(func)@,
            old(map)@,
            target,
            option_map(share, *shared),
        ),
        final(func)@.blocks.len() == old(func)@.blocks.len(),
        final(func)@.values.len() >= old(func)@.values.len(),
{
    reveal(copied);
    let ghost g = source@;
    let ghost f = func@;
    let ghost m = map@;
    let ghost s = option_map(share, *shared);
    let n = source.blocks[b.0].insts.len();
    for i in 0..n
        invariant
            g == source@,
            g.wf(),
            g.has_block(b),
            n == g.block(b).insts.len(),
            target < func@.blocks.len(),
            func@.blocks.len() == f.blocks.len(),
            func@.values.len() >= f.values.len(),
            s == option_map(share, *shared),
            (func@, map@) == block_copied(g, b, f, m, target, s, i as int),
    {
        let inst = &source.blocks[b.0].insts[i];
        assert(inst@ == g.inst(b, i as int));
        proof {
            query::lemma_inst_wf(g, b, i as int);
        }
        copy_inst(source, inst, func, map, target, share, shared);
    }
}

/// Collects what a lane has loaded in a block.
fn conditional_shared_load_values(source: &Function, b: BlockId, map: &ValueMap) -> (r: ValueMap)
    requires
        source@.wf(),
        source@.has_block(b),
    ensures
        r@ == loaded_in(source@, b, map@),
{
    reveal(loaded_in);
    let ghost g = source@;
    let ghost insts = g.block(b).insts;
    let mut shared = ValueMap::new();
    let n = source.blocks[b.0].insts.len();
    for i in 0..n
        invariant
            g == source@,
            g.wf(),
            g.has_block(b),
            insts == g.block(b).insts,
            n == insts.len(),
            shared@ == loaded_below(insts, map@, i as int),
    {
        let inst = &source.blocks[b.0].insts[i];
        assert(inst@ == g.inst(b, i as int));
        proof {
            query::lemma_inst_wf(g, b, i as int);
        }
        assert(source.values.len() == g.values.len());
        if let Some(r) = inst.result {
            if let InstKind::Load { ptr } = &inst.kind {
                if let Some(w) = map.get(r) {
                    shared.insert(*ptr, map.apply(*ptr));
                    shared.insert(r, w);
                }
            }
        }
    }
    shared
}

fn add_indices(func: &mut Function, header: usize, outer: ValueId, factor: usize) -> (r: Vec<
    ValueId,
>)
    requires
        header < old(func)@.blocks.len(),
        1 <= factor <= 4,
    ensures
        (final(func)@, r@) == indices_added(old(func)@, header, outer, factor as int),
        r.len() == factor,
        final(func)@.blocks.len() == old(func)@.blocks.len(),
        final(func)@.values.len() >= old(func)@.values.len(),
{
    let ghost f = func@;
    let mut list = vec![outer];
    assert(list@ =~= seq![outer]);
    for lane in 1..factor
        invariant
            factor <= 4,
            header < func@.blocks.len(),
            list.len() == lane,
            (func@, list@) == indices_added(f, header, outer, lane as int),
            func@.blocks.len() == f.blocks.len(),
            func@.values.len() >= f.values.len(),
    {
        let offset = get_or_add_i32_const(func, lane as i32);
        let index = emit_binary(func, header, BinaryOp::Iadd, outer, offset);
        list.push(index);
    }
    list
}

fn build_header(func: &mut Function, n: Nest, fr: Frame, factor: usize) -> (r: (
    ValueId,
    ValueId,
    Vec<ValueId>,
))
    requires
        fr.header < old(func)@.blocks.len(),
        1 <= factor <= 4,
    ensures
        (final(func)@, r.0, r.1, r.2@) == header_built(old(func)@, n, fr, factor as int),
        r.2.len() == factor,
        final(func)@.blocks.len() == old(func)@.blocks.len(),
        final(func)@.values.len() >= old(func)@.values.len(),
{
    let start = n.outer_induction.initial;
    let incomings = vec![(n.outer_preheader, start), (BlockId(fr.exit), start)];
    assert(incomings@ =~= seq![(n.outer_preheader, start), (BlockId(fr.exit), start)]);
    let outer = emit_phi(func, fr.header, incomings);
    let _one = get_or_add_i32_const(func, 1);
    let step = get_or_add_i32_const(func, factor as i32);
    let indices = add_indices(func, fr.header, outer, factor);
    let cond = emit_comparison(
        func,
        fr.header,
        CompareOp::Lt,
        indices[factor - 1],
        n.outer_bound,
    );
    end_branch(func, fr.header, cond, fr.setup, n.outer_header.0);
    (outer, step, indices)
}

fn copy_setups(
    source: &Function,
    n: Nest,
    func: &mut Function,
    target: usize,
    indices: &Vec<ValueId>,
    factor: usize,
) -> (r: Vec<ValueMap>)
    requires
        source@.wf(),
        nest::nest_in(source@, n),
        target < old(func)@.blocks.len(),
        indices.len() == factor,
    ensures
        (final(func)@, maps_view(r@)) == setups_copied(
            source@,
            n,
            old(func)@,
            target,
            indices@,
            factor as int,
        ),
        r.len() == factor,
        final(func)@.blocks.len() == old(func)@.blocks.len(),
        final(func)@.values.len() >= old(func)@.values.len(),
{
    let ghost f = func@;
    let none = ValueMap::new();
    let mut maps: Vec<ValueMap> = Vec::new();
    assert(maps_view(maps@) =~= Seq::empty());
    for k in 0..factor
        invariant
            source@.wf(),
            nest::nest_in(source@, n),
            target < func@.blocks.len(),
            indices.len() == factor,
            maps.len() == k,
            (func@, maps_view(maps@)) == setups_copied(
                source@,
                n,
                f,
                target,
                indices@,
                k as int,
            ),
            func@.blocks.len() == f.blocks.len(),
            func@.values.len() >= f.values.len(),
    {
        let ghost before = maps_view(maps@);
        let mut map = ValueMap::new();
        assert(source.values.len() == source@.values.len());
        map.insert(n.outer_induction.phi, indices[k]);
        copy_block(source, n.inner_preheader, func, &mut map, target, false, &none);
        maps.push(map);
        assert(maps_view(maps@) =~= before.push(map@));
    }
    maps
}

fn add_accumulators(
    n: Nest,
    func: &mut Function,
    fr: Frame,
    maps: &Vec<ValueMap>,
    factor: usize,
) -> (r: Vec<(ValueId, ValueId)>)
    requires
        fr.inner < old(func)@.blocks.len(),
        maps.len() == factor,
    ensures
        (final(func)@, r@) == accumulators_added(
            n,
            old(func)@,
            fr,
            maps_view(maps@),
            factor as int,
        ),
        r.len() == factor,
        final(func)@.blocks.len() == old(func)@.blocks.len(),
        final(func)@.values.len() >= old(func)@.values.len(),
{
    let ghost f = func@;
    let mut list: Vec<(ValueId, ValueId)> = Vec::new();
    for k in 0..factor
        invariant
            fr.inner < func@.blocks.len(),
            maps.len() == factor,
            list.len() == k,
            (func@, list@) == accumulators_added(n, f, fr, maps_view(maps@), k as int),
            func@.blocks.len() == f.blocks.len(),
            func@.values.len() >= f.values.len(),
    {
        assert(maps_view(maps@)[k as int] == maps@[k as int]@);
        let start = maps[k].apply(n.accumulator_initial);
        let incomings = vec![(BlockId(fr.setup), start), (BlockId(fr.back), start)];
        assert(incomings@ =~= seq![(BlockId(fr.setup), start), (BlockId(fr.back), start)]);
        let v = emit_phi(func, fr.inner, incomings);
        list.push((v, start));
    }
    list
}

fn build_inner(
    n: Nest,
    func: &mut Function,
    fr: Frame,
    maps: &Vec<ValueMap>,
    factor: usize,
) -> (r: (ValueId, ValueId, Vec<(ValueId, ValueId)>))
    requires
        fr.inner < old(func)@.blocks.len(),
        fr.setup < old(func)@.blocks.len(),
        maps.len() == factor,
        1 <= factor,
    ensures
        (final(func)@, r.0, r.1, r.2@) == inner_built(
            n,
            old(func)@,
            fr,
            maps_view(maps@),
            factor as int,
        ),
        r.2.len() == factor,
        final(func)@.blocks.len() == old(func)@.blocks.len(),
        final(func)@.values.len() >= old(func)@.values.len(),
{
    assert(maps_view(maps@)[0] == maps@[0]@);
    let start = maps[0].apply(n.inner_induction.initial);
    let incomings = vec![(BlockId(fr.setup), start), (BlockId(fr.back), start)];
    assert(incomings@ =~= seq![(BlockId(fr.setup), start), (BlockId(fr.back), start)]);
    let inner = emit_phi(func, fr.inner, incomings);
    let sums = add_accumulators(n, func, fr, maps, factor);
    let cond = emit_comparison(func, fr.inner, CompareOp::Lt, inner, n.inner_bound);
    end_branch(func, fr.inner, cond, fr.first, fr.exit);
    end_jump(func, fr.setup, fr.inner);
    (inner, start, sums)
}

fn copy_bodies(
    source: &Function,
    n: Nest,
    func: &mut Function,
    fr: Frame,
    inner: ValueId,
    sums: &Vec<(ValueId, ValueId)>,
    maps: &mut Vec<ValueMap>,
    factor: usize,
)
    requires
        source@.wf(),
        nest::nest_in(source@, n),
        fr.back < old(func)@.blocks.len(),
        old(maps).len() == factor,
        sums.len() == factor,
    ensures
        (final(func)@, maps_view(final(maps)@)) == bodies_copied(
            source@,
            n,
            old(func)@,
            fr,
            inner,
            sums@,
            maps_view(old(maps)@),
            factor as int,
        ),
        final(maps).len() == factor,
        final(func)@.blocks.len() == old(func)@.blocks.len(),
        final(func)@.values.len() >= old(func)@.values.len(),
{
    let ghost f = func@;
    let ghost start = maps_view(maps@);
    let none = ValueMap::new();
    for k in 0..factor
        invariant
            source@.wf(),
            nest::nest_in(source@, n),
            fr.back < func@.blocks.len(),
            maps.len() == factor,
            sums.len() == factor,
            (func@, maps_view(maps@)) == bodies_copied(
                source@,
                n,
                f,
                fr,
                inner,
                sums@,
                start,
                k as int,
            ),
            func@.blocks.len() == f.blocks.len(),
            func@.values.len() >= f.values.len(),
    {
        let ghost before = maps_view(maps@);
        assert(before[k as int] == maps@[k as int]@);
        assert(source.values.len() == source@.values.len());
        let mut map = maps[k].copy();
        map.insert(n.inner_induction.phi, inner);
        map.insert(n.accumulator, sums[k].0);
        copy_block(source, n.inner_latch, func, &mut map, fr.back, false, &none);
        let ghost now = map@;
        maps.set(k, map);
        assert(maps_view(maps@) =~= before.update(k as int, now));
    }
}

fn set_backedges(
    n: Nest,
    func: &mut Function,
    fr: Frame,
    sums: &Vec<(ValueId, ValueId)>,
    maps: &Vec<ValueMap>,
    factor: usize,
)
    requires
        maps.len() == factor,
        sums.len() == factor,
    ensures
        final(func)@ == backedges_set(
            n,
            old(func)@,
            fr,
            sums@,
            maps_view(maps@),
            factor as int,
        ),
        final(func)@.blocks.len() == old(func)@.blocks.len(),
        final(func)@.values.len() >= old(func)@.values.len(),
{
    let ghost f = func@;
    for k in 0..factor
        invariant
            maps.len() == factor,
            sums.len() == factor,
            func@ == backedges_set(n, f, fr, sums@, maps_view(maps@), k as int),
            func@.blocks.len() == f.blocks.len(),
            func@.values.len() >= f.values.len(),
    {
        assert(maps_view(maps@)[k as int] == maps@[k as int]@);
        let next = maps[k].apply(n.accumulator_next);
        let incomings = vec![(BlockId(fr.setup), sums[k].1), (BlockId(fr.back), next)];
        assert(incomings@ =~= seq![
            (BlockId(fr.setup), sums@[k as int].1),
            (BlockId(fr.back), next),
        ]);
        set_phi(func, sums[k].0, incomings);
    }
}

fn copy_exits(
    source: &Function,
    n: Nest,
    func: &mut Function,
    target: usize,
    maps: &mut Vec<ValueMap>,
    factor: usize,
)
    requires
        source@.wf(),
        nest::nest_in(source@, n),
        target < old(func)@.blocks.len(),
        old(maps).len() == factor,
    ensures
        (final(func)@, maps_view(final(maps)@)) == exits_copied(
            source@,
            n,
            old(func)@,
            target,
            maps_view(old(maps)@),
            factor as int,
        ),
        final(maps).len() == factor,
        final(func)@.blocks.len() == old(func)@.blocks.len(),
        final(func)@.values.len() >= old(func)@.values.len(),
{
    let ghost f = func@;
    let ghost start = maps_view(maps@);
    let none = ValueMap::new();
    for k in 0..factor
        invariant
            source@.wf(),
            nest::nest_in(source@, n),
            target < func@.blocks.len(),
            maps.len() == factor,
            (func@, maps_view(maps@)) == exits_copied(source@, n, f, target, start, k as int),
            func@.blocks.len() == f.blocks.len(),
            func@.values.len() >= f.values.len(),
    {
        let ghost before = maps_view(maps@);
        assert(before[k as int] == maps@[k as int]@);
        let mut map = maps[k].copy();
        copy_block(source, n.inner_exit, func, &mut map, target, false, &none);
        let ghost now = map@;
        maps.set(k, map);
        assert(maps_view(maps@) =~= before.update(k as int, now));
    }
}

fn add_stores(
    n: Nest,
    func: &mut Function,
    target: usize,
    sums: &Vec<(ValueId, ValueId)>,
    maps: &Vec<ValueMap>,
    factor: usize,
)
    requires
        target < old(func)@.blocks.len(),
        maps.len() == factor,
        sums.len() == factor,
    ensures
        final(func)@ == stores_added(
            n,
            old(func)@,
            target,
            sums@,
            maps_view(maps@),
            factor as int,
        ),
        final(func)@.blocks.len() == old(func)@.blocks.len(),
        final(func)@.values.len() >= old(func)@.values.len(),
{
    let ghost f = func@;
    for k in 0..factor
        invariant
            target < func@.blocks.len(),
            maps.len() == factor,
            sums.len() == factor,
            func@ == stores_added(n, f, target, sums@, maps_view(maps@), k as int),
            func@.blocks.len() == f.blocks.len(),
            func@.values.len() >= f.values.len(),
    {
        assert(maps_view(maps@)[k as int] == maps@[k as int]@);
        let ptr = maps[k].apply(n.store_ptr);
        emit_store(func, target, ptr, sums[k].0);
    }
}

/// The incoming list with the first entry from `pred` replaced.
fn reroute(incomings: &Vec<(BlockId, ValueId)>, pred: BlockId, entry: (BlockId, ValueId)) -> (r: Vec<
    (BlockId, ValueId),
>)
    ensures
        r@ == rerouted(incomings@, pred, entry, 0),
{
    let mut list = ir::clone_incomings(incomings);
    let n = list.len();
    for k in 0..n
        invariant
            n == list.len(),
            list@ == incomings@,
            rerouted(incomings@, pred, entry, 0) == rerouted(
                incomings@,
                pred,
                entry,
                k as int,
            ),
    {
        if list[k].0 == pred {
            list.set(k, entry);
            return list;
        }
    }
    list
}

fn enter(source: &Function, n: Nest, func: &mut Function, fr: Frame, outer: ValueId)
    requires
        n.outer_preheader.0 < old(func)@.blocks.len(),
    ensures
        final(func)@ == entered(source@, n, old(func)@, fr, outer),
{
    end_jump(func, n.outer_preheader.0, fr.header);
    if let Some(InstKind::Phi { incomings }) = defining_inst(source, n.outer_induction.phi) {
        let list = reroute(incomings, n.outer_preheader, (BlockId(fr.header), outer));
        set_phi(func, n.outer_induction.phi, list);
    }
    func.mark_reduction_jammed();
}

fn close_up(
    source: &Function,
    n: Nest,
    func: &mut Function,
    fr: Frame,
    cs: Counters,
    sums: &Vec<(ValueId, ValueId)>,
    maps: &mut Vec<ValueMap>,
    inner_next: ValueId,
    factor: usize,
)
    requires
        source@.wf(),
        nest::nest_in(source@, n),
        old(func)@.blocks.len() >= source@.blocks.len(),
        fr.exit < old(func)@.blocks.len(),
        old(maps).len() == factor,
        sums.len() == factor,
    ensures
        final(func)@ == closed_up(
            source@,
            n,
            old(func)@,
            fr,
            cs,
            sums@,
            maps_view(old(maps)@),
            inner_next,
            factor as int,
        ),
{
    let incomings = vec![(BlockId(fr.setup), cs.inner_initial), (BlockId(fr.back), inner_next)];
    assert(incomings@ =~= seq![
        (BlockId(fr.setup), cs.inner_initial),
        (BlockId(fr.back), inner_next),
    ]);
    set_phi(func, cs.inner, incomings);
    set_backedges(n, func, fr, sums, maps, factor);
    copy_exits(source, n, func, fr.exit, maps, factor);
    add_stores(n, func, fr.exit, sums, maps, factor);
    let next = emit_binary(func, fr.exit, BinaryOp::Iadd, cs.outer, cs.step);
    let incomings = vec![
        (n.outer_preheader, n.outer_induction.initial),
        (BlockId(fr.exit), next),
    ];
    assert(incomings@ =~= seq![
        (n.outer_preheader, n.outer_induction.initial),
        (BlockId(fr.exit), next),
    ]);
    set_phi(func, cs.outer, incomings);
    end_jump(func, fr.exit, fr.header);
    enter(source, n, func, fr, cs.outer);
}

/// Jams a nest.
pub fn apply_candidate(func: &mut Function, n: Nest, factor: usize)
    requires
        old(func)@.wf(),
        nest::nest_in(old(func)@, n),
        factor == 2 || factor == 4,
    ensures
        final(func)@ == jammed(old(func)@, n, factor as int),
{
    let source = func.clone();
    let base = func.blocks.len();
    assert(base == func@.blocks.len());
    let list = vec![
        "reduction.jam.header",
        "reduction.jam.setup",
        "reduction.jam.inner",
        "reduction.jam.body",
        "reduction.jam.exit",
    ];
    add_named_blocks(func, &list);
    assert(emit::texts(list@) =~= plain_names());
    assert(func.blocks.len() == func@.blocks.len());
    let fr = Frame {
        header: base,
        setup: base + 1,
        inner: base + 2,
        first: base + 3,
        back: base + 3,
        exit: base + 4,
    };
    let (outer, step, indices) = build_header(func, n, fr, factor);
    let mut maps = copy_setups(&source, n, func, fr.setup, &indices, factor);
    let (inner, inner_initial, sums) = build_inner(n, func, fr, &maps, factor);
    copy_bodies(&source, n, func, fr, inner, &sums, &mut maps, factor);
    end_jump(func, fr.back, fr.inner);
    assert(maps_view(maps@)[0] == maps@[0]@);
    let inner_next = maps[0].apply(n.inner_induction.next);
    let cs = Counters { outer, step, inner, inner_initial };
    close_up(&source, n, func, fr, cs, &sums, &mut maps, inner_next, factor);
}

fn add_lane_blocks(func: &mut Function, factor: usize)
    ensures
        final(func)@ == lane_blocks_added(old(func)@, factor as int),
        final(func)@.blocks.len() == old(func)@.blocks.len() + 3 * factor,
        final(func)@.values == old(func)@.values,
{
    let ghost f = func@;
    for k in 0..factor
        invariant
            func@ == lane_blocks_added(f, k as int),
            func@.blocks.len() == f.blocks.len() + 3 * k,
            func@.values == f.values,
    {
        let condition = numbered("conditional.reduction.jam.condition.", k);
        new_block(func, condition.as_str());
        let update = numbered("conditional.reduction.jam.update.", k);
        new_block(func, update.as_str());
        let merge = numbered("conditional.reduction.jam.merge.", k);
        new_block(func, merge.as_str());
    }
}

fn branch_lane(
    source: &Function,
    c: ConditionalNest,
    func: &mut Function,
    map: &ValueMap,
    at: usize,
)
    requires
        at + 2 < old(func)@.blocks.len(),
    ensures
        final(func)@ == branched(source@, c, old(func)@, map@, at),
        final(func)@.blocks.len() == old(func)@.blocks.len(),
        final(func)@.values.len() >= old(func)@.values.len(),
{
    assert(func.blocks.len() == func@.blocks.len());
    if let Some((cond, t, e)) = as_branch(source, c.condition) {
        let t = if t == c.update {
            at + 1
        } else {
            at + 2
        };
        let e = if e == c.update {
            at + 1
        } else {
            at + 2
        };
        end_branch(func, at, map.apply(cond), t, e);
    }
}

fn select_sum(
    source: &Function,
    c: ConditionalNest,
    func: &mut Function,
    map: &mut ValueMap,
    at: usize,
)
    requires
        at + 2 < old(func)@.blocks.len(),
        source@.has_value(c.nest.accumulator_next),
    ensures
        (final(func)@, final(map)@) == selected(source@, c, old(func)@, old(map)@, at),
        final(func)@.blocks.len() == old(func)@.blocks.len(),
        final(func)@.values.len() >= old(func)@.values.len(),
{
    assert(func.blocks.len() == func@.blocks.len());
    assert(source.values.len() == source@.values.len());
    let ghost m = map@;
    if let Some(InstKind::Phi { incomings }) = defining_inst(source, c.nest.accumulator_next) {
        let mut list: Vec<(BlockId, ValueId)> = Vec::new();
        let n = incomings.len();
        for j in 0..n
            invariant
                n == incomings.len(),
                list.len() == j,
                m == map@,
                at + 2 <= usize::MAX,
                forall|i: int|
                    0 <= i < j ==> #[trigger] list@[i] == lane_entry(c, m, at, incomings@[i]),
        {
            let (p, v) = incomings[j];
            let p = if p == c.condition {
                BlockId(at)
            } else {
                BlockId(at + 1)
            };
            list.push((p, map.apply(v)));
        }
        assert(list@ =~= Seq::new(
            incomings@.len(),
            |j: int| lane_entry(c, m, at, incomings@[j]),
        ));
        let v = emit_phi(func, at + 2, list);
        map.insert(c.nest.accumulator_next, v);
    }
}

fn step_inner(
    source: &Function,
    c: ConditionalNest,
    func: &mut Function,
    map: &mut ValueMap,
    at: usize,
)
    requires
        at + 2 < old(func)@.blocks.len(),
        source@.has_value(c.nest.inner_induction.next),
    ensures
        (final(func)@, final(map)@) == stepped(source@, c, old(func)@, old(map)@, at),
        final(func)@.blocks.len() == old(func)@.blocks.len(),
        final(func)@.values.len() >= old(func)@.values.len(),
{
    assert(func.blocks.len() == func@.blocks.len());
    assert(source.values.len() == source@.values.len());
    if let Some(kind) = defining_inst(source, c.nest.inner_induction.next) {
        let kind = resolve_kind(kind, map, 1);
        let v = emit(func, at + 2, kind, Type::I32);
        map.insert(c.nest.inner_induction.next, v);
    }
}

fn copy_lane(
    source: &Function,
    c: ConditionalNest,
    func: &mut Function,
    map: &mut ValueMap,
    at: usize,
    share: bool,
    shared: &ValueMap,
    inner: Option<usize>,
)
    requires
        source@.wf(),
        nest::nest_in(source@, c.nest),
        source@.has_block(c.condition),
        source@.has_block(c.update),
        at + 3 < old(func)@.blocks.len(),
    ensures
        (final(func)@, final(map)@) == lane_copied(
            source@,
            c,
            old(func)@,
            old(map)@,
            at,
            option_map(share, *shared),
            inner,
        ),
        final(func)@.blocks.len() == old(func)@.blocks.len(),
        final(func)@.values.len() >= old(func)@.values.len(),
{
    assert(func.blocks.len() == func@.blocks.len());
    let none = ValueMap::new();
    copy_block(source, c.condition, func, map, at, share, shared);
    branch_lane(source, c, func, map, at);
    copy_block(source, c.update, func, map, at + 1, false, &none);
    end_jump(func, at + 1, at + 2);
    select_sum(source, c, func, map, at);
    match inner {
        Some(header) => {
            step_inner(source, c, func, map, at);
            end_jump(func, at + 2, header);
        },
        None => {
            end_jump(func, at + 2, at + 3);
        },
    }
}

fn copy_lanes(
    source: &Function,
    c: ConditionalNest,
    func: &mut Function,
    fr: Frame,
    inner: ValueId,
    sums: &Vec<(ValueId, ValueId)>,
    maps: &mut Vec<ValueMap>,
    factor: usize,
)
    requires
        source@.wf(),
        nest::nest_in(source@, c.nest),
        source@.has_block(c.condition),
        source@.has_block(c.update),
        source@.blocks.len() + 3 + 3 * factor < old(func)@.blocks.len(),
        old(maps).len() == factor,
        sums.len() == factor,
        factor <= 4,
    ensures
        (final(func)@, maps_view(final(maps)@)) == lanes_copied(
            source@,
            c,
            old(func)@,
            fr,
            inner,
            sums@,
            maps_view(old(maps)@),
            factor as int,
            factor as int,
        ),
        final(maps).len() == factor,
        final(func)@.blocks.len() == old(func)@.blocks.len(),
        final(func)@.values.len() >= old(func)@.values.len(),
{
    let ghost f = func@;
    let ghost start = maps_view(maps@);
    let base = source.blocks.len();
    assert(base == source@.blocks.len());
    for k in 0..factor
        invariant
            source@.wf(),
            nest::nest_in(source@, c.nest),
            source@.has_block(c.condition),
            source@.has_block(c.update),
            base == source@.blocks.len(),
            base + 3 + 3 * factor < func@.blocks.len(),
            maps.len() == factor,
            sums.len() == factor,
            factor <= 4,
            (func@, maps_view(maps@)) == lanes_copied(
                source@,
                c,
                f,
                fr,
                inner,
                sums@,
                start,
                factor as int,
                k as int,
            ),
            func@.blocks.len() == f.blocks.len(),
            func@.values.len() >= f.values.len(),
    {
        let ghost before = maps_view(maps@);
        assert(before[k as int] == maps@[k as int]@);
        assert(before[0] == maps@[0]@);
        assert(source.values.len() == source@.values.len());
        assert(func.blocks.len() == func@.blocks.len());
        let shared = conditional_shared_load_values(source, c.condition, &maps[0]);
        let mut map = maps[k].copy();
        map.insert(c.nest.inner_induction.phi, inner);
        map.insert(c.nest.accumulator, sums[k].0);
        let at = base + 3 + 3 * k;
        let last = if k + 1 == factor {
            Some(fr.inner)
        } else {
            None
        };
        copy_lane(source, c, func, &mut map, at, k > 0, &shared, last);
        let ghost now = map@;
        maps.set(k, map);
        assert(maps_view(maps@) =~= before.update(k as int, now));
    }
}

/// Jams a nest with a condition.
pub fn apply_conditional_candidate(func: &mut Function, c: ConditionalNest, factor: usize)
    requires
        old(func)@.wf(),
        nest::nest_in(old(func)@, c.nest),
        old(func)@.has_block(c.condition),
        old(func)@.has_block(c.update),
        factor == 2 || factor == 4,
    ensures
        final(func)@ == conditionally_jammed(old(func)@, c, factor as int),
{
    let n = c.nest;
    let source = func.clone();
    let base = func.blocks.len();
    assert(base == func@.blocks.len());
    let list = vec![
        "conditional.reduction.jam.header",
        "conditional.reduction.jam.setup",
        "conditional.reduction.jam.inner",
    ];
    add_named_blocks(func, &list);
    assert(emit::texts(list@) =~= conditional_names());
    add_lane_blocks(func, factor);
    new_block(func, "conditional.reduction.jam.exit");
    assert(func.blocks.len() == func@.blocks.len());
    let fr = Frame {
        header: base,
        setup: base + 1,
        inner: base + 2,
        first: base + 3,
        back: base + 2 + 3 * factor,
        exit: base + 3 + 3 * factor,
    };
    let (outer, step, indices) = build_header(func, n, fr, factor);
    let mut maps = copy_setups(&source, n, func, fr.setup, &indices, factor);
    let (inner, inner_initial, sums) = build_inner(n, func, fr, &maps, factor);
    copy_lanes(&source, c, func, fr, inner, &sums, &mut maps, factor);
    assert(maps_view(maps@)[factor - 1] == maps@[factor - 1]@);
    let inner_next = maps[factor - 1].apply(n.inner_induction.next);
    let cs = Counters { outer, step, inner, inner_initial };
    close_up(&source, n, func, fr, cs, &sums, &mut maps, inner_next, factor);
}

} // verus!
