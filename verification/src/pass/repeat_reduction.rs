//! Collapsing of repeated reductions.
//!
//! A counted loop without effects whose only state is `accumulator += work`,
//! with `work` the same in every round, runs once: what one round adds is
//! multiplied by the number of rounds.
use vstd::prelude::*;

use crate::cfg;
use crate::cfg::{ControlFlowGraph, Dominators};
use crate::edit;
use crate::edit::{inst_operands, terminator_operands};
use crate::flow;
use crate::flow::{any_marked, is_marked, mark_derived};
use crate::ir::{
    BinaryOp, BlockId, CompareOp, Const, FuncView, Function, Inst, InstKind, InstView, KindView,
    Module, ModuleView, Type, ValueId, ValueKind, ValueKindView,
};
use crate::loops;
use crate::loops::{
    all_block_ids, analyze_i32_induction, order_by_size, LoopInfo, LoopView, NaturalLoop,
};
use crate::patterns;
use crate::patterns::{
    append_binary, as_branch, as_compare, collect_phi_results, is_defined_in, replace_phi_incoming,
};
use crate::query;
use crate::query::value_use_counts;
use crate::util;
use crate::util::{defining_block, phi_incoming};
use crate::verify;

verus! {

pub const MAX_BLOCKS: usize = 1024;

pub const MAX_VALUES: usize = 8192;

/// A loop that repeats one reduction.
#[derive(Clone, Copy, PartialEq, Eq, Structural)]
pub struct Reduction {
    pub header: BlockId,
    pub latch: BlockId,
    pub accumulator: ValueId,
    pub accumulator_next: ValueId,
    pub accumulator_initial: ValueId,
    pub counter: ValueId,
    pub bound: ValueId,
}

// ---------------------------------------------------------------------------
// Mathematical model
// ---------------------------------------------------------------------------

/// The value is the integer constant `c`.
pub open spec fn is_int(f: FuncView, v: ValueId, c: i32) -> bool {
    f.has_value(v) && f.value(v).kind == ValueKindView::Const(Const::Int(c))
}

/// The instruction may change memory.
pub open spec fn has_effect(inst: InstView) -> bool {
    inst.kind is Store || inst.kind is MemZero || inst.kind is MemCopy || inst.kind is Call
}

pub open spec fn loop_has_effects(f: FuncView, l: LoopView) -> bool {
    exists|b: BlockId, i: int|
        l.blocks.contains(b) && f.has_inst(b, i) && has_effect(#[trigger] f.inst(b, i))
}

/// Only the header branches out of the loop.
pub open spec fn leaves_at_header(f: FuncView, l: LoopView) -> bool {
    forall|b: BlockId, s: BlockId|
        l.blocks.contains(b) && b != l.header && #[trigger] cfg::edge(f, b, s) ==> l.has(s)
}

/// The instruction reads a marked value and is not a phi.
pub open spec fn reads_marked(marks: Seq<bool>, inst: InstView) -> bool {
    flow::some_marked(marks, edit::operands(inst.kind)) && !(inst.kind is Phi
        && inst.result is Some)
}

/// Something other than phis reads a marked value.
pub open spec fn read_beyond_phis(f: FuncView, marks: Seq<bool>) -> bool {
    ||| exists|b: BlockId, i: int| f.has_inst(b, i) && reads_marked(marks, #[trigger] f.inst(b, i))
    ||| exists|b: BlockId|
        f.has_block(b) && flow::some_marked(
            marks,
            edit::terminator_reads(#[trigger] f.terminator(b)),
        )
}

/// Something other than phis reads the value, possibly through phis.
pub open spec fn has_nontrivial_use(f: FuncView, v: ValueId) -> bool {
    read_beyond_phis(f, flow::derived_marks(f, loops::all_ids(f.blocks.len()), true, v))
}

/// The values among the first `n` of the list that have a nontrivial use.
pub open spec fn used_below(f: FuncView, list: Seq<ValueId>, n: int) -> Seq<ValueId>
    decreases n,
{
    if n <= 0 {
        Seq::empty()
    } else {
        let before = used_below(f, list, n - 1);
        if has_nontrivial_use(f, list[n - 1]) {
            before.push(list[n - 1])
        } else {
            before
        }
    }
}

/// The phis of the header that matter.
pub open spec fn used_phis(f: FuncView, b: BlockId) -> Seq<ValueId> {
    let list = patterns::phi_results(f, b);
    used_below(f, list, list.len() as int)
}

/// The one of two phis that is not the counter.
pub open spec fn other_of(list: Seq<ValueId>, counter: ValueId) -> Option<ValueId> {
    if list.len() != 2 {
        None
    } else if list[0] == counter && list[1] != counter {
        Some(list[1])
    } else if list[1] == counter && list[0] != counter {
        Some(list[0])
    } else {
        None
    }
}

pub open spec fn all_marked(marks: Seq<bool>, incomings: Seq<(BlockId, ValueId)>) -> bool {
    forall|k: int| 0 <= k < incomings.len() ==> flow::marked(marks, (#[trigger] incomings[k]).1)
}

/// The instruction leaves alone what depends on the accumulator, or adds
/// something independent of it.
pub open spec fn adds_only(marks: Seq<bool>, accumulator: ValueId, inst: InstView) -> bool {
    match inst.result {
        Some(r) => r == accumulator || !flow::some_marked(marks, edit::operands(inst.kind))
            || match inst.kind {
            KindView::Phi { incomings } => all_marked(marks, incomings),
            KindView::Binary { op: BinaryOp::Iadd, lhs, rhs } => flow::marked(marks, lhs) != flow::marked(marks,
                rhs,
            ),
            KindView::Binary { op: BinaryOp::Isub, lhs, rhs } => flow::marked(marks, lhs) && !flow::marked(marks,
                rhs,
            ),
            _ => false,
        },
        None => true,
    }
}

/// One round adds to the accumulator something that does not depend on it.
pub open spec fn is_affine(f: FuncView, l: LoopView, accumulator: ValueId, next: ValueId) -> bool {
    let marks = flow::derived_marks(f, l.blocks, false, accumulator);
    &&& flow::marked(marks, next)
    &&& forall|b: BlockId|
        l.blocks.contains(b) && f.has_block(b) ==> !flow::some_marked(
            marks,
            edit::terminator_reads(#[trigger] f.terminator(b)),
        )
    &&& forall|b: BlockId, i: int|
        l.blocks.contains(b) && f.has_inst(b, i) ==> adds_only(
            marks,
            accumulator,
            #[trigger] f.inst(b, i),
        )
}

/// The loop repeats the reduction.
pub open spec fn reduction_matches(f: FuncView, l: LoopView, r: Reduction) -> bool {
    &&& l.header == r.header
    &&& l.unique_entering_pred is Some
    &&& l.unique_latch() == Some(r.latch)
    &&& cfg::preds(f, l.header).len() == 2
    &&& patterns::branch_of(f, l.header) matches Some((cond, t, e))
    &&& l.has(t) && !l.has(e) && leaves_at_header(f, l)
    &&& patterns::compare_of(f, cond) == Some((CompareOp::Lt, r.counter, r.bound))
    &&& !patterns::defined_in(f, r.bound, l.blocks)
    &&& query::uses(f, r.counter) == 2
    &&& !loop_has_effects(f, l)
    &&& other_of(used_phis(f, l.header), r.counter) == Some(r.accumulator)
    &&& f.value(r.accumulator).ty == Type::I32
    &&& f.value(r.counter).ty == Type::I32
    &&& loops::induction_of(f, l, r.counter) matches Some(iv)
    &&& is_int(f, iv.initial, 0) && iv.step == 1
    &&& util::def_block(f, iv.next) == Some(r.latch)
    &&& query::uses(f, iv.next) == 1
    &&& util::phi_incoming_of(f, r.accumulator, l.unique_entering_pred->0) == Some(
        r.accumulator_initial,
    )
    &&& util::phi_incoming_of(f, r.accumulator, r.latch) == Some(r.accumulator_next)
    &&& patterns::defined_in(f, r.accumulator_next, l.blocks)
    &&& is_affine(f, l, r.accumulator, r.accumulator_next)
    &&& cfg::succ_list(f.terminator(r.latch)) == seq![l.header]
}

pub open spec fn reduction_of(f: FuncView, l: LoopView) -> Option<Reduction> {
    if exists|r: Reduction| reduction_matches(f, l, r) {
        Some(choose|r: Reduction| reduction_matches(f, l, r))
    } else {
        None
    }
}

/// A loop repeats at most one reduction.
pub proof fn lemma_reduction_unique(f: FuncView, l: LoopView, r: Reduction, s: Reduction)
    requires
        reduction_matches(f, l, r),
        reduction_matches(f, l, s),
    ensures
        r == s,
{
}

/// The function with the reduction done at once.
pub open spec fn reduced(f: FuncView, r: Reduction) -> FuncView {
    let delta = f.next_value();
    let f1 = patterns::with_binary(f, r.latch, BinaryOp::Isub, r.accumulator_next, r.accumulator);
    let repeated = f1.next_value();
    let f2 = patterns::with_binary(f1, r.latch, BinaryOp::Imul, delta, r.bound);
    let total = f2.next_value();
    let f3 = patterns::with_binary(f2, r.latch, BinaryOp::Iadd, r.accumulator_initial, repeated);
    patterns::incoming_replaced(
        patterns::incoming_replaced(f3, r.accumulator, r.latch, total),
        r.counter,
        r.latch,
        r.bound,
    )
}

/// The function after the loop, if it repeats a reduction.
pub open spec fn after_loop(f: FuncView, l: LoopView) -> FuncView {
    match reduction_of(f, l) {
        Some(r) => reduced(f, r),
        None => f,
    }
}

/// The function after the first `n` loops in the order.
pub open spec fn after_loops(f: FuncView, list: Seq<LoopView>, order: Seq<usize>, n: int) -> FuncView
    decreases n,
{
    if n <= 0 {
        f
    } else {
        after_loop(after_loops(f, list, order, n - 1), list[order[n - 1] as int])
    }
}

/// The function after all its loops, larger ones first.
pub open spec fn all_reduced(f: FuncView) -> FuncView {
    let list = loops::loops_of(f);
    let order = loops::size_order(list, false);
    after_loops(f, list, order, order.len() as int)
}

/// The effect on one function. A result that would not be valid is discarded.
pub open spec fn collapsed(f: FuncView) -> FuncView {
    if f.blocks.len() > MAX_BLOCKS || f.values.len() > MAX_VALUES {
        f
    } else if verify::valid(all_reduced(f)) {
        all_reduced(f)
    } else {
        f
    }
}

pub open spec fn collapsed_module(m: ModuleView) -> ModuleView {
    ModuleView { funcs: m.funcs.map_values(|f: FuncView| collapsed(f)), ..m }
}

// ---------------------------------------------------------------------------
// Laws
// ---------------------------------------------------------------------------

/// The accumulator after `n` rounds that each add `delta`, in arithmetic
/// modulo `m`.
pub open spec fn accumulated(initial: int, delta: int, m: int, n: nat) -> int
    decreases n,
{
    if n == 0 {
        initial % m
    } else {
        (accumulated(initial, delta, m, (n - 1) as nat) + delta) % m
    }
}

/// Adding the same amount in every round is multiplying it by the number of
/// rounds, also in arithmetic that wraps around.
pub proof fn reduction_computes_the_loop(initial: int, delta: int, m: int, n: nat)
    requires
        m > 0,
    ensures
        accumulated(initial, delta, m, n) == (initial + delta * n) % m,
    decreases n,
{
    if n == 0 {
        assert(delta * 0 == 0);
    } else {
        let k = (n - 1) as nat;
        reduction_computes_the_loop(initial, delta, m, k);
        assert(delta * n == delta * k + delta) by (nonlinear_arith)
            requires
                n == k + 1,
        ;
        vstd::arithmetic::div_mod::lemma_add_mod_noop_right(delta, initial + delta * k, m);
        assert(delta + (initial + delta * k) == initial + delta * n);
    }
}

/// The pass keeps functions valid.
pub proof fn collapsing_keeps_validity(f: FuncView)
    requires
        verify::valid(f),
    ensures
        verify::valid(collapsed(f)),
{
}

// ---------------------------------------------------------------------------
// Executable recognition
// ---------------------------------------------------------------------------

fn is_const_int(func: &Function, v: ValueId, c: i32) -> (r: bool)
    ensures
        r == is_int(func@, v, c),
{
    if v.0 >= func.values.len() {
        return false;
    }
    assert(func@.value(v) == func.values@[v.0 as int]@);
    match &func.values[v.0].kind {
        ValueKind::Const(Const::Int(i)) => *i == c,
        _ => false,
    }
}

fn kind_has_effect(inst: &Inst) -> (r: bool)
    ensures
        r == has_effect(inst@),
{
    match inst.kind {
        InstKind::Store { .. } => true,
        InstKind::MemZero { .. } => true,
        InstKind::MemCopy { .. } => true,
        InstKind::Call { .. } => true,
        _ => false,
    }
}

#[verifier::loop_isolation(false)]
fn loop_has_side_effects(func: &Function, l: &NaturalLoop) -> (r: bool)
    requires
        l@.within(func@.blocks.len()),
    ensures
        r == loop_has_effects(func@, l@),
{
    let ghost f = func@;
    let n = l.blocks.len();
    for x in 0..n
        invariant
            forall|j: int, i: int|
                0 <= j < x && f.has_inst(l@.blocks[j], i) ==> !has_effect(
                    #[trigger] f.inst(l@.blocks[j], i),
                ),
    {
        let b = l.blocks[x];
        assert(l@.blocks[x as int].0 < f.blocks.len());
        let m = func.blocks[b.0].insts.len();
        for i in 0..m
            invariant
                m == f.block(b).insts.len(),
                forall|j: int| 0 <= j < i ==> !has_effect(#[trigger] f.inst(b, j)),
        {
            let inst = &func.blocks[b.0].insts[i];
            assert(inst@ == f.inst(b, i as int));
            if kind_has_effect(inst) {
                assert(l@.blocks.contains(b));
                return true;
            }
        }
    }
    assert forall|b: BlockId, i: int| l@.blocks.contains(b) && f.has_inst(b, i) implies !has_effect(
        #[trigger] f.inst(b, i),
    ) by {
        let j = choose|j: int| 0 <= j < l@.blocks.len() && l@.blocks[j] == b;
        assert(!has_effect(f.inst(l@.blocks[j], i)));
    }
    false
}

#[verifier::loop_isolation(false)]
fn exits_at_header_only(func: &Function, graph: &ControlFlowGraph, l: &NaturalLoop) -> (r: bool)
    requires
        graph.of(func@),
        l@.within(func@.blocks.len()),
    ensures
        r == leaves_at_header(func@, l@),
{
    let ghost f = func@;
    proof {
        assert(cfg::lists_view(graph.succs@).len() == graph.succs.len());
    }
    let n = l.blocks.len();
    for x in 0..n
        invariant
            forall|j: int, s: BlockId|
                0 <= j < x && l@.blocks[j] != l@.header && #[trigger] cfg::edge(
                    f,
                    l@.blocks[j],
                    s,
                ) ==> l@.has(s),
    {
        let b = l.blocks[x];
        assert(l@.blocks[x as int].0 < f.blocks.len());
        assert(cfg::lists_view(graph.succs@)[b.0 as int] == graph.succs@[b.0 as int]@);
        assert(graph.succs@[b.0 as int]@ == cfg::succ_list(f.terminator(b)));
        if b != l.header {
            let m = graph.succs[b.0].len();
            for k in 0..m
                invariant
                    m == graph.succs@[b.0 as int]@.len(),
                    forall|j: int| 0 <= j < k ==> l@.has(#[trigger] graph.succs@[b.0 as int]@[j]),
            {
                let s = graph.succs[b.0][k];
                if !l.contains(s) {
                    assert(l@.blocks.contains(b));
                    assert(cfg::edge(f, b, s));
                    return false;
                }
            }
        }
    }
    assert forall|b: BlockId, s: BlockId|
        l@.blocks.contains(b) && b != l@.header && #[trigger] cfg::edge(f, b, s) implies l@.has(
        s,
    ) by {
        let j = choose|j: int| 0 <= j < l@.blocks.len() && l@.blocks[j] == b;
        assert(cfg::edge(f, l@.blocks[j], s));
    }
    true
}

#[verifier::loop_isolation(false)]
fn marks_read_beyond_phis(func: &Function, marks: &Vec<bool>) -> (r: bool)
    requires
        func@.wf(),
        marks.len() == func@.values.len(),
    ensures
        r == read_beyond_phis(func@, marks@),
{
    let ghost f = func@;
    let n = func.blocks.len();
    for x in 0..n
        invariant
            n == f.blocks.len(),
            forall|b: BlockId, i: int|
                b.0 < x && f.has_inst(b, i) ==> !reads_marked(marks@, #[trigger] f.inst(b, i)),
            forall|b: BlockId|
                b.0 < x ==> !flow::some_marked(
                    marks@,
                    edit::terminator_reads(#[trigger] f.terminator(b)),
                ),
    {
        let ghost b = BlockId(x);
        assert(f.has_block(b));
        let m = func.blocks[x].insts.len();
        for i in 0..m
            invariant
                m == f.block(b).insts.len(),
                forall|j: int| 0 <= j < i ==> !reads_marked(marks@, #[trigger] f.inst(b, j)),
        {
            let inst = &func.blocks[x].insts[i];
            assert(inst@ == f.inst(b, i as int));
            proof {
                query::lemma_inst_wf(f, b, i as int);
                verify::lemma_kind_wf_operands(inst@.kind, f.blocks.len(), f.values.len());
            }
            let passes = match inst.kind {
                InstKind::Phi { .. } => inst.result.is_some(),
                _ => false,
            };
            let list = inst_operands(&inst.kind);
            if !passes && any_marked(marks, &list) {
                assert(reads_marked(marks@, f.inst(b, i as int)));
                return true;
            }
        }
        proof {
            query::lemma_terminator_wf(f, b);
        }
        let list = terminator_operands(&func.blocks[x].terminator);
        if any_marked(marks, &list) {
            assert(flow::some_marked(marks@, edit::terminator_reads(f.terminator(b))));
            return true;
        }
    }
    assert forall|b: BlockId| f.has_block(b) implies !flow::some_marked(
        marks@,
        edit::terminator_reads(#[trigger] f.terminator(b)),
    ) by {}
    false
}

fn find_nontrivial_use(func: &Function, v: ValueId) -> (r: bool)
    requires
        func@.wf(),
        func@.has_value(v),
    ensures
        r == has_nontrivial_use(func@, v),
{
    assert(func.blocks.len() == func@.blocks.len());
    let all = all_block_ids(func.blocks.len());
    let marks = mark_derived(func, &all, true, v);
    marks_read_beyond_phis(func, &marks)
}

fn find_used_phis(func: &Function, b: BlockId) -> (r: Vec<ValueId>)
    requires
        func@.wf(),
        func@.has_block(b),
    ensures
        r@ == used_phis(func@, b),
        edit::reads_wf(r@, func@.values.len()),
{
    let list = collect_phi_results(func, b);
    let n = list.len();
    let mut r: Vec<ValueId> = Vec::new();
    for k in 0..n
        invariant
            func@.wf(),
            n == list.len(),
            edit::reads_wf(list@, func@.values.len()),
            edit::reads_wf(r@, func@.values.len()),
            r@ == used_below(func@, list@, k as int),
    {
        let v = list[k];
        assert(list@[k as int].0 < func@.values.len());
        if find_nontrivial_use(func, v) {
            r.push(v);
        }
    }
    r
}

fn find_other(list: &Vec<ValueId>, counter: ValueId) -> (r: Option<ValueId>)
    ensures
        r == other_of(list@, counter),
{
    if list.len() != 2 {
        None
    } else if list[0] == counter && list[1] != counter {
        Some(list[1])
    } else if list[1] == counter && list[0] != counter {
        Some(list[0])
    } else {
        None
    }
}

#[verifier::loop_isolation(false)]
fn instruction_adds_only(marks: &Vec<bool>, accumulator: ValueId, inst: &Inst) -> (r: bool)
    requires
        edit::reads_wf(edit::operands(inst@.kind), marks.len() as nat),
    ensures
        r == adds_only(marks@, accumulator, inst@),
{
    let result = match inst.result {
        Some(v) => v,
        None => return true,
    };
    if result == accumulator {
        return true;
    }
    let list = inst_operands(&inst.kind);
    if !any_marked(marks, &list) {
        return true;
    }
    match &inst.kind {
        InstKind::Phi { incomings } => {
            let n = incomings.len();
            for k in 0..n
                invariant
                    n == incomings.len(),
                    forall|j: int| 0 <= j < k ==> flow::marked(marks@, (#[trigger] incomings@[j]).1),
            {
                if !is_marked(marks, incomings[k].1) {
                    assert(!flow::marked(marks@, incomings@[k as int].1));
                    return false;
                }
            }
            true
        },
        InstKind::Binary { op: BinaryOp::Iadd, lhs, rhs } => {
            is_marked(marks, *lhs) != is_marked(marks, *rhs)
        },
        InstKind::Binary { op: BinaryOp::Isub, lhs, rhs } => {
            is_marked(marks, *lhs) && !is_marked(marks, *rhs)
        },
        _ => false,
    }
}

#[verifier::loop_isolation(false)]
fn accumulator_is_affine(func: &Function, l: &NaturalLoop, accumulator: ValueId, next: ValueId) -> (r:
    bool)
    requires
        func@.wf(),
        l@.within(func@.blocks.len()),
        func@.has_value(accumulator),
    ensures
        r == is_affine(func@, l@, accumulator, next),
{
    let ghost f = func@;
    let marks = mark_derived(func, &l.blocks, false, accumulator);
    if !is_marked(&marks, next) {
        return false;
    }
    let n = l.blocks.len();
    for x in 0..n
        invariant
            forall|j: int|
                0 <= j < x ==> !flow::some_marked(
                    marks@,
                    edit::terminator_reads(f.terminator(#[trigger] l@.blocks[j])),
                ),
            forall|j: int, i: int|
                0 <= j < x && f.has_inst(l@.blocks[j], i) ==> adds_only(
                    marks@,
                    accumulator,
                    #[trigger] f.inst(l@.blocks[j], i),
                ),
    {
        let b = l.blocks[x];
        assert(l@.blocks[x as int].0 < f.blocks.len());
        assert(l@.blocks.contains(b));
        proof {
            query::lemma_terminator_wf(f, b);
        }
        let list = terminator_operands(&func.blocks[b.0].terminator);
        if any_marked(&marks, &list) {
            assert(flow::some_marked(marks@, edit::terminator_reads(f.terminator(b))));
            return false;
        }
        let m = func.blocks[b.0].insts.len();
        for i in 0..m
            invariant
                m == f.block(b).insts.len(),
                forall|j: int|
                    0 <= j < i ==> adds_only(marks@, accumulator, #[trigger] f.inst(b, j)),
        {
            let inst = &func.blocks[b.0].insts[i];
            assert(inst@ == f.inst(b, i as int));
            proof {
                query::lemma_inst_wf(f, b, i as int);
                verify::lemma_kind_wf_operands(inst@.kind, f.blocks.len(), f.values.len());
            }
            if !instruction_adds_only(&marks, accumulator, inst) {
                assert(!adds_only(marks@, accumulator, f.inst(b, i as int)));
                return false;
            }
        }
    }
    assert forall|b: BlockId| l@.blocks.contains(b) && f.has_block(b) implies !flow::some_marked(
        marks@,
        edit::terminator_reads(#[trigger] f.terminator(b)),
    ) by {
        let j = choose|j: int| 0 <= j < l@.blocks.len() && l@.blocks[j] == b;
    }
    assert forall|b: BlockId, i: int| l@.blocks.contains(b) && f.has_inst(b, i) implies adds_only(
        marks@,
        accumulator,
        #[trigger] f.inst(b, i),
    ) by {
        let j = choose|j: int| 0 <= j < l@.blocks.len() && l@.blocks[j] == b;
        assert(adds_only(marks@, accumulator, f.inst(l@.blocks[j], i)));
    }
    true
}

/// Recognizes the loop as a repeated reduction.
pub fn match_reduction(func: &Function, graph: &ControlFlowGraph, l: &NaturalLoop) -> (res: Option<
    Reduction,
>)
    requires
        func@.wf(),
        graph.of(func@),
        l@.within(func@.blocks.len()),
    ensures
        res == reduction_of(func@, l@),
        res matches Some(r) ==> reduction_in(func@, r),
{
    let ghost f = func@;
    let entering = l.unique_entering_pred?;
    let latch = l.unique_latch()?;
    proof {
        assert(cfg::lists_view(graph.succs@).len() == graph.succs.len());
        assert(cfg::lists_view(graph.preds@).len() == graph.preds.len());
        assert(cfg::lists_view(graph.preds@)[l.header.0 as int] == graph.preds@[l.header.0
            as int]@);
        assert(l@.latches[0].0 < f.blocks.len());
        assert(cfg::lists_view(graph.succs@)[latch.0 as int] == graph.succs@[latch.0 as int]@);
    }
    if graph.preds[l.header.0].len() != 2 {
        return None;
    }
    let (cond, then_target, else_target) = as_branch(func, l.header)?;
    if !l.contains(then_target) || l.contains(else_target) || !exits_at_header_only(func, graph, l)
    {
        return None;
    }
    let (op, counter, bound) = as_compare(func, cond)?;
    proof {
        loops::lemma_def_kind_wf(f, cond);
    }
    if op != CompareOp::Lt || is_defined_in(func, bound, &l.blocks) {
        return None;
    }
    let counts = value_use_counts(func);
    if counts[counter.0] != 2 || loop_has_side_effects(func, l) {
        return None;
    }
    let phis = find_used_phis(func, l.header);
    let accumulator = find_other(&phis, counter)?;
    assert(func.values@[accumulator.0 as int]@ == f.value(accumulator));
    assert(func.values@[counter.0 as int]@ == f.value(counter));
    if !func.values[accumulator.0].ty.same(&Type::I32) || !func.values[counter.0].ty.same(
        &Type::I32,
    ) {
        return None;
    }
    let iv = analyze_i32_induction(func, l, counter)?;
    proof {
        loops::lemma_induction_wf(f, l@, counter);
    }
    if !is_const_int(func, iv.initial, 0) || iv.step != 1 || counts[iv.next.0] != 1 {
        return None;
    }
    match defining_block(func, iv.next) {
        Some(b) => if b != latch {
            return None;
        },
        None => return None,
    }
    let initial = phi_incoming(func, accumulator, entering)?;
    let next = phi_incoming(func, accumulator, latch)?;
    if !is_defined_in(func, next, &l.blocks) || !accumulator_is_affine(func, l, accumulator, next)
    {
        return None;
    }
    if graph.succs[latch.0].len() != 1 || graph.succs[latch.0][0] != l.header {
        assert(seq![l.header].len() == 1 && seq![l.header][0] == l.header);
        return None;
    }
    assert(cfg::succ_list(f.terminator(latch)) =~= seq![l.header]);
    let r = Reduction {
        header: l.header,
        latch,
        accumulator,
        accumulator_next: next,
        accumulator_initial: initial,
        counter,
        bound,
    };
    proof {
        assert(reduction_matches(f, l@, r));
        lemma_reduction_unique(f, l@, r, reduction_of(f, l@)->0);
        loops::lemma_phi_incoming_wf(f, accumulator, entering);
        loops::lemma_phi_incoming_wf(f, accumulator, latch);
    }
    Some(r)
}

/// The parts of the reduction exist.
pub open spec fn reduction_in(f: FuncView, r: Reduction) -> bool {
    &&& f.has_block(r.latch)
    &&& f.has_value(r.accumulator)
    &&& f.has_value(r.accumulator_next)
    &&& f.has_value(r.accumulator_initial)
    &&& f.has_value(r.counter)
    &&& f.has_value(r.bound)
}

// ---------------------------------------------------------------------------
// Executable rewriting
// ---------------------------------------------------------------------------

fn apply_reduction(func: &mut Function, r: Reduction)
    requires
        old(func)@.wf(),
        reduction_in(old(func)@, r),
    ensures
        final(func)@ == reduced(old(func)@, r),
        final(func)@.wf(),
        cfg::same_edges(final(func)@, old(func)@),
{
    assert(func.values.len() == func@.values.len());
    let delta = append_binary(func, r.latch, BinaryOp::Isub, r.accumulator_next, r.accumulator);
    assert(func.values.len() == func@.values.len());
    let repeated = append_binary(func, r.latch, BinaryOp::Imul, delta, r.bound);
    assert(func.values.len() == func@.values.len());
    let total = append_binary(func, r.latch, BinaryOp::Iadd, r.accumulator_initial, repeated);
    assert(func.values.len() == func@.values.len());
    replace_phi_incoming(func, r.accumulator, r.latch, total);
    replace_phi_incoming(func, r.counter, r.latch, r.bound);
}

/// Collapses the repeated reductions of a function.
pub fn collapse_repeated_reductions(func: &mut Function)
    requires
        old(func)@.wf(),
    ensures
        final(func)@ == collapsed(old(func)@),
        final(func)@.wf(),
{
    let ghost f = func@;
    if func.blocks.len() > MAX_BLOCKS || func.values.len() > MAX_VALUES {
        return ;
    }
    let before = func.clone();
    let graph = ControlFlowGraph::new(func);
    let dom = Dominators::new(func, &graph);
    let info = LoopInfo::new(func, &graph, &dom);
    let list = info.loops();
    let order = order_by_size(list, false);
    let ghost views = loops::loops_of(f);
    let n = order.len();
    for k in 0..n
        invariant
            n == order.len(),
            f.wf(),
            f.blocks.len() <= usize::MAX,
            views == loops::loops_of(f),
            views == loops::loops_view(list@),
            order@ == loops::size_order(views, false),
            forall|j: int| 0 <= j < order.len() ==> #[trigger] order@[j] < list.len(),
            func@ == after_loops(f, views, order@, k as int),
            func@.wf(),
            cfg::same_edges(func@, f),
            graph.of(f),
    {
        let l = &list[order[k]];
        proof {
            assert(views[order@[k as int] as int] == l@);
            loops::lemma_listed_loop(f, order@[k as int] as int);
            cfg::lemma_same_graph(func@, f);
        }
        if let Some(r) = match_reduction(func, &graph, l) {
            apply_reduction(func, r);
        }
    }
    if func.verify().is_err() {
        *func = before;
    }
}

/// The pass over all functions of a module.
pub struct RepeatReductionPass;

impl RepeatReductionPass {
    pub fn new() -> (r: Self) {
        RepeatReductionPass
    }

    /// Collapses the repeated reductions of every function.
    pub fn run(&self, module: &mut Module)
        requires
            old(module)@.wf(),
        ensures
            final(module)@ == collapsed_module(old(module)@),
            final(module)@.wf(),
    {
        let ghost m = module@;
        let ghost want = collapsed_module(m);
        let n = module.funcs.len();
        for k in 0..n
            invariant
                n == module.funcs.len(),
                n == m.funcs.len(),
                m.wf(),
                module@ == (ModuleView { funcs: module@.funcs, ..m }),
                want == collapsed_module(m),
                forall|j: int|
                    0 <= j < k ==> #[trigger] module@.funcs[j] == want.funcs[j]
                        && module@.funcs[j].wf(),
                forall|j: int| k <= j < n ==> #[trigger] module@.funcs[j] == m.funcs[j],
        {
            assert(module@.funcs[k as int] == m.funcs[k as int]);
            let ghost before = module@.funcs;
            collapse_repeated_reductions(&mut module.funcs[k]);
            assert(module@.funcs =~= before.update(k as int, module.funcs@[k as int]@));
        }
        assert(module@.funcs =~= want.funcs);
    }
}

} // verus!
