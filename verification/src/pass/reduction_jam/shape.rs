//! Shapes of blocks that can be jammed.
use vstd::prelude::*;

use crate::cfg::Dominators;
use crate::edit;
use crate::edit::inst_operands;
use crate::flow;
use crate::flow::{any_marked, is_marked, mark_defined};
use crate::ir::{
    BinaryOp, BlockId, CompareOp, FuncView, Function, Inst, InstKind, InstView, KindView, Type,
    ValueId,
};
use crate::loops::{LoopView, NaturalLoop};
use crate::patterns;
use crate::patterns::{as_branch, as_compare, contains_value};
use crate::query;
use crate::query::{active_insts, value_available_at_block};
use crate::util;
use crate::util::{defining_inst, first_incoming};
use crate::verify;

verus! {

// ---------------------------------------------------------------------------
// Instructions and blocks
// ---------------------------------------------------------------------------

/// The operation may trap.
pub open spec fn may_trap(op: BinaryOp) -> bool {
    op == BinaryOp::Idiv || op == BinaryOp::Imod || op == BinaryOp::Fdiv
}

/// The operation can be moved and repeated.
pub open spec fn is_movable(kind: KindView, loads: bool) -> bool {
    match kind {
        KindView::Nop => true,
        KindView::Unary { .. } => true,
        KindView::ICompare { .. } => true,
        KindView::FCompare { .. } => true,
        KindView::Cast { .. } => true,
        KindView::Gep { .. } => true,
        KindView::Load { .. } => loads,
        KindView::Binary { op, .. } => !may_trap(op),
        _ => false,
    }
}

fn op_may_trap(op: BinaryOp) -> (r: bool)
    ensures
        r == may_trap(op),
{
    op == BinaryOp::Idiv || op == BinaryOp::Imod || op == BinaryOp::Fdiv
}

fn is_reorderable_pure_kind(kind: &InstKind, loads: bool) -> (r: bool)
    ensures
        r == is_movable(kind@, loads),
{
    match kind {
        InstKind::Nop => true,
        InstKind::Unary { .. } => true,
        InstKind::ICompare { .. } => true,
        InstKind::FCompare { .. } => true,
        InstKind::Cast { .. } => true,
        InstKind::Gep { .. } => true,
        InstKind::Load { .. } => loads,
        InstKind::Binary { op, .. } => !op_may_trap(*op),
        _ => false,
    }
}

/// All instructions of the block can be moved and repeated.
pub open spec fn is_movable_block(f: FuncView, b: BlockId, loads: bool) -> bool {
    forall|i: int| f.has_inst(b, i) ==> is_movable((#[trigger] f.inst(b, i)).kind, loads)
}

#[verifier::loop_isolation(false)]
pub fn is_pure_block(func: &Function, b: BlockId, loads: bool) -> (r: bool)
    requires
        func@.has_block(b),
    ensures
        r == is_movable_block(func@, b, loads),
{
    let ghost f = func@;
    let n = func.blocks[b.0].insts.len();
    for i in 0..n
        invariant
            n == f.block(b).insts.len(),
            forall|j: int| 0 <= j < i ==> is_movable((#[trigger] f.inst(b, j)).kind, loads),
    {
        let inst = &func.blocks[b.0].insts[i];
        assert(inst@ == f.inst(b, i as int));
        if !is_reorderable_pure_kind(&inst.kind, loads) {
            assert(f.has_inst(b, i as int));
            return false;
        }
    }
    true
}

/// The number of instructions of a block that are not empty.
pub open spec fn size_of(f: FuncView, b: BlockId) -> nat {
    query::active(f, b).len()
}

pub fn executable_instruction_count(func: &Function, b: BlockId) -> (r: usize)
    requires
        func@.has_block(b),
    ensures
        r == size_of(func@, b),
{
    active_insts(func, b).len()
}

/// The instruction is a phi or the condition.
pub open spec fn is_header_inst(inst: InstView, cond: ValueId) -> bool {
    match inst.kind {
        KindView::Nop => true,
        KindView::Phi { .. } => true,
        KindView::ICompare { .. } => inst.result == Some(cond),
        _ => false,
    }
}

/// The block holds only phis and the condition of its branch.
pub open spec fn is_plain_header(f: FuncView, b: BlockId) -> bool {
    match patterns::branch_of(f, b) {
        Some((cond, _, _)) => forall|i: int|
            f.has_inst(b, i) ==> is_header_inst(#[trigger] f.inst(b, i), cond),
        None => false,
    }
}

#[verifier::loop_isolation(false)]
pub fn has_only_phi_and_branch_condition(func: &Function, b: BlockId) -> (r: bool)
    requires
        func@.has_block(b),
    ensures
        r == is_plain_header(func@, b),
{
    let ghost f = func@;
    let (cond, t, e) = match as_branch(func, b) {
        Some(x) => x,
        None => return false,
    };
    let n = func.blocks[b.0].insts.len();
    for i in 0..n
        invariant
            n == f.block(b).insts.len(),
            forall|j: int| 0 <= j < i ==> is_header_inst(#[trigger] f.inst(b, j), cond),
    {
        let inst = &func.blocks[b.0].insts[i];
        assert(inst@ == f.inst(b, i as int));
        let fits = match inst.kind {
            InstKind::Nop => true,
            InstKind::Phi { .. } => true,
            InstKind::ICompare { .. } => match inst.result {
                Some(v) => v == cond,
                None => false,
            },
            _ => false,
        };
        if !fits {
            assert(f.has_inst(b, i as int) && !is_header_inst(f.inst(b, i as int), cond));
            return false;
        }
    }
    true
}

/// The stores among the first `n` instructions.
pub open spec fn stores_below(insts: Seq<InstView>, n: int) -> Seq<(ValueId, ValueId)>
    decreases n,
{
    if n <= 0 {
        Seq::empty()
    } else {
        let before = stores_below(insts, n - 1);
        match insts[n - 1].kind {
            KindView::Store { ptr, value } => before.push((ptr, value)),
            _ => before,
        }
    }
}

/// The only store of a block that otherwise only computes.
pub open spec fn only_store(f: FuncView, b: BlockId) -> Option<(ValueId, ValueId)> {
    let insts = f.block(b).insts;
    let stores = stores_below(insts, insts.len() as int);
    if stores.len() == 1 && (forall|i: int|
        f.has_inst(b, i) ==> (#[trigger] f.inst(b, i)).kind is Store || is_movable(
            f.inst(b, i).kind,
            false,
        )) {
        Some(stores[0])
    } else {
        None
    }
}

#[verifier::loop_isolation(false)]
pub fn find_only_store(func: &Function, b: BlockId) -> (r: Option<(ValueId, ValueId)>)
    requires
        func@.wf(),
        func@.has_block(b),
    ensures
        r == only_store(func@, b),
        r matches Some((p, v)) ==> func@.has_value(p) && func@.has_value(v),
{
    let ghost f = func@;
    let ghost insts = f.block(b).insts;
    let n = func.blocks[b.0].insts.len();
    let mut stores: Vec<(ValueId, ValueId)> = Vec::new();
    for i in 0..n
        invariant
            n == insts.len(),
            stores@ == stores_below(insts, i as int),
            forall|k: int|
                0 <= k < stores.len() ==> f.has_value((#[trigger] stores@[k]).0) && f.has_value(
                    stores@[k].1,
                ),
            forall|j: int|
                0 <= j < i ==> (#[trigger] f.inst(b, j)).kind is Store || is_movable(
                    f.inst(b, j).kind,
                    false,
                ),
    {
        let inst = &func.blocks[b.0].insts[i];
        assert(inst@ == f.inst(b, i as int));
        proof {
            query::lemma_inst_wf(f, b, i as int);
        }
        match inst.kind {
            InstKind::Store { ptr, value } => {
                stores.push((ptr, value));
            },
            _ => {
                if !is_reorderable_pure_kind(&inst.kind, false) {
                    assert(f.has_inst(b, i as int));
                    return None;
                }
            },
        }
    }
    if stores.len() == 1 {
        Some(stores[0])
    } else {
        None
    }
}

/// The results of the first `n` instructions.
pub open spec fn results_below(insts: Seq<InstView>, n: int) -> Seq<ValueId>
    decreases n,
{
    if n <= 0 {
        Seq::empty()
    } else {
        let before = results_below(insts, n - 1);
        match insts[n - 1].result {
            Some(r) => before.push(r),
            None => before,
        }
    }
}

/// The results of a block.
pub open spec fn results_of(f: FuncView, b: BlockId) -> Seq<ValueId> {
    results_below(f.block(b).insts, f.block(b).insts.len() as int)
}

pub fn block_results(func: &Function, b: BlockId) -> (r: Vec<ValueId>)
    requires
        func@.has_block(b),
    ensures
        r@ == results_of(func@, b),
{
    let ghost insts = func@.block(b).insts;
    let n = func.blocks[b.0].insts.len();
    let mut r: Vec<ValueId> = Vec::new();
    for i in 0..n
        invariant
            func@.has_block(b),
            insts == func@.block(b).insts,
            n == insts.len(),
            r@ == results_below(insts, i as int),
    {
        assert(func.blocks@[b.0 as int].insts@[i as int]@ == insts[i as int]);
        if let Some(v) = func.blocks[b.0].insts[i].result {
            r.push(v);
        }
    }
    r
}

// ---------------------------------------------------------------------------
// Loops
// ---------------------------------------------------------------------------

/// What a phi with two entries takes from the two blocks.
pub open spec fn pair_of(f: FuncView, phi: ValueId, a: BlockId, b: BlockId) -> Option<
    (ValueId, ValueId),
> {
    match util::def_kind(f, phi) {
        Some(KindView::Phi { incomings }) => if incomings.len() != 2 {
            None
        } else {
            match (util::incoming_from(incomings, a), util::incoming_from(incomings, b)) {
                (Some(x), Some(y)) => Some((x, y)),
                _ => None,
            }
        },
        _ => None,
    }
}

pub fn phi_pair(func: &Function, phi: ValueId, a: BlockId, b: BlockId) -> (r: Option<
    (ValueId, ValueId),
>)
    requires
        func@.wf(),
    ensures
        r == pair_of(func@, phi, a, b),
        r matches Some((x, y)) ==> func@.has_value(x) && func@.has_value(y),
{
    match defining_inst(func, phi) {
        Some(InstKind::Phi { incomings }) => {
            if incomings.len() != 2 {
                return None;
            }
            proof {
                crate::loops::lemma_phi_incoming_wf(func@, phi, a);
                crate::loops::lemma_phi_incoming_wf(func@, phi, b);
            }
            let x = first_incoming(incomings, a)?;
            let y = first_incoming(incomings, b)?;
            Some((x, y))
        },
        _ => None,
    }
}

/// The bound of the test `counter < bound`, or `bound > counter`, in the
/// header of the loop.
pub open spec fn bound_of(f: FuncView, l: LoopView, counter: ValueId) -> Option<ValueId> {
    if !f.has_value(counter) || f.value(counter).ty != Type::I32 {
        None
    } else {
        match patterns::branch_of(f, l.header) {
            Some((cond, t, e)) => if !l.has(t) || l.has(e) {
                None
            } else {
                match patterns::compare_of(f, cond) {
                    Some((op, lhs, rhs)) => {
                        let bound = if op == CompareOp::Lt && lhs == counter && rhs != counter {
                            Some(rhs)
                        } else if op == CompareOp::Gt && lhs != counter && rhs == counter {
                            Some(lhs)
                        } else {
                            None
                        };
                        match bound {
                            Some(v) => if f.value(v).ty == Type::I32 {
                                Some(v)
                            } else {
                                None
                            },
                            None => None,
                        }
                    },
                    None => None,
                }
            },
            None => None,
        }
    }
}

pub fn canonical_less_than_bound(func: &Function, l: &NaturalLoop, counter: ValueId) -> (r: Option<
    ValueId,
>)
    requires
        func@.wf(),
    ensures
        r == bound_of(func@, l@, counter),
        r matches Some(v) ==> func@.has_value(v),
{
    if counter.0 >= func.values.len() {
        return None;
    }
    assert(func.values@[counter.0 as int]@ == func@.value(counter));
    if !func.values[counter.0].ty.same(&Type::I32) {
        return None;
    }
    let (cond, t, e) = as_branch(func, l.header)?;
    if !l.contains(t) || l.contains(e) {
        return None;
    }
    let (op, lhs, rhs) = as_compare(func, cond)?;
    proof {
        crate::loops::lemma_def_kind_wf(func@, cond);
    }
    let bound = if op == CompareOp::Lt && lhs == counter && rhs != counter {
        rhs
    } else if op == CompareOp::Gt && lhs != counter && rhs == counter {
        lhs
    } else {
        return None;
    };
    assert(func.values@[bound.0 as int]@ == func@.value(bound));
    if func.values[bound.0].ty.same(&Type::I32) {
        Some(bound)
    } else {
        None
    }
}

/// The target of the header's branch that lies in the loop.
pub open spec fn inside_of(f: FuncView, l: LoopView) -> Option<BlockId> {
    match patterns::branch_of(f, l.header) {
        Some((_, t, e)) => if l.has(t) && !l.has(e) {
            Some(t)
        } else if !l.has(t) && l.has(e) {
            Some(e)
        } else {
            None
        },
        None => None,
    }
}

pub fn loop_inside_target(func: &Function, l: &NaturalLoop) -> (r: Option<BlockId>)
    ensures
        r == inside_of(func@, l@),
{
    let (_, t, e) = as_branch(func, l.header)?;
    if l.contains(t) && !l.contains(e) {
        Some(t)
    } else if !l.contains(t) && l.contains(e) {
        Some(e)
    } else {
        None
    }
}

// ---------------------------------------------------------------------------
// Values
// ---------------------------------------------------------------------------

/// The value can be had in the copy: it is the counter, known before, or
/// computed in one of the blocks that are copied.
pub open spec fn is_mappable(
    f: FuncView,
    v: ValueId,
    preheader: BlockId,
    counter: ValueId,
    blocks: Seq<BlockId>,
) -> bool {
    v == counter || query::available_at(f, v, preheader) || patterns::defined_in(f, v, blocks)
}

pub fn value_mappable(
    func: &Function,
    dom: &Dominators,
    v: ValueId,
    preheader: BlockId,
    counter: ValueId,
    blocks: &Vec<BlockId>,
) -> (r: bool)
    requires
        func@.wf(),
        dom.of(func@),
        func@.has_value(v),
        func@.has_block(preheader),
    ensures
        r == is_mappable(func@, v, preheader, counter, blocks@),
{
    v == counter || value_available_at_block(func, dom, v, preheader) || patterns::is_defined_in(
        func,
        v,
        blocks,
    )
}

/// An instruction of the block before place `i` defines the value.
pub open spec fn defined_before(f: FuncView, b: BlockId, i: int, v: ValueId) -> bool {
    exists|j: int| 0 <= j < i && (#[trigger] f.inst(b, j)).result == Some(v)
}

/// The operand can be had in the copy of the block.
pub open spec fn operand_fits(
    f: FuncView,
    b: BlockId,
    i: int,
    v: ValueId,
    preheader: BlockId,
    mapped: Seq<ValueId>,
) -> bool {
    mapped.contains(v) || defined_before(f, b, i, v) || query::available_at(f, v, preheader)
}

/// The operands of the instruction can be had in the copy of the block.
pub open spec fn inst_fits(
    f: FuncView,
    b: BlockId,
    i: int,
    preheader: BlockId,
    mapped: Seq<ValueId>,
) -> bool {
    let list = edit::operands(f.inst(b, i).kind);
    forall|k: int|
        0 <= k < list.len() ==> operand_fits(f, b, i, #[trigger] list[k], preheader, mapped)
}

/// The block can be copied with the mapped values.
pub open spec fn is_cloneable(
    f: FuncView,
    b: BlockId,
    preheader: BlockId,
    mapped: Seq<ValueId>,
    skip_store: bool,
) -> bool {
    forall|i: int|
        f.has_inst(b, i) && !(skip_store && f.inst(b, i).kind is Store) ==> #[trigger] inst_fits(
            f,
            b,
            i,
            preheader,
            mapped,
        )
}

#[verifier::loop_isolation(false)]
fn block_defines_before(func: &Function, b: BlockId, i: usize, v: ValueId) -> (r: bool)
    requires
        func@.has_block(b),
        i <= func@.block(b).insts.len(),
    ensures
        r == defined_before(func@, b, i as int, v),
{
    let ghost f = func@;
    for j in 0..i
        invariant
            forall|k: int| 0 <= k < j ==> (#[trigger] f.inst(b, k)).result != Some(v),
    {
        assert(func.blocks@[b.0 as int].insts@[j as int]@ == f.inst(b, j as int));
        if let Some(r) = func.blocks[b.0].insts[j].result {
            if r == v {
                return true;
            }
        }
    }
    false
}

#[verifier::loop_isolation(false)]
pub fn block_operands_cloneable(
    func: &Function,
    dom: &Dominators,
    b: BlockId,
    preheader: BlockId,
    mapped: &Vec<ValueId>,
    skip_store: bool,
) -> (r: bool)
    requires
        func@.wf(),
        dom.of(func@),
        func@.has_block(b),
        func@.has_block(preheader),
    ensures
        r == is_cloneable(func@, b, preheader, mapped@, skip_store),
{
    let ghost f = func@;
    let n = func.blocks[b.0].insts.len();
    for i in 0..n
        invariant
            n == f.block(b).insts.len(),
            forall|j: int|
                0 <= j < i && !(skip_store && f.inst(b, j).kind is Store) ==> #[trigger] inst_fits(
                    f,
                    b,
                    j,
                    preheader,
                    mapped@,
                ),
    {
        let inst = &func.blocks[b.0].insts[i];
        assert(inst@ == f.inst(b, i as int));
        proof {
            query::lemma_inst_wf(f, b, i as int);
            verify::lemma_kind_wf_operands(inst@.kind, f.blocks.len(), f.values.len());
        }
        let is_store = match inst.kind {
            InstKind::Store { .. } => true,
            _ => false,
        };
        if !(skip_store && is_store) {
            let list = inst_operands(&inst.kind);
            let m = list.len();
            for k in 0..m
                invariant
                    m == list.len(),
                    list@ == edit::operands(f.inst(b, i as int).kind),
                    edit::reads_wf(list@, f.values.len()),
                    forall|j: int|
                        0 <= j < k ==> operand_fits(
                            f,
                            b,
                            i as int,
                            #[trigger] list@[j],
                            preheader,
                            mapped@,
                        ),
            {
                let v = list[k];
                assert(list@[k as int].0 < f.values.len());
                if !contains_value(mapped, v) && !block_defines_before(func, b, i, v)
                    && !value_available_at_block(func, dom, v, preheader) {
                    assert(!operand_fits(
                        f,
                        b,
                        i as int,
                        edit::operands(f.inst(b, i as int).kind)[k as int],
                        preheader,
                        mapped@,
                    ));
                    assert(f.has_inst(b, i as int));
                    assert(!inst_fits(f, b, i as int, preheader, mapped@));
                    return false;
                }
            }
            assert(inst_fits(f, b, i as int, preheader, mapped@));
        }
    }
    true
}

/// The instruction reads a marked value other than by storing the accumulator
/// in the exit.
pub open spec fn leaks(
    marks: Seq<bool>,
    inst: InstView,
    at_exit: bool,
    accumulator: ValueId,
) -> bool {
    flow::some_marked(marks, edit::operands(inst.kind)) && !(at_exit && match inst.kind {
        KindView::Store { ptr, value } => value == accumulator && !flow::marked(marks, ptr)
            && flow::marked(marks, value),
        _ => false,
    })
}

/// Nothing of the loop is read outside it but the accumulator, which the exit
/// stores.
pub open spec fn has_no_live_outs(
    f: FuncView,
    l: LoopView,
    accumulator: ValueId,
    exit: BlockId,
) -> bool {
    let marks = flow::defined_marks(f, l.blocks);
    &&& forall|b: BlockId, i: int|
        !l.has(b) && f.has_inst(b, i) ==> !leaks(
            marks,
            #[trigger] f.inst(b, i),
            b == exit,
            accumulator,
        )
    &&& forall|b: BlockId|
        !l.has(b) && f.has_block(b) ==> !flow::some_marked(
            marks,
            edit::terminator_reads(#[trigger] f.terminator(b)),
        )
}

fn inst_leaks(marks: &Vec<bool>, inst: &Inst, at_exit: bool, accumulator: ValueId) -> (r: bool)
    requires
        edit::reads_wf(edit::operands(inst@.kind), marks.len() as nat),
    ensures
        r == leaks(marks@, inst@, at_exit, accumulator),
{
    let list = inst_operands(&inst.kind);
    if !any_marked(marks, &list) {
        return false;
    }
    if !at_exit {
        return true;
    }
    match inst.kind {
        InstKind::Store { ptr, value } => !(value == accumulator && !is_marked(marks, ptr)
            && is_marked(marks, value)),
        _ => true,
    }
}

#[verifier::loop_isolation(false)]
pub fn inner_results_have_no_extra_liveouts(
    func: &Function,
    l: &NaturalLoop,
    accumulator: ValueId,
    exit: BlockId,
) -> (r: bool)
    requires
        func@.wf(),
        l@.within(func@.blocks.len()),
    ensures
        r == has_no_live_outs(func@, l@, accumulator, exit),
{
    let ghost f = func@;
    assert forall|k: int| 0 <= k < l.blocks.len() implies f.has_block(#[trigger] l.blocks@[k]) by {
        assert(l@.blocks[k].0 < f.blocks.len());
    }
    let marks = mark_defined(func, &l.blocks);
    let n = func.blocks.len();
    for x in 0..n
        invariant
            n == f.blocks.len(),
            forall|b: BlockId, i: int|
                b.0 < x && !l@.has(b) && f.has_inst(b, i) ==> !leaks(
                    marks@,
                    #[trigger] f.inst(b, i),
                    b == exit,
                    accumulator,
                ),
            forall|b: BlockId|
                b.0 < x && !l@.has(b) ==> !flow::some_marked(
                    marks@,
                    edit::terminator_reads(#[trigger] f.terminator(b)),
                ),
    {
        let b = BlockId(x);
        assert(f.has_block(b));
        if !l.contains(b) {
            let m = func.blocks[x].insts.len();
            for i in 0..m
                invariant
                    m == f.block(b).insts.len(),
                    forall|j: int|
                        0 <= j < i ==> !leaks(
                            marks@,
                            #[trigger] f.inst(b, j),
                            b == exit,
                            accumulator,
                        ),
            {
                let inst = &func.blocks[x].insts[i];
                assert(inst@ == f.inst(b, i as int));
                proof {
                    query::lemma_inst_wf(f, b, i as int);
                    verify::lemma_kind_wf_operands(inst@.kind, f.blocks.len(), f.values.len());
                }
                if inst_leaks(&marks, inst, b == exit, accumulator) {
                    assert(f.has_inst(b, i as int));
                    return false;
                }
            }
            proof {
                query::lemma_terminator_wf(f, b);
            }
            let list = edit::terminator_operands(&func.blocks[x].terminator);
            if any_marked(&marks, &list) {
                assert(flow::some_marked(marks@, edit::terminator_reads(f.terminator(b))));
                return false;
            }
        }
    }
    true
}

/// The rest of a merge, from place `k` on, that selects the accumulator and
/// steps the counter, each once.
pub open spec fn is_merge_from(
    insts: Seq<InstView>,
    selector: ValueId,
    next: ValueId,
    selected: bool,
    stepped: bool,
    k: int,
) -> bool
    decreases insts.len() - k,
{
    if k < 0 || k >= insts.len() {
        selected && stepped
    } else {
        match insts[k].kind {
            KindView::Nop => is_merge_from(insts, selector, next, selected, stepped, k + 1),
            KindView::Phi { .. } => insts[k].result == Some(selector) && !selected
                && is_merge_from(insts, selector, next, true, stepped, k + 1),
            KindView::Binary { op, .. } => insts[k].result == Some(next) && !stepped && !may_trap(
                op,
            ) && is_merge_from(insts, selector, next, selected, true, k + 1),
            _ => false,
        }
    }
}

#[verifier::loop_isolation(false)]
pub fn has_exact_conditional_merge(func: &Function, b: BlockId, selector: ValueId, next: ValueId) -> (r:
    bool)
    requires
        func@.has_block(b),
    ensures
        r == is_merge_from(func@.block(b).insts, selector, next, false, false, 0),
{
    let ghost insts = func@.block(b).insts;
    let n = func.blocks[b.0].insts.len();
    let mut selected = false;
    let mut stepped = false;
    for k in 0..n
        invariant
            n == insts.len(),
            is_merge_from(insts, selector, next, false, false, 0) == is_merge_from(
                insts,
                selector,
                next,
                selected,
                stepped,
                k as int,
            ),
    {
        let inst = &func.blocks[b.0].insts[k];
        assert(inst@ == insts[k as int]);
        let own = match inst.result {
            Some(v) => v,
            None => match inst.kind {
                InstKind::Nop => selector,
                _ => return false,
            },
        };
        match inst.kind {
            InstKind::Nop => {},
            InstKind::Phi { .. } => {
                if own != selector || selected {
                    return false;
                }
                selected = true;
            },
            InstKind::Binary { op, .. } => {
                if own != next || stepped || op_may_trap(op) {
                    return false;
                }
                stepped = true;
            },
            _ => return false,
        }
    }
    selected && stepped
}

} // verus!
