//! Functions that compute the dot product of two arrays.
use vstd::prelude::*;

use crate::cfg::{ControlFlowGraph, Dominators};
use crate::ir::{
    BinaryOp, BlockId, CompareOp, Const, FuncView, Function, InstKind, KindView, Terminator, Type,
    ValueId, ValueKind, ValueKindView,
};
use crate::loops;
use crate::loops::{analyze_i32_induction, InductionVariable, LoopInfo, LoopView, NaturalLoop};
use crate::patterns;
use crate::patterns::{as_binary, as_branch, as_compare, as_load, collect_phi_results};
use crate::query;
use crate::query::{has_type, jump_target};
use crate::util;
use crate::util::{defining_inst, first_incoming};
use crate::verify;

verus! {

// ---------------------------------------------------------------------------
// Mathematical model
// ---------------------------------------------------------------------------

/// The value is the integer zero.
pub open spec fn is_zero(f: FuncView, v: ValueId) -> bool {
    f.value(v).kind == ValueKindView::Const(Const::Int(0)) || f.value(v).kind
        == ValueKindView::Const(Const::Zero(Type::I32))
}

/// What the header of a loop compares its counter with: the loop goes on while
/// the counter is less.
pub open spec fn bound_of(f: FuncView, l: LoopView, counter: ValueId) -> Option<ValueId> {
    match patterns::branch_of(f, l.header) {
        Some((cond, t, e)) => if l.has(t) && !l.has(e) {
            match patterns::compare_of(f, cond) {
                Some((op, lhs, rhs)) => if op is Lt && lhs == counter {
                    Some(rhs)
                } else {
                    None
                },
                None => None,
            }
        } else {
            None
        },
        None => None,
    }
}

/// The first counter among the phis, from place `k` on.
pub open spec fn counter_from(f: FuncView, l: LoopView, phis: Seq<ValueId>, k: int) -> Option<
    InductionVariable,
>
    decreases phis.len() - k,
{
    if k < 0 || k >= phis.len() {
        None
    } else {
        match loops::induction_of(f, l, phis[k]) {
            Some(iv) => Some(iv),
            None => counter_from(f, l, phis, k + 1),
        }
    }
}

/// The counter of a loop, if it counts up from zero by one.
pub open spec fn counter_of(f: FuncView, l: LoopView) -> Option<InductionVariable> {
    match counter_from(f, l, patterns::phi_results(f, l.header), 0) {
        Some(iv) => if iv.step == 1 && is_zero(f, iv.initial) {
            Some(iv)
        } else {
            None
        },
        None => None,
    }
}

/// The address is that of the element of an array at the counter.
pub open spec fn is_element(f: FuncView, ptr: ValueId, base: ValueId, counter: ValueId) -> bool {
    util::def_kind(f, ptr) == Some(KindView::Gep { base, indices: seq![counter] })
}

/// The value is loaded from the element of an array at the counter.
pub open spec fn is_loaded(f: FuncView, v: ValueId, base: ValueId, counter: ValueId) -> bool {
    match patterns::load_of(f, v) {
        Some(ptr) => is_element(f, ptr, base, counter),
        None => false,
    }
}

/// The first float among the phis other than the counter, from place `k` on.
pub open spec fn accumulator_from(f: FuncView, phis: Seq<ValueId>, counter: ValueId, k: int) -> Option<
    ValueId,
>
    decreases phis.len() - k,
{
    if k < 0 || k >= phis.len() {
        None
    } else if phis[k] != counter && f.value(phis[k]).ty == Type::F32 {
        Some(phis[k])
    } else {
        accumulator_from(f, phis, counter, k + 1)
    }
}

/// What a phi of two entries takes from the two blocks.
pub open spec fn pair_of(f: FuncView, phi: ValueId, first: BlockId, second: BlockId) -> Option<
    (ValueId, ValueId),
> {
    match util::def_kind(f, phi) {
        Some(KindView::Phi { incomings }) => if incomings.len() == 2 {
            match (util::incoming_from(incomings, first), util::incoming_from(incomings, second)) {
                (Some(a), Some(b)) => Some((a, b)),
                _ => None,
            }
        } else {
            None
        },
        _ => None,
    }
}

/// The constant that a float is.
pub open spec fn float_of(f: FuncView, v: ValueId) -> Option<Const> {
    match f.value(v).kind {
        ValueKindView::Const(c) => match c {
            Const::Float(_) => Some(c),
            Const::Zero(ty) => if ty == Type::F32 {
                Some(c)
            } else {
                None
            },
            _ => None,
        },
        _ => None,
    }
}

/// The value is the accumulator plus the product of the elements.
pub open spec fn is_step(
    f: FuncView,
    next: ValueId,
    accumulator: ValueId,
    lhs: ValueId,
    rhs: ValueId,
    counter: ValueId,
) -> bool {
    match patterns::binary_of(f, next) {
        Some((op, before, product)) => op is Fadd && before == accumulator
            && match patterns::binary_of(f, product) {
            Some((op, a, b)) => op is Fmul && is_loaded(f, a, lhs, counter) && is_loaded(
                f,
                b,
                rhs,
                counter,
            ),
            None => false,
        },
        None => false,
    }
}

/// The instruction is one of a dot product.
pub open spec fn is_expected(kind: KindView) -> bool {
    match kind {
        KindView::Nop => true,
        KindView::Phi { .. } => true,
        KindView::Load { .. } => true,
        KindView::Gep { .. } => true,
        KindView::Binary { op, .. } => op is Iadd || op is Fmul || op is Fadd,
        KindView::ICompare { .. } => true,
        _ => false,
    }
}

/// The function holds nothing but the instructions of a dot product.
pub open spec fn all_expected(f: FuncView) -> bool {
    forall|b: BlockId, i: int|
        f.has_inst(b, i) ==> is_expected((#[trigger] f.inst(b, i)).kind)
}

/// The loop has a header and a body, is entered from the entry, and left by one
/// edge.
pub open spec fn is_entry_loop(f: FuncView, l: LoopView) -> bool {
    l.dedicated_preheader == Some(f.entry) && l.blocks.len() == 2 && l.exit_edges.len() == 1
}

pub open spec fn loop_from(f: FuncView, list: Seq<LoopView>, k: int) -> Option<LoopView>
    decreases list.len() - k,
{
    if k < 0 || k >= list.len() {
        None
    } else if is_entry_loop(f, list[k]) {
        Some(list[k])
    } else {
        loop_from(f, list, k + 1)
    }
}

/// The value that a block returns.
pub open spec fn returned_by(f: FuncView, b: BlockId) -> Option<ValueId> {
    match f.terminator(b) {
        Some(Terminator::Return(v)) => v,
        _ => None,
    }
}

/// The loop as one that computes the dot product of the first two arguments: what
/// the sum starts at.
pub open spec fn dot_in(f: FuncView, l: LoopView) -> Option<Const> {
    match (l.unique_latch(), l.unique_exit()) {
        (Some(latch), Some(exit)) => if l.exit_edges == seq![(l.header, exit)] && query::jump_of(
            f,
            latch,
        ) == Some(l.header) && patterns::phi_results(f, l.header).len() == 2 {
            let phis = patterns::phi_results(f, l.header);
            match counter_of(f, l) {
                Some(iv) => match accumulator_from(f, phis, iv.phi, 0) {
                    Some(accumulator) => match pair_of(f, accumulator, f.entry, latch) {
                        Some((first, next)) => if returned_by(f, exit) == Some(accumulator)
                            && bound_of(f, l, iv.phi) == Some(f.params[2]) && is_step(
                            f,
                            next,
                            accumulator,
                            f.params[0],
                            f.params[1],
                            iv.phi,
                        ) && all_expected(f) {
                            float_of(f, first)
                        } else {
                            None
                        },
                        None => None,
                    },
                    None => None,
                },
                None => None,
            }
        } else {
            None
        },
        _ => None,
    }
}

/// The function returns a float and takes two arrays of floats and a length.
pub open spec fn has_dot_signature(f: FuncView) -> bool {
    &&& f.ret == Type::F32
    &&& f.params.len() == 3
    &&& f.value(f.params[0]).ty == Type::Ptr(Box::new(Type::F32))
    &&& f.value(f.params[1]).ty == Type::Ptr(Box::new(Type::F32))
    &&& f.value(f.params[2]).ty == Type::I32
}

/// The function computes the dot product of its first two arguments: what the sum
/// starts at.
pub open spec fn dot_of(f: FuncView) -> Option<Const> {
    if has_dot_signature(f) && verify::valid(f) {
        match loop_from(f, loops::loops_of(f), 0) {
            Some(l) => dot_in(f, l),
            None => None,
        }
    } else {
        None
    }
}

// ---------------------------------------------------------------------------
// Executable functions
// ---------------------------------------------------------------------------

fn zero(func: &Function, v: ValueId) -> (r: bool)
    requires
        func@.has_value(v),
    ensures
        r == is_zero(func@, v),
{
    assert(func.values@[v.0 as int]@ == func@.value(v));
    match &func.values[v.0].kind {
        ValueKind::Const(Const::Int(i)) => *i == 0,
        ValueKind::Const(Const::Zero(ty)) => ty.same(&Type::I32),
        _ => false,
    }
}

pub fn canonical_bound(func: &Function, l: &NaturalLoop, counter: ValueId) -> (r: Option<ValueId>)
    ensures
        r == bound_of(func@, l@, counter),
{
    let (cond, t, e) = as_branch(func, l.header)?;
    if !l.contains(t) || l.contains(e) {
        return None;
    }
    let (op, lhs, rhs) = as_compare(func, cond)?;
    match op {
        CompareOp::Lt => if lhs == counter {
            Some(rhs)
        } else {
            None
        },
        _ => None,
    }
}

pub fn header_induction(func: &Function, l: &NaturalLoop) -> (r: Option<InductionVariable>)
    requires
        func@.wf(),
        func@.has_block(l.header),
    ensures
        r == counter_of(func@, l@),
{
    let ghost f = func@;
    let phis = collect_phi_results(func, l.header);
    let n = phis.len();
    for k in 0..n
        invariant
            func@ == f,
            f.wf(),
            n == phis.len(),
            phis@ == patterns::phi_results(f, l@.header),
            counter_from(f, l@, phis@, 0) == counter_from(f, l@, phis@, k as int),
    {
        if let Some(iv) = analyze_i32_induction(func, l, phis[k]) {
            proof {
                loops::lemma_induction_wf(f, l@, phis@[k as int]);
            }
            if iv.step == 1 && zero(func, iv.initial) {
                return Some(iv);
            } else {
                return None;
            }
        }
    }
    None
}

pub fn element(func: &Function, ptr: ValueId, base: ValueId, counter: ValueId) -> (r: bool)
    ensures
        r == is_element(func@, ptr, base, counter),
{
    match defining_inst(func, ptr) {
        Some(InstKind::Gep { base: b, indices }) => {
            if *b == base && indices.len() == 1 && indices[0] == counter {
                assert(indices@ =~= seq![counter]);
                true
            } else {
                assert(seq![counter].len() == 1 && seq![counter][0] == counter);
                false
            }
        },
        _ => false,
    }
}

fn is_indexed_load(func: &Function, v: ValueId, base: ValueId, counter: ValueId) -> (r: bool)
    ensures
        r == is_loaded(func@, v, base, counter),
{
    match as_load(func, v) {
        Some(ptr) => element(func, ptr, base, counter),
        None => false,
    }
}

fn find_accumulator(func: &Function, phis: &Vec<ValueId>, counter: ValueId) -> (r: Option<ValueId>)
    requires
        crate::edit::reads_wf(phis@, func@.values.len()),
    ensures
        r == accumulator_from(func@, phis@, counter, 0),
{
    let n = phis.len();
    for k in 0..n
        invariant
            n == phis.len(),
            crate::edit::reads_wf(phis@, func@.values.len()),
            accumulator_from(func@, phis@, counter, 0) == accumulator_from(
                func@,
                phis@,
                counter,
                k as int,
            ),
    {
        assert(phis@[k as int].0 < func@.values.len());
        if phis[k] != counter && has_type(func, phis[k], &Type::F32) {
            return Some(phis[k]);
        }
    }
    None
}

fn phi_incomings(func: &Function, phi: ValueId, first: BlockId, second: BlockId) -> (r: Option<
    (ValueId, ValueId),
>)
    requires
        func@.wf(),
    ensures
        r == pair_of(func@, phi, first, second),
        r matches Some((a, _)) ==> func@.has_value(a),
{
    match defining_inst(func, phi) {
        Some(InstKind::Phi { incomings }) => {
            if incomings.len() != 2 {
                return None;
            }
            let a = first_incoming(incomings, first)?;
            let b = first_incoming(incomings, second)?;
            proof {
                loops::lemma_def_kind_wf(func@, phi);
                loops::lemma_incoming_in_range(
                    incomings@,
                    first,
                    func@.blocks.len(),
                    func@.values.len(),
                );
            }
            Some((a, b))
        },
        _ => None,
    }
}

fn float_constant(func: &Function, v: ValueId) -> (r: Option<Const>)
    requires
        func@.has_value(v),
    ensures
        r == float_of(func@, v),
{
    assert(func.values@[v.0 as int]@ == func@.value(v));
    match &func.values[v.0].kind {
        ValueKind::Const(c) => match c {
            Const::Float(_) => Some(c.clone()),
            Const::Zero(ty) => if ty.same(&Type::F32) {
                Some(c.clone())
            } else {
                None
            },
            _ => None,
        },
        _ => None,
    }
}

fn check_step(
    func: &Function,
    next: ValueId,
    accumulator: ValueId,
    lhs: ValueId,
    rhs: ValueId,
    counter: ValueId,
) -> (r: bool)
    ensures
        r == is_step(func@, next, accumulator, lhs, rhs, counter),
{
    match as_binary(func, next) {
        Some((BinaryOp::Fadd, before, product)) => before == accumulator && match as_binary(
            func,
            product,
        ) {
            Some((BinaryOp::Fmul, a, b)) => is_indexed_load(func, a, lhs, counter)
                && is_indexed_load(func, b, rhs, counter),
            _ => false,
        },
        _ => false,
    }
}

fn expected(kind: &InstKind) -> (r: bool)
    ensures
        r == is_expected(kind@),
{
    match kind {
        InstKind::Nop => true,
        InstKind::Phi { .. } => true,
        InstKind::Load { .. } => true,
        InstKind::Gep { .. } => true,
        InstKind::Binary { op, .. } => match op {
            BinaryOp::Iadd => true,
            BinaryOp::Fmul => true,
            BinaryOp::Fadd => true,
            _ => false,
        },
        InstKind::ICompare { .. } => true,
        _ => false,
    }
}

fn consumer_has_only_expected_effects(func: &Function) -> (r: bool)
    ensures
        r == all_expected(func@),
{
    let ghost f = func@;
    let n = func.blocks.len();
    for k in 0..n
        invariant
            func@ == f,
            n == f.blocks.len(),
            n == func.blocks.len(),
            forall|b: BlockId, j: int|
                b.0 < k && f.has_inst(b, j) ==> is_expected((#[trigger] f.inst(b, j)).kind),
    {
        let b = BlockId(k);
        let count = func.blocks[k].insts.len();
        assert(func.blocks@[k as int]@ == f.blocks[k as int]);
        for i in 0..count
            invariant
                func@ == f,
                b == BlockId(k),
                k < func.blocks.len(),
                f.has_block(b),
                count == f.block(b).insts.len(),
                count == func.blocks@[k as int].insts.len(),
                forall|j: int| 0 <= j < i ==> is_expected((#[trigger] f.inst(b, j)).kind),
        {
            let inst = &func.blocks[k].insts[i];
            assert(inst@ == f.inst(b, i as int));
            if !expected(&inst.kind) {
                assert(f.has_inst(b, i as int));
                return false;
            }
        }
    }
    true
}

fn find_returned(func: &Function, b: BlockId) -> (r: Option<ValueId>)
    requires
        func@.has_block(b),
    ensures
        r == returned_by(func@, b),
{
    assert(func.blocks@[b.0 as int]@ == func@.block(b));
    match func.blocks[b.0].terminator {
        Some(Terminator::Return(v)) => v,
        _ => None,
    }
}

fn match_dot(func: &Function, l: &NaturalLoop) -> (r: Option<Const>)
    requires
        func@.wf(),
        func@.params.len() == 3,
        l@.within(func@.blocks.len()),
    ensures
        r == dot_in(func@, l@),
{
    let ghost f = func@;
    let latch = l.unique_latch()?;
    let exit = l.unique_exit()?;
    assert(l@.latches[0].0 < f.blocks.len());
    assert(l@.exit_edges[0].1.0 < f.blocks.len());
    if !l.exits_only_by(l.header, exit) {
        return None;
    }
    let target = jump_target(func, latch)?;
    if target != l.header {
        return None;
    }
    let phis = collect_phi_results(func, l.header);
    if phis.len() != 2 {
        return None;
    }
    let iv = header_induction(func, l)?;
    let accumulator = find_accumulator(func, &phis, iv.phi)?;
    let (first, next) = phi_incomings(func, accumulator, func.entry, latch)?;
    let returned = find_returned(func, exit)?;
    let bound = canonical_bound(func, l, iv.phi)?;
    if returned == accumulator && bound == func.params[2] && check_step(
        func,
        next,
        accumulator,
        func.params[0],
        func.params[1],
        iv.phi,
    ) && consumer_has_only_expected_effects(func) {
        float_constant(func, first)
    } else {
        None
    }
}

fn has_signature(func: &Function) -> (r: bool)
    requires
        func@.wf(),
    ensures
        r == has_dot_signature(func@),
{
    match func.ret {
        Type::F32 => {},
        _ => return false,
    }
    if func.params.len() != 3 {
        return false;
    }
    let ghost f = func@;
    assert(f.params[0].0 < f.values.len());
    assert(f.params[1].0 < f.values.len());
    assert(f.params[2].0 < f.values.len());
    let array = Type::Ptr(Box::new(Type::F32));
    has_type(func, func.params[0], &array) && has_type(func, func.params[1], &array) && has_type(
        func,
        func.params[2],
        &Type::I32,
    )
}

/// What the dot product starts at that a function computes.
pub fn analyze_dot_consumer(func: &Function) -> (r: Option<Const>)
    requires
        func@.wf(),
    ensures
        r == dot_of(func@),
{
    let ghost f = func@;
    if !has_signature(func) || func.verify().is_err() {
        return None;
    }
    let graph = ControlFlowGraph::new(func);
    let dom = Dominators::new(func, &graph);
    let info = LoopInfo::new(func, &graph, &dom);
    let list = info.loops();
    let ghost views = loops::loops_of(f);
    let n = list.len();
    assert(views.len() == n);
    for k in 0..n
        invariant
            func@ == f,
            f.wf(),
            f.params.len() == 3,
            n == list.len(),
            views == loops::loops_of(f),
            views == loops::loops_view(list@),
            views.len() == n,
            has_dot_signature(f),
            verify::valid(f),
            loop_from(f, views, 0) == loop_from(f, views, k as int),
    {
        assert(views[k as int] == list@[k as int]@);
        assert(func.blocks.len() == f.blocks.len());
        proof {
            loops::lemma_listed_loop(f, k as int);
        }
        let l = &list[k];
        if l.dedicated_preheader == Some(func.entry) && l.blocks.len() == 2
            && l.exit_edges.len() == 1 {
            return match_dot(func, l);
        }
    }
    None
}

} // verus!
