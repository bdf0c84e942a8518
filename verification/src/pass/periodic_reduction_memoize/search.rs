//! The search for reductions that run with one of two states.
use vstd::prelude::*;

use crate::cfg::{ControlFlowGraph, Dominators};
use crate::edit;
use crate::edit::{inst_operands, terminator_operands};
use crate::flow;
use crate::flow::mark_read;
use crate::ir::{
    BinaryOp, BlockId, CompareOp, Const, Function, Inst, InstKind, Type, ValueId, ValueKind,
    ValueKindView,
};
use crate::loops;
use crate::loops::{
    analyze_i32_induction, order_by_size, smallest_enclosing, InductionVariable, LoopInfo,
    NaturalLoop,
};
use crate::pass::periodic_reduction_memoize::recognize;
use crate::pass::periodic_reduction_memoize::recognize::{Candidate, MAX_BLOCKS, MAX_VALUES};
use crate::patterns;
use crate::patterns::{as_branch, collect_phi_results, contains_value, is_defined_in};
use crate::query;
use crate::query::{jump_target, unique_incoming};
use crate::util;
use crate::util::{const_i32, defining_block, defining_inst};

verus! {

fn has_two_blocks(func: &Function, l: &NaturalLoop, body: BlockId, exit: BlockId) -> (r: bool)
    requires
        func@.has_block(body),
    ensures
        r == recognize::is_two_blocks(func@, l@, body, exit),
{
    if !l.contains(l.header) || !l.contains(body) {
        assert(!l@.has(l@.header) || !l@.has(body));
        return false;
    }
    let n = l.blocks.len();
    for k in 0..n
        invariant
            n == l.blocks.len(),
            forall|j: int| 0 <= j < k ==> #[trigger] l@.blocks[j] == l.header || l@.blocks[j] == body,
    {
        if l.blocks[k] != l.header && l.blocks[k] != body {
            assert(l@.has(l@.blocks[k as int]));
            return false;
        }
    }
    if !l.exits_only_by(l.header, exit) {
        return false;
    }
    match jump_target(func, body) {
        Some(t) => t == l.header,
        None => false,
    }
}

fn inst_is_pure(inst: &Inst) -> (r: bool)
    ensures
        r == recognize::is_pure(inst@),
{
    match inst.kind {
        InstKind::Nop => true,
        InstKind::Phi { .. } => true,
        InstKind::Unary { .. } => true,
        InstKind::Binary { .. } => true,
        InstKind::ICompare { .. } => true,
        InstKind::FCompare { .. } => true,
        InstKind::Cast { .. } => true,
        InstKind::Gep { .. } => true,
        _ => false,
    }
}

#[verifier::loop_isolation(false)]
fn pure_inner_loop(func: &Function, l: &NaturalLoop) -> (r: bool)
    requires
        l@.within(func@.blocks.len()),
    ensures
        r == recognize::is_pure_loop(func@, l@),
{
    let ghost f = func@;
    let n = l.blocks.len();
    for x in 0..n
        invariant
            forall|j: int, i: int|
                0 <= j < x && f.has_inst(l@.blocks[j], i) ==> recognize::is_pure(
                    #[trigger] f.inst(l@.blocks[j], i),
                ),
    {
        let b = l.blocks[x];
        assert(l@.blocks[x as int].0 < f.blocks.len());
        let m = func.blocks[b.0].insts.len();
        for i in 0..m
            invariant
                m == f.block(b).insts.len(),
                forall|j: int| 0 <= j < i ==> recognize::is_pure(#[trigger] f.inst(b, j)),
        {
            let inst = &func.blocks[b.0].insts[i];
            assert(inst@ == f.inst(b, i as int));
            if !inst_is_pure(inst) {
                assert(l@.has(b));
                assert(!recognize::is_pure(f.inst(b, i as int)));
                return false;
            }
        }
    }
    assert forall|b: BlockId, i: int| l@.has(b) && f.has_inst(b, i) implies recognize::is_pure(
        #[trigger] f.inst(b, i),
    ) by {
        let j = choose|j: int| 0 <= j < l@.blocks.len() && l@.blocks[j] == b;
        assert(recognize::is_pure(f.inst(l@.blocks[j], i)));
    }
    true
}

#[verifier::loop_isolation(false)]
fn float_accumulator(func: &Function, l: &NaturalLoop) -> (r: Option<(ValueId, ValueId)>)
    requires
        func@.wf(),
        func@.has_block(l.header),
    ensures
        r == recognize::accumulator_of(func@, l@),
        r matches Some((v, _)) ==> func@.has_value(v),
{
    let ghost f = func@;
    let entering = l.unique_entering_pred?;
    let latch = l.unique_latch()?;
    let ghost insts = f.block(l.header).insts;
    let n = func.blocks[l.header.0].insts.len();
    let mut found: Option<(ValueId, ValueId)> = None;
    assert(func.values.len() == f.values.len());
    for k in 0..n
        invariant
            n == insts.len(),
            found matches Some((v, _)) ==> f.has_value(v),
            recognize::accumulator_of(f, l@) == recognize::float_phi_from(
                f,
                insts,
                entering,
                latch,
                found,
                k as int,
            ),
    {
        let inst = &func.blocks[l.header.0].insts[k];
        assert(inst@ == f.inst(l.header, k as int));
        proof {
            query::lemma_inst_wf(f, l.header, k as int);
        }
        if let (Some(r), InstKind::Phi { incomings }) = (inst.result, &inst.kind) {
            assert(func.values@[r.0 as int]@ == f.value(r));
            if func.values[r.0].ty.same(&Type::F32) {
                proof {
                    query::lemma_sole_incoming_wf(
                        incomings@,
                        latch,
                        f.blocks.len(),
                        f.values.len(),
                    );
                }
                let initial = unique_incoming(incomings, entering)?;
                let next = unique_incoming(incomings, latch)?;
                assert(func.values@[next.0 as int]@ == f.value(next));
                if !func.values[next.0].ty.same(&Type::F32) || found.is_some() {
                    return None;
                }
                found = Some((r, initial));
            }
        }
    }
    found
}

fn is_zero_float(func: &Function, v: ValueId) -> (r: bool)
    ensures
        r == recognize::is_float_zero(func@, v),
{
    if v.0 >= func.values.len() {
        return false;
    }
    assert(func.values@[v.0 as int]@ == func@.value(v));
    match &func.values[v.0].kind {
        ValueKind::Const(Const::Float(bits)) => *bits == 0,
        ValueKind::Const(Const::Zero(ty)) => ty.same(&Type::F32),
        _ => false,
    }
}

#[verifier::loop_isolation(false)]
fn reads_in_block(func: &Function, b: BlockId, v: ValueId) -> (r: bool)
    requires
        func@.has_block(b),
    ensures
        r == recognize::block_reads(func@, b, v),
{
    let ghost f = func@;
    let n = func.blocks[b.0].insts.len();
    for i in 0..n
        invariant
            n == f.block(b).insts.len(),
            forall|j: int|
                0 <= j < i ==> !edit::operands((#[trigger] f.inst(b, j)).kind).contains(v),
    {
        let inst = &func.blocks[b.0].insts[i];
        assert(inst@ == f.inst(b, i as int));
        let list = inst_operands(&inst.kind);
        if contains_value(&list, v) {
            assert(f.has_inst(b, i as int));
            return true;
        }
    }
    let list = terminator_operands(&func.blocks[b.0].terminator);
    contains_value(&list, v)
}

#[verifier::loop_isolation(false)]
fn accumulator_external_uses_are_in_exit(
    func: &Function,
    l: &NaturalLoop,
    v: ValueId,
    exit: BlockId,
) -> (r: bool)
    ensures
        r == recognize::read_in_exit_only(func@, l@, v, exit),
{
    let ghost f = func@;
    let n = func.blocks.len();
    for x in 0..n
        invariant
            n == f.blocks.len(),
            forall|b: BlockId|
                b.0 < x && !l@.has(b) && b != exit ==> !(#[trigger] recognize::block_reads(f, b, v)),
    {
        let b = BlockId(x);
        if !l.contains(b) && b != exit && reads_in_block(func, b, v) {
            assert(f.has_block(b));
            return false;
        }
    }
    true
}

fn header_induction(func: &Function, l: &NaturalLoop) -> (r: Option<InductionVariable>)
    requires
        func@.wf(),
        func@.has_block(l.header),
    ensures
        r == recognize::first_induction(
            func@,
            l@,
            patterns::phi_results(func@, l.header),
            0,
        ),
{
    let phis = collect_phi_results(func, l.header);
    let n = phis.len();
    for k in 0..n
        invariant
            n == phis.len(),
            phis@ == patterns::phi_results(func@, l.header),
            recognize::first_induction(func@, l@, phis@, 0) == recognize::first_induction(
                func@,
                l@,
                phis@,
                k as int,
            ),
    {
        if let Some(iv) = analyze_i32_induction(func, l, phis[k]) {
            return Some(iv);
        }
    }
    None
}

#[verifier::loop_isolation(false)]
fn external_float_values(func: &Function, inner: &NaturalLoop, outer: &NaturalLoop) -> (r: Option<
    Vec<ValueId>,
>)
    requires
        func@.wf(),
        inner@.within(func@.blocks.len()),
    ensures
        r is Some == recognize::only_states_vary(func@, inner@, outer@),
        r matches Some(list) ==> list@ == recognize::states_below(
            func@,
            inner@,
            outer@,
            func@.values.len() as int,
        ),
{
    let ghost f = func@;
    assert forall|k: int| 0 <= k < inner.blocks.len() implies f.has_block(
        #[trigger] inner.blocks@[k],
    ) by {
        assert(inner@.blocks[k].0 < f.blocks.len());
    }
    let marks = mark_read(func, &inner.blocks);
    let n = func.values.len();
    let mut r: Vec<ValueId> = Vec::new();
    for x in 0..n
        invariant
            n == f.values.len(),
            r@ == recognize::states_below(f, inner@, outer@, x as int),
            forall|v: ValueId|
                v.0 < x && #[trigger] recognize::is_varying(f, inner@, outer@, v) ==> f.value(v).ty
                    == Type::F32,
    {
        let v = ValueId(x);
        assert(func.values@[x as int]@ == f.value(v));
        assert(marks@[x as int] == flow::read_by(f, inner@.blocks, v));
        if marks[x] && is_defined_in(func, v, &outer.blocks) && !is_defined_in(
            func,
            v,
            &inner.blocks,
        ) {
            assert(recognize::is_varying(f, inner@, outer@, v));
            if !func.values[x].ty.same(&Type::F32) {
                assert(f.has_value(v));
                return None;
            }
            r.push(v);
        }
    }
    Some(r)
}

fn float_constant(func: &Function, v: ValueId) -> (r: Option<Const>)
    ensures
        r == recognize::float_const(func@, v),
{
    if v.0 >= func.values.len() {
        return None;
    }
    assert(func.values@[v.0 as int]@ == func@.value(v));
    match &func.values[v.0].kind {
        ValueKind::Const(Const::Float(bits)) => Some(Const::Float(*bits)),
        ValueKind::Const(Const::Zero(ty)) => if ty.same(&Type::F32) {
            Some(Const::Zero(Type::F32))
        } else {
            None
        },
        _ => None,
    }
}

fn find_entry_beside(incomings: &Vec<(BlockId, ValueId)>, pred: BlockId) -> (r: Option<
    (BlockId, ValueId),
>)
    ensures
        r == recognize::entry_beside(incomings@, pred, 0),
{
    let n = incomings.len();
    for k in 0..n
        invariant
            n == incomings.len(),
            recognize::entry_beside(incomings@, pred, 0) == recognize::entry_beside(
                incomings@,
                pred,
                k as int,
            ),
    {
        if incomings[k].0 != pred {
            return Some(incomings[k]);
        }
    }
    None
}

fn find_added_to(func: &Function, lhs: ValueId, rhs: ValueId) -> (r: Option<(ValueId, ValueId)>)
    ensures
        r == recognize::added_to(func@, lhs, rhs),
{
    if float_constant(func, rhs).is_some() {
        Some((lhs, rhs))
    } else if float_constant(func, lhs).is_some() {
        Some((rhs, lhs))
    } else {
        None
    }
}

fn is_const_kind(func: &Function, v: ValueId, c: &Const) -> (r: bool)
    requires
        func@.has_value(v),
    ensures
        r == (func@.value(v).kind == ValueKindView::Const(*c)),
{
    assert(func.values@[v.0 as int]@ == func@.value(v));
    match &func.values[v.0].kind {
        ValueKind::Const(d) => d.same(c),
        _ => false,
    }
}

fn check_outer_phi(
    func: &Function,
    outer: &NaturalLoop,
    latch: BlockId,
    state: ValueId,
    old_state: ValueId,
    reset: &Const,
) -> (r: Option<bool>)
    requires
        func@.wf(),
    ensures
        r == recognize::outer_phi_fits(func@, outer@, latch, state, old_state, *reset),
{
    match defining_inst(func, old_state) {
        Some(InstKind::Phi { incomings }) => {
            proof {
                loops::lemma_def_kind_wf(func@, old_state);
            }
            let entering = match outer.unique_entering_pred {
                Some(b) => b,
                None => return Some(false),
            };
            proof {
                query::lemma_sole_incoming_wf(
                    incomings@,
                    entering,
                    func@.blocks.len(),
                    func@.values.len(),
                );
            }
            match (unique_incoming(incomings, entering), unique_incoming(incomings, latch)) {
                (Some(initial), Some(next)) => if next == state && is_const_kind(
                    func,
                    initial,
                    reset,
                ) {
                    Some(true)
                } else {
                    None
                },
                _ => Some(false),
            }
        },
        Some(_) => None,
        None => Some(false),
    }
}

fn has_type(func: &Function, v: ValueId) -> (r: bool)
    requires
        func@.has_value(v),
    ensures
        r == (func@.value(v).ty == Type::F32),
{
    assert(func.values@[v.0 as int]@ == func@.value(v));
    func.values[v.0].ty.same(&Type::F32)
}

fn check_reset_entry(
    func: &Function,
    outer: &NaturalLoop,
    latch: BlockId,
    state: ValueId,
    incomings: &Vec<(BlockId, ValueId)>,
    k: usize,
) -> (r: Option<Option<(BlockId, BlockId)>>)
    requires
        func@.wf(),
        k < incomings.len(),
    ensures
        r == recognize::reset_entry(func@, outer@, latch, state, incomings@, k as int),
{
    let (reset_pred, reset) = incomings[k];
    let constant = match float_constant(func, reset) {
        Some(c) => c,
        None => return None,
    };
    let (update_pred, updated) = match find_entry_beside(incomings, reset_pred) {
        Some(x) => x,
        None => return Some(None),
    };
    let (lhs, rhs) = match defining_inst(func, updated) {
        Some(InstKind::Binary { op: BinaryOp::Fadd, lhs, rhs }) => (*lhs, *rhs),
        Some(_) => return None,
        None => return Some(None),
    };
    proof {
        loops::lemma_def_kind_wf(func@, updated);
    }
    let (old_state, delta) = match find_added_to(func, lhs, rhs) {
        Some(x) => x,
        None => return None,
    };
    match defining_block(func, old_state) {
        Some(b) => if b != outer.header {
            return None;
        },
        None => return None,
    }
    if !has_type(func, old_state) || !has_type(func, delta) {
        return None;
    }
    match check_outer_phi(func, outer, latch, state, old_state, &constant) {
        Some(true) => Some(Some((reset_pred, update_pred))),
        Some(false) => Some(None),
        None => None,
    }
}

fn find_state_preds(
    func: &Function,
    outer: &NaturalLoop,
    preheader: BlockId,
    latch: BlockId,
    state: ValueId,
) -> (r: Option<(BlockId, BlockId)>)
    requires
        func@.wf(),
    ensures
        r == recognize::state_preds(func@, outer@, preheader, latch, state),
{
    match defining_block(func, state) {
        Some(b) => if b != preheader {
            return None;
        },
        None => return None,
    }
    match defining_inst(func, state) {
        Some(InstKind::Phi { incomings }) => {
            if incomings.len() != 2 {
                return None;
            }
            match check_reset_entry(func, outer, latch, state, incomings, 0) {
                Some(r) => r,
                None => match check_reset_entry(func, outer, latch, state, incomings, 1) {
                    Some(r) => r,
                    None => None,
                },
            }
        },
        _ => None,
    }
}

fn prove_state_recurrences(
    func: &Function,
    outer: &NaturalLoop,
    preheader: BlockId,
    latch: BlockId,
    states: &Vec<ValueId>,
) -> (r: Option<(BlockId, BlockId)>)
    requires
        func@.wf(),
    ensures
        r == recognize::common_preds(func@, outer@, preheader, latch, states@, None, 0),
{
    let mut prior: Option<(BlockId, BlockId)> = None;
    let n = states.len();
    for k in 0..n
        invariant
            n == states.len(),
            func@.wf(),
            recognize::common_preds(func@, outer@, preheader, latch, states@, None, 0)
                == recognize::common_preds(
                func@,
                outer@,
                preheader,
                latch,
                states@,
                prior,
                k as int,
            ),
    {
        let found = find_state_preds(func, outer, preheader, latch, states[k])?;
        if let Some(p) = prior {
            if p.0 != found.0 || p.1 != found.1 {
                return None;
            }
        }
        prior = Some(found);
    }
    prior
}

fn find_reset_side(
    b: BlockId,
    t: BlockId,
    e: BlockId,
    merge: BlockId,
    preds: (BlockId, BlockId),
) -> (r: Option<bool>)
    ensures
        r == recognize::reset_side(b, t, e, merge, preds.0, preds.1),
{
    let (reset_pred, update_pred) = preds;
    if b == reset_pred && t == merge && e == update_pred {
        Some(true)
    } else if b == reset_pred && e == merge && t == update_pred {
        Some(false)
    } else if t == reset_pred && e == update_pred {
        Some(true)
    } else if e == reset_pred && t == update_pred {
        Some(false)
    } else {
        None
    }
}

fn is_zero(func: &Function, v: ValueId) -> (r: bool)
    ensures
        r == (util::const_i32_of(func@, v) == Some(0i32)),
{
    match const_i32(func, v) {
        Some(c) => c == 0,
        None => false,
    }
}

fn find_against_zero(func: &Function, lhs: ValueId, rhs: ValueId) -> (r: Option<ValueId>)
    ensures
        r == recognize::against_zero(func@, lhs, rhs),
{
    if is_zero(func, rhs) {
        Some(lhs)
    } else if is_zero(func, lhs) {
        Some(rhs)
    } else {
        None
    }
}

fn check_periodic_test(
    func: &Function,
    counter: ValueId,
    op: CompareOp,
    remainder: ValueId,
    reset_is_true: bool,
) -> (r: Option<bool>)
    ensures
        r == recognize::periodic_test(func@, counter, op, remainder, reset_is_true),
{
    match defining_inst(func, remainder) {
        Some(InstKind::Binary { op: BinaryOp::Imod, lhs, rhs }) => match const_i32(func, *rhs) {
            Some(period) => if *lhs == counter && period >= 2 && (op == CompareOp::Eq || op
                == CompareOp::Ne) && (op == CompareOp::Ne) == reset_is_true {
                Some(true)
            } else {
                None
            },
            None => Some(false),
        },
        Some(_) => None,
        None => Some(false),
    }
}

fn check_branch(
    func: &Function,
    counter: ValueId,
    merge: BlockId,
    preds: (BlockId, BlockId),
    b: BlockId,
) -> (r: Option<Option<ValueId>>)
    requires
        func@.wf(),
    ensures
        r == recognize::branch_attempt(func@, counter, merge, preds, b),
        r matches Some(Some(v)) ==> func@.has_value(v),
{
    let (cond, t, e) = match as_branch(func, b) {
        Some(x) => x,
        None => return None,
    };
    proof {
        query::lemma_terminator_wf(func@, b);
    }
    let reset_is_true = match find_reset_side(b, t, e, merge, preds) {
        Some(x) => x,
        None => return None,
    };
    let (op, lhs, rhs) = match defining_inst(func, cond) {
        Some(InstKind::ICompare { op, lhs, rhs }) => (*op, *lhs, *rhs),
        Some(_) => return None,
        None => return Some(None),
    };
    let remainder = match find_against_zero(func, lhs, rhs) {
        Some(v) => v,
        None => return None,
    };
    match check_periodic_test(func, counter, op, remainder, reset_is_true) {
        Some(true) => Some(Some(cond)),
        Some(false) => Some(None),
        None => None,
    }
}

fn prove_periodic_branch(
    func: &Function,
    outer: &NaturalLoop,
    counter: ValueId,
    merge: BlockId,
    preds: (BlockId, BlockId),
) -> (r: Option<ValueId>)
    requires
        func@.wf(),
    ensures
        r == recognize::periodic_condition(func@, counter, merge, preds, outer@.blocks, 0),
        r matches Some(v) ==> func@.has_value(v),
{
    let n = outer.blocks.len();
    for k in 0..n
        invariant
            n == outer.blocks.len(),
            func@.wf(),
            recognize::periodic_condition(func@, counter, merge, preds, outer@.blocks, 0)
                == recognize::periodic_condition(
                func@,
                counter,
                merge,
                preds,
                outer@.blocks,
                k as int,
            ),
    {
        if let Some(r) = check_branch(func, counter, merge, preds, outer.blocks[k]) {
            return r;
        }
    }
    None
}

fn match_outer(
    func: &Function,
    outer: &NaturalLoop,
    inner: &NaturalLoop,
    preheader: BlockId,
    exit: BlockId,
    accumulator: ValueId,
) -> (r: Option<Candidate>)
    requires
        func@.wf(),
        outer@.within(func@.blocks.len()),
        inner@.within(func@.blocks.len()),
        func@.has_block(preheader),
        func@.has_block(exit),
        func@.has_value(accumulator),
    ensures
        r == recognize::outer_candidate(func@, outer@, inner@, preheader, exit, accumulator),
        r matches Some(c) ==> recognize::candidate_in(func@, c),
{
    let entering = outer.unique_entering_pred?;
    let latch = outer.unique_latch()?;
    if latch != exit {
        return None;
    }
    let iv = header_induction(func, outer)?;
    if iv.step != 1 || !is_zero(func, iv.initial) {
        return None;
    }
    let states = external_float_values(func, inner, outer)?;
    if states.len() < 2 || states.len() > 4 {
        return None;
    }
    let preds = prove_state_recurrences(func, outer, preheader, exit, &states)?;
    let cond = prove_periodic_branch(func, outer, iv.phi, preheader, preds)?;
    Some(
        Candidate {
            outer_header: outer.header,
            outer_entering: entering,
            outer_latch: latch,
            inner_header: inner.header,
            inner_preheader: preheader,
            inner_exit: exit,
            accumulator,
            branch_condition: cond,
        },
    )
}

fn match_inner(func: &Function, list: &Vec<NaturalLoop>, at: usize) -> (r: Option<Candidate>)
    requires
        func@.wf(),
        at < list.len(),
        forall|k: int| 0 <= k < list.len() ==> (#[trigger] list@[k])@.within(func@.blocks.len()),
    ensures
        r == recognize::inner_candidate(func@, loops::loops_view(list@), list@[at as int]@),
        r matches Some(c) ==> recognize::candidate_in(func@, c),
{
    let inner = &list[at];
    assert(list@[at as int]@.within(func@.blocks.len()));
    let preheader = inner.dedicated_preheader?;
    let body = inner.unique_latch()?;
    let exit = inner.unique_exit()?;
    proof {
        assert(inner@.latches[0].0 < func@.blocks.len());
        assert(inner@.exit_edges[0].1.0 < func@.blocks.len());
    }
    if !has_two_blocks(func, inner, body, exit) {
        return None;
    }
    match jump_target(func, preheader) {
        Some(t) => if t != inner.header {
            return None;
        },
        None => return None,
    }
    if !pure_inner_loop(func, inner) {
        return None;
    }
    let (accumulator, initial) = float_accumulator(func, inner)?;
    if !is_zero_float(func, initial) || !accumulator_external_uses_are_in_exit(
        func,
        inner,
        accumulator,
        exit,
    ) {
        return None;
    }
    assert(loops::loops_view(list@).len() == list.len());
    let k = smallest_enclosing(list, inner, preheader, exit)?;
    assert(loops::loops_view(list@)[k as int] == list@[k as int]@);
    match_outer(func, &list[k], inner, preheader, exit, accumulator)
}

/// Finds the candidate of a function.
pub fn find_candidate(func: &Function) -> (r: Option<Candidate>)
    requires
        func@.wf(),
    ensures
        r == recognize::candidate_of(func@),
        r matches Some(c) ==> recognize::candidate_in(func@, c),
{
    let ghost f = func@;
    if func.blocks.len() > MAX_BLOCKS || func.values.len() > MAX_VALUES {
        return None;
    }
    let graph = ControlFlowGraph::new(func);
    let dom = Dominators::new(func, &graph);
    let info = LoopInfo::new(func, &graph, &dom);
    let list = info.loops();
    let order = order_by_size(list, true);
    let ghost views = loops::loops_of(f);
    assert forall|k: int| 0 <= k < list.len() implies (#[trigger] list@[k])@.within(
        f.blocks.len(),
    ) by {
        assert(views[k] == list@[k]@);
        loops::lemma_listed_loop(f, k);
    }
    let n = order.len();
    for k in 0..n
        invariant
            n == order.len(),
            func@ == f,
            f.wf(),
            views == loops::loops_view(list@),
            order@ == loops::size_order(views, true),
            forall|j: int| 0 <= j < order.len() ==> #[trigger] order@[j] < list.len(),
            forall|k: int| 0 <= k < list.len() ==> (#[trigger] list@[k])@.within(f.blocks.len()),
            recognize::candidate_of(f) == recognize::first_candidate(f, views, order@, k as int),
    {
        assert(views[order@[k as int] as int] == list@[order@[k as int] as int]@);
        if let Some(c) = match_inner(func, list, order[k]) {
            return Some(c);
        }
    }
    None
}

} // verus!
