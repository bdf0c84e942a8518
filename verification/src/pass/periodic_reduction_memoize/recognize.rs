//! Recognition of reductions that run with one of two states.
use vstd::prelude::*;

use crate::edit;
use crate::flow;
use crate::ir::{
    BinaryOp, BlockId, CompareOp, Const, FuncView, InstView, KindView, Type, ValueId, ValueKindView,
};
use crate::loops;
use crate::loops::{InductionVariable, LoopView};
use crate::patterns;
use crate::query;
use crate::util;

verus! {

pub const MAX_BLOCKS: usize = 1024;

pub const MAX_VALUES: usize = 8192;

/// An inner reduction and the outer loop around it.
#[derive(Clone, Copy, PartialEq, Eq, Structural)]
pub struct Candidate {
    pub outer_header: BlockId,
    pub outer_entering: BlockId,
    pub outer_latch: BlockId,
    pub inner_header: BlockId,
    pub inner_preheader: BlockId,
    pub inner_exit: BlockId,
    pub accumulator: ValueId,
    pub branch_condition: ValueId,
}

// ---------------------------------------------------------------------------
// The inner loop
// ---------------------------------------------------------------------------

/// The loop is its header and its latch, and leaves at the header only.
pub open spec fn is_two_blocks(f: FuncView, l: LoopView, body: BlockId, exit: BlockId) -> bool {
    &&& forall|b: BlockId| #[trigger] l.has(b) <==> b == l.header || b == body
    &&& l.exit_edges == seq![(l.header, exit)]
    &&& query::jump_of(f, body) == Some(l.header)
}

/// The instruction neither reads nor writes memory, and does not call.
pub open spec fn is_pure(inst: InstView) -> bool {
    match inst.kind {
        KindView::Nop => true,
        KindView::Phi { .. } => true,
        KindView::Unary { .. } => true,
        KindView::Binary { .. } => true,
        KindView::ICompare { .. } => true,
        KindView::FCompare { .. } => true,
        KindView::Cast { .. } => true,
        KindView::Gep { .. } => true,
        _ => false,
    }
}

pub open spec fn is_pure_loop(f: FuncView, l: LoopView) -> bool {
    forall|b: BlockId, i: int| l.has(b) && f.has_inst(b, i) ==> is_pure(#[trigger] f.inst(b, i))
}

/// The only phi of floating-point type among the instructions from place `k`
/// on, with its initial value; `found` is the one before.
pub open spec fn float_phi_from(
    f: FuncView,
    insts: Seq<InstView>,
    entering: BlockId,
    latch: BlockId,
    found: Option<(ValueId, ValueId)>,
    k: int,
) -> Option<(ValueId, ValueId)>
    decreases insts.len() - k,
{
    if k < 0 || k >= insts.len() {
        found
    } else {
        match (insts[k].result, insts[k].kind) {
            (Some(r), KindView::Phi { incomings }) => if f.value(r).ty != Type::F32 {
                float_phi_from(f, insts, entering, latch, found, k + 1)
            } else {
                match (
                    query::sole_incoming(incomings, entering),
                    query::sole_incoming(incomings, latch),
                ) {
                    (Some(initial), Some(next)) => if f.value(next).ty != Type::F32
                        || found is Some {
                        None
                    } else {
                        float_phi_from(f, insts, entering, latch, Some((r, initial)), k + 1)
                    },
                    _ => None,
                }
            },
            _ => float_phi_from(f, insts, entering, latch, found, k + 1),
        }
    }
}

/// The floating-point accumulator of the loop, with its initial value.
pub open spec fn accumulator_of(f: FuncView, l: LoopView) -> Option<(ValueId, ValueId)> {
    match (l.unique_entering_pred, l.unique_latch()) {
        (Some(entering), Some(latch)) => float_phi_from(
            f,
            f.block(l.header).insts,
            entering,
            latch,
            None,
            0,
        ),
        _ => None,
    }
}

/// The value is floating-point zero.
pub open spec fn is_float_zero(f: FuncView, v: ValueId) -> bool {
    f.has_value(v) && match f.value(v).kind {
        ValueKindView::Const(Const::Float(bits)) => bits == 0,
        ValueKindView::Const(Const::Zero(ty)) => ty == Type::F32,
        _ => false,
    }
}

/// Block `b` reads the value.
pub open spec fn block_reads(f: FuncView, b: BlockId, v: ValueId) -> bool {
    ||| exists|i: int|
        f.has_inst(b, i) && edit::operands((#[trigger] f.inst(b, i)).kind).contains(v)
    ||| edit::terminator_reads(f.terminator(b)).contains(v)
}

/// Outside the loop only the exit reads the value.
pub open spec fn read_in_exit_only(f: FuncView, l: LoopView, v: ValueId, exit: BlockId) -> bool {
    forall|b: BlockId|
        f.has_block(b) && !l.has(b) && b != exit ==> !(#[trigger] block_reads(f, b, v))
}

// ---------------------------------------------------------------------------
// The outer loop
// ---------------------------------------------------------------------------

/// The first induction variable among the phis from place `k` on.
pub open spec fn first_induction(f: FuncView, l: LoopView, phis: Seq<ValueId>, k: int) -> Option<
    InductionVariable,
>
    decreases phis.len() - k,
{
    if k < 0 || k >= phis.len() {
        None
    } else {
        match loops::induction_of(f, l, phis[k]) {
            Some(iv) => Some(iv),
            None => first_induction(f, l, phis, k + 1),
        }
    }
}

/// The value may vary from one round of the outer loop to the next, and the
/// inner loop reads it.
pub open spec fn is_varying(f: FuncView, inner: LoopView, outer: LoopView, v: ValueId) -> bool {
    &&& flow::read_by(f, inner.blocks, v)
    &&& patterns::defined_in(f, v, outer.blocks)
    &&& !patterns::defined_in(f, v, inner.blocks)
}

/// The value is a floating-point state of the outer loop that the inner loop
/// reads.
pub open spec fn is_state(f: FuncView, inner: LoopView, outer: LoopView, v: ValueId) -> bool {
    is_varying(f, inner, outer, v) && f.value(v).ty == Type::F32
}

/// Nothing but the states varies.
pub open spec fn only_states_vary(f: FuncView, inner: LoopView, outer: LoopView) -> bool {
    forall|v: ValueId|
        f.has_value(v) && #[trigger] is_varying(f, inner, outer, v) ==> f.value(v).ty == Type::F32
}

/// The states among the first `n` values.
pub open spec fn states_below(f: FuncView, inner: LoopView, outer: LoopView, n: int) -> Seq<ValueId>
    decreases n,
{
    if n <= 0 {
        Seq::empty()
    } else {
        let before = states_below(f, inner, outer, n - 1);
        if is_state(f, inner, outer, ValueId((n - 1) as usize)) {
            before.push(ValueId((n - 1) as usize))
        } else {
            before
        }
    }
}

// ---------------------------------------------------------------------------
// The state recurrences
// ---------------------------------------------------------------------------

/// The floating-point constant.
pub open spec fn float_const(f: FuncView, v: ValueId) -> Option<Const> {
    if f.has_value(v) {
        match f.value(v).kind {
            ValueKindView::Const(Const::Float(bits)) => Some(Const::Float(bits)),
            ValueKindView::Const(Const::Zero(ty)) => if ty == Type::F32 {
                Some(Const::Zero(Type::F32))
            } else {
                None
            },
            _ => None,
        }
    } else {
        None
    }
}

/// The first entry that does not come from `pred`, from place `k` on.
pub open spec fn entry_beside(incomings: Seq<(BlockId, ValueId)>, pred: BlockId, k: int) -> Option<
    (BlockId, ValueId),
>
    decreases incomings.len() - k,
{
    if k < 0 || k >= incomings.len() {
        None
    } else if incomings[k].0 != pred {
        Some(incomings[k])
    } else {
        entry_beside(incomings, pred, k + 1)
    }
}

/// The variable operand of an addition with a floating-point constant.
pub open spec fn added_to(f: FuncView, lhs: ValueId, rhs: ValueId) -> Option<(ValueId, ValueId)> {
    if float_const(f, rhs) is Some {
        Some((lhs, rhs))
    } else if float_const(f, lhs) is Some {
        Some((rhs, lhs))
    } else {
        None
    }
}

/// Whether the outer phi `old` starts at the reset constant and takes the
/// state along the back edge: `None` where the search goes on, `Some(false)`
/// where it ends without a result.
pub open spec fn outer_phi_fits(
    f: FuncView,
    outer: LoopView,
    latch: BlockId,
    state: ValueId,
    old: ValueId,
    reset: Const,
) -> Option<bool> {
    match util::def_kind(f, old) {
        Some(KindView::Phi { incomings }) => match outer.unique_entering_pred {
            Some(entering) => match (
                query::sole_incoming(incomings, entering),
                query::sole_incoming(incomings, latch),
            ) {
                (Some(initial), Some(next)) => if next == state && f.value(initial).kind
                    == ValueKindView::Const(reset) {
                    Some(true)
                } else {
                    None
                },
                _ => Some(false),
            },
            None => Some(false),
        },
        Some(_) => None,
        None => Some(false),
    }
}

/// What entry `k` of the state's phi comes to as the reset: `None` where the
/// next may fit, `Some(None)` where the state is given up.
pub open spec fn reset_entry(
    f: FuncView,
    outer: LoopView,
    latch: BlockId,
    state: ValueId,
    incomings: Seq<(BlockId, ValueId)>,
    k: int,
) -> Option<Option<(BlockId, BlockId)>> {
    let (reset_pred, reset) = incomings[k];
    match float_const(f, reset) {
        Some(constant) => match entry_beside(incomings, reset_pred, 0) {
            Some((update_pred, updated)) => match util::def_kind(f, updated) {
                Some(KindView::Binary { op: BinaryOp::Fadd, lhs, rhs }) => match added_to(
                    f,
                    lhs,
                    rhs,
                ) {
                    Some((old, delta)) => if util::def_block(f, old) == Some(outer.header)
                        && f.value(old).ty == Type::F32 && f.value(delta).ty == Type::F32 {
                        match outer_phi_fits(f, outer, latch, state, old, constant) {
                            Some(true) => Some(Some((reset_pred, update_pred))),
                            Some(false) => Some(None),
                            None => None,
                        }
                    } else {
                        None
                    },
                    None => None,
                },
                Some(_) => None,
                None => Some(None),
            },
            None => Some(None),
        },
        None => None,
    }
}

/// Where the state is reset and where it is updated.
pub open spec fn state_preds(
    f: FuncView,
    outer: LoopView,
    preheader: BlockId,
    latch: BlockId,
    state: ValueId,
) -> Option<(BlockId, BlockId)> {
    if util::def_block(f, state) != Some(preheader) {
        None
    } else {
        match util::def_kind(f, state) {
            Some(KindView::Phi { incomings }) => if incomings.len() != 2 {
                None
            } else {
                match reset_entry(f, outer, latch, state, incomings, 0) {
                    Some(r) => r,
                    None => match reset_entry(f, outer, latch, state, incomings, 1) {
                        Some(r) => r,
                        None => None,
                    },
                }
            },
            _ => None,
        }
    }
}

/// The blocks at which all states from place `k` on are reset and updated;
/// `prior` are those of the states before.
pub open spec fn common_preds(
    f: FuncView,
    outer: LoopView,
    preheader: BlockId,
    latch: BlockId,
    states: Seq<ValueId>,
    prior: Option<(BlockId, BlockId)>,
    k: int,
) -> Option<(BlockId, BlockId)>
    decreases states.len() - k,
{
    if k < 0 || k >= states.len() {
        prior
    } else {
        match state_preds(f, outer, preheader, latch, states[k]) {
            Some(p) => if prior is Some && prior != Some(p) {
                None
            } else {
                common_preds(f, outer, preheader, latch, states, Some(p), k + 1)
            },
            None => None,
        }
    }
}

// ---------------------------------------------------------------------------
// The periodic branch
// ---------------------------------------------------------------------------

/// Whether the branch at block `b` resets when its condition holds.
pub open spec fn reset_side(
    b: BlockId,
    t: BlockId,
    e: BlockId,
    merge: BlockId,
    reset_pred: BlockId,
    update_pred: BlockId,
) -> Option<bool> {
    if b == reset_pred && t == merge && e == update_pred {
        Some(true)
    } else if b == reset_pred && e == merge && t == update_pred {
        Some(false)
    } else if t == reset_pred && e == update_pred {
        Some(true)
    } else if e == reset_pred && t == update_pred {
        Some(false)
    } else {
        None
    }
}

/// The operand that is compared with zero.
pub open spec fn against_zero(f: FuncView, lhs: ValueId, rhs: ValueId) -> Option<ValueId> {
    if util::const_i32_of(f, rhs) == Some(0i32) {
        Some(lhs)
    } else if util::const_i32_of(f, lhs) == Some(0i32) {
        Some(rhs)
    } else {
        None
    }
}

/// What the comparison with a remainder comes to: `None` where the next
/// branch may fit, `Some(false)` where the loop is given up.
pub open spec fn periodic_test(
    f: FuncView,
    counter: ValueId,
    op: CompareOp,
    remainder: ValueId,
    reset_is_true: bool,
) -> Option<bool> {
    match util::def_kind(f, remainder) {
        Some(KindView::Binary { op: BinaryOp::Imod, lhs, rhs }) => match util::const_i32_of(
            f,
            rhs,
        ) {
            Some(period) => if lhs == counter && period >= 2 && (op == CompareOp::Eq || op
                == CompareOp::Ne) && (op == CompareOp::Ne) == reset_is_true {
                Some(true)
            } else {
                None
            },
            None => Some(false),
        },
        Some(_) => None,
        None => Some(false),
    }
}

/// What the branch at block `b` comes to.
pub open spec fn branch_attempt(
    f: FuncView,
    counter: ValueId,
    merge: BlockId,
    preds: (BlockId, BlockId),
    b: BlockId,
) -> Option<Option<ValueId>> {
    match patterns::branch_of(f, b) {
        Some((cond, t, e)) => match reset_side(b, t, e, merge, preds.0, preds.1) {
            Some(reset_is_true) => match util::def_kind(f, cond) {
                Some(KindView::ICompare { op, lhs, rhs }) => match against_zero(f, lhs, rhs) {
                    Some(remainder) => match periodic_test(f, counter, op, remainder, reset_is_true)
                    {
                        Some(true) => Some(Some(cond)),
                        Some(false) => Some(None),
                        None => None,
                    },
                    None => None,
                },
                Some(_) => None,
                None => Some(None),
            },
            None => None,
        },
        None => None,
    }
}

/// The condition, in the blocks from place `k` on, that resets the state
/// unless the counter is a multiple of the period.
pub open spec fn periodic_condition(
    f: FuncView,
    counter: ValueId,
    merge: BlockId,
    preds: (BlockId, BlockId),
    list: Seq<BlockId>,
    k: int,
) -> Option<ValueId>
    decreases list.len() - k,
{
    if k < 0 || k >= list.len() {
        None
    } else {
        match branch_attempt(f, counter, merge, preds, list[k]) {
            Some(r) => r,
            None => periodic_condition(f, counter, merge, preds, list, k + 1),
        }
    }
}

// ---------------------------------------------------------------------------
// The candidate
// ---------------------------------------------------------------------------

/// The candidate that the outer loop makes with the inner one.
pub open spec fn outer_candidate(
    f: FuncView,
    outer: LoopView,
    inner: LoopView,
    preheader: BlockId,
    exit: BlockId,
    accumulator: ValueId,
) -> Option<Candidate> {
    match (outer.unique_entering_pred, outer.unique_latch()) {
        (Some(entering), Some(latch)) => if latch != exit {
            None
        } else {
            match first_induction(f, outer, patterns::phi_results(f, outer.header), 0) {
                Some(iv) => if iv.step != 1 || util::const_i32_of(f, iv.initial) != Some(0i32) {
                    None
                } else {
                    let states = states_below(f, inner, outer, f.values.len() as int);
                    if states.len() < 2 || states.len() > 4 || !only_states_vary(f, inner, outer) {
                        None
                    } else {
                        match common_preds(f, outer, preheader, exit, states, None, 0) {
                            Some(preds) => match periodic_condition(
                                f,
                                iv.phi,
                                preheader,
                                preds,
                                outer.blocks,
                                0,
                            ) {
                                Some(cond) => Some(
                                    Candidate {
                                        outer_header: outer.header,
                                        outer_entering: entering,
                                        outer_latch: latch,
                                        inner_header: inner.header,
                                        inner_preheader: preheader,
                                        inner_exit: exit,
                                        accumulator,
                                        branch_condition: cond,
                                    },
                                ),
                                None => None,
                            },
                            None => None,
                        }
                    }
                },
                None => None,
            }
        },
        _ => None,
    }
}

/// The candidate that the loop makes as the inner one.
pub open spec fn inner_candidate(f: FuncView, list: Seq<LoopView>, inner: LoopView) -> Option<
    Candidate,
> {
    match (inner.dedicated_preheader, inner.unique_latch(), inner.unique_exit()) {
        (Some(preheader), Some(body), Some(exit)) => if !is_two_blocks(f, inner, body, exit)
            || query::jump_of(f, preheader) != Some(inner.header) || !is_pure_loop(f, inner) {
            None
        } else {
            match accumulator_of(f, inner) {
                Some((accumulator, initial)) => if !is_float_zero(f, initial)
                    || !read_in_exit_only(f, inner, accumulator, exit) {
                    None
                } else {
                    match loops::smallest_below(list, inner, preheader, exit, list.len() as int) {
                        Some(k) => outer_candidate(f, list[k], inner, preheader, exit, accumulator),
                        None => None,
                    }
                },
                None => None,
            }
        },
        _ => None,
    }
}

/// The first candidate from place `k` of the order on.
pub open spec fn first_candidate(f: FuncView, list: Seq<LoopView>, order: Seq<usize>, k: int) -> Option<
    Candidate,
>
    decreases order.len() - k,
{
    if k < 0 || k >= order.len() {
        None
    } else {
        match inner_candidate(f, list, list[order[k] as int]) {
            Some(c) => Some(c),
            None => first_candidate(f, list, order, k + 1),
        }
    }
}

/// The candidate of the smallest inner loop that makes one.
pub open spec fn candidate_of(f: FuncView) -> Option<Candidate> {
    if f.blocks.len() > MAX_BLOCKS || f.values.len() > MAX_VALUES {
        None
    } else {
        let list = loops::loops_of(f);
        first_candidate(f, list, loops::size_order(list, true), 0)
    }
}

/// The parts of the candidate exist.
pub open spec fn candidate_in(f: FuncView, c: Candidate) -> bool {
    &&& f.has_block(c.outer_header)
    &&& f.has_block(c.outer_entering)
    &&& f.has_block(c.outer_latch)
    &&& f.has_block(c.inner_header)
    &&& f.has_block(c.inner_preheader)
    &&& f.has_block(c.inner_exit)
    &&& f.has_value(c.accumulator)
    &&& f.has_value(c.branch_condition)
}

} // verus!
