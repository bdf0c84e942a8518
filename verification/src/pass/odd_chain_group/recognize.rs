//! Recognition of odd/even recurrences and of the loops that sum them.
use vstd::prelude::*;

use crate::cfg::{ControlFlowGraph, Dominators};
use crate::ir::{
    BinaryOp, BlockId, CompareOp, FuncView, Function, InstKind, InstView, KindView, Terminator,
    Type, ValueId, ValueKind, ValueKindView,
};
use crate::loops;
use crate::loops::{LoopInfo, LoopView, NaturalLoop};
use crate::patterns;
use crate::patterns::{as_binary, as_branch, as_compare, as_load, collect_phi_results};
use crate::query;
use crate::query::{block_is_empty, jump_target};
use crate::util;
use crate::util::{const_i32, defining_inst, phi_incoming};

verus! {

/// The largest limit for which one round of the recurrence cannot overflow.
pub const SAFE_LIMIT: i32 = 536870911;

/// What an odd state may become.
#[derive(Clone, Copy, PartialEq, Eq, Structural, Debug)]
pub enum RecurrenceKind {
    /// Three times the state plus one, if that is within the limit.
    ThreeOnly,
    /// Else four times the state plus one, if that is within the limit.
    ThreeThenFour,
}

/// What a failed chain returns.
pub open spec fn failure_of(kind: RecurrenceKind) -> i32 {
    match kind {
        RecurrenceKind::ThreeOnly => 0,
        RecurrenceKind::ThreeThenFour => 7,
    }
}

impl RecurrenceKind {
    pub fn failure_value(self) -> (r: i32)
        ensures
            r == failure_of(self),
    {
        match self {
            RecurrenceKind::ThreeOnly => 0,
            RecurrenceKind::ThreeThenFour => 7,
        }
    }
}

/// A recognized recurrence: the global that holds its limit, and its kind.
pub struct RecurrenceSpec {
    pub limit_global: String,
    pub kind: RecurrenceKind,
}

pub struct RecurrenceView {
    pub limit_global: Seq<char>,
    pub kind: RecurrenceKind,
}

impl View for RecurrenceSpec {
    type V = RecurrenceView;

    open spec fn view(&self) -> RecurrenceView {
        RecurrenceView { limit_global: self.limit_global@, kind: self.kind }
    }
}

pub open spec fn option_view(r: Option<RecurrenceSpec>) -> Option<RecurrenceView> {
    match r {
        Some(spec) => Some(spec@),
        None => None,
    }
}

/// A loop that sums a recurrence.
#[derive(Clone, Copy, PartialEq, Eq, Structural)]
pub struct AggregatePlan {
    pub preheader: BlockId,
    pub header: BlockId,
    pub exit_pred: BlockId,
    pub exit: BlockId,
    pub limit_ptr: ValueId,
    pub accumulator: ValueId,
    pub modulus: i32,
    pub kind: RecurrenceKind,
}

// ---------------------------------------------------------------------------
// Affine forms
// ---------------------------------------------------------------------------

/// The number, if it fits.
pub open spec fn fitting(x: int) -> Option<i32> {
    if i32::MIN <= x <= i32::MAX {
        Some(x as i32)
    } else {
        None
    }
}

pub open spec fn fitting_pair(a: int, b: int) -> Option<(i32, i32)> {
    match (fitting(a), fitting(b)) {
        (Some(a), Some(b)) => Some((a, b)),
        _ => None,
    }
}

/// The form `a * base + b` of an operation on two such forms.
pub open spec fn combined(op: BinaryOp, left: (i32, i32), right: (i32, i32)) -> Option<(i32, i32)> {
    match op {
        BinaryOp::Iadd => fitting_pair(left.0 + right.0, left.1 + right.1),
        BinaryOp::Isub => fitting_pair(left.0 - right.0, left.1 - right.1),
        BinaryOp::Imul => if left.0 == 0 {
            fitting_pair(right.0 * left.1, right.1 * left.1)
        } else if right.0 == 0 {
            fitting_pair(left.0 * right.1, left.1 * right.1)
        } else {
            None
        },
        _ => None,
    }
}

/// `v` as `a * base + b`, looking through at most `fuel` operations.
pub open spec fn affine_in(f: FuncView, v: ValueId, base: ValueId, fuel: nat) -> Option<(i32, i32)>
    decreases fuel,
{
    if v == base {
        Some((1, 0))
    } else {
        match util::const_i32_of(f, v) {
            Some(c) => Some((0, c)),
            None => match patterns::binary_of(f, v) {
                Some((op, lhs, rhs)) => if fuel == 0 {
                    None
                } else {
                    match (
                        affine_in(f, lhs, base, (fuel - 1) as nat),
                        affine_in(f, rhs, base, (fuel - 1) as nat),
                    ) {
                        (Some(left), Some(right)) => combined(op, left, right),
                        _ => None,
                    }
                },
                None => None,
            },
        }
    }
}

/// `v` as `a * base + b`.
pub open spec fn affine_of(f: FuncView, v: ValueId, base: ValueId) -> Option<(i32, i32)> {
    affine_in(f, v, base, f.values.len())
}

fn checked_pair(a: Option<i32>, b: Option<i32>) -> (r: Option<(i32, i32)>)
    ensures
        r == match (a, b) {
            (Some(a), Some(b)) => Some((a, b)),
            _ => None,
        },
{
    match (a, b) {
        (Some(a), Some(b)) => Some((a, b)),
        _ => None,
    }
}

fn combine(op: BinaryOp, left: (i32, i32), right: (i32, i32)) -> (r: Option<(i32, i32)>)
    ensures
        r == combined(op, left, right),
{
    match op {
        BinaryOp::Iadd => checked_pair(
            left.0.checked_add(right.0),
            left.1.checked_add(right.1),
        ),
        BinaryOp::Isub => checked_pair(
            left.0.checked_sub(right.0),
            left.1.checked_sub(right.1),
        ),
        BinaryOp::Imul => if left.0 == 0 {
            checked_pair(right.0.checked_mul(left.1), right.1.checked_mul(left.1))
        } else if right.0 == 0 {
            checked_pair(left.0.checked_mul(right.1), left.1.checked_mul(right.1))
        } else {
            None
        },
        _ => None,
    }
}

fn affine_within(func: &Function, v: ValueId, base: ValueId, fuel: usize) -> (r: Option<(i32, i32)>)
    ensures
        r == affine_in(func@, v, base, fuel as nat),
    decreases fuel,
{
    if v == base {
        return Some((1, 0));
    }
    if let Some(c) = const_i32(func, v) {
        return Some((0, c));
    }
    let (op, lhs, rhs) = as_binary(func, v)?;
    if fuel == 0 {
        return None;
    }
    let left = affine_within(func, lhs, base, fuel - 1)?;
    let right = affine_within(func, rhs, base, fuel - 1)?;
    combine(op, left, right)
}

/// The form `a * base + b` of a value.
pub fn affine_from(func: &Function, v: ValueId, base: ValueId) -> (r: Option<(i32, i32)>)
    ensures
        r == affine_of(func@, v, base),
{
    assert(func.values.len() == func@.values.len());
    affine_within(func, v, base, func.values.len())
}

// ---------------------------------------------------------------------------
// Parts of the recurrence
// ---------------------------------------------------------------------------

/// What an otherwise empty block returns.
pub open spec fn returned(f: FuncView, b: BlockId) -> Option<ValueId> {
    if f.has_block(b) && query::all_nops(f.block(b).insts) {
        match f.terminator(b) {
            Some(Terminator::Return(Some(v))) => Some(v),
            _ => None,
        }
    } else {
        None
    }
}

fn returned_value(func: &Function, b: BlockId) -> (r: Option<ValueId>)
    ensures
        r == returned(func@, b),
{
    if b.0 >= func.blocks.len() {
        return None;
    }
    match func.blocks[b.0].terminator {
        Some(Terminator::Return(Some(v))) => if block_is_empty(func, b) {
            Some(v)
        } else {
            None
        },
        _ => None,
    }
}

/// The constant that an otherwise empty block returns.
pub open spec fn returned_constant(f: FuncView, b: BlockId) -> Option<i32> {
    match returned(f, b) {
        Some(v) => util::const_i32_of(f, v),
        None => None,
    }
}

fn returned_const(func: &Function, b: BlockId) -> (r: Option<i32>)
    ensures
        r == returned_constant(func@, b),
{
    const_i32(func, returned_value(func, b)?)
}

/// The targets of the test of a value against a constant.
pub open spec fn equality_targets(f: FuncView, b: BlockId, v: ValueId, c: i32) -> Option<
    (BlockId, BlockId),
> {
    match patterns::branch_of(f, b) {
        Some((cond, t, e)) => match patterns::compare_of(f, cond) {
            Some((CompareOp::Eq, lhs, rhs)) => if (lhs == v && util::const_i32_of(f, rhs) == Some(c))
                || (rhs == v && util::const_i32_of(f, lhs) == Some(c)) {
                Some((t, e))
            } else {
                None
            },
            _ => None,
        },
        None => None,
    }
}

fn eq_branch_targets(func: &Function, b: BlockId, v: ValueId, c: i32) -> (r: Option<
    (BlockId, BlockId),
>)
    ensures
        r == equality_targets(func@, b, v, c),
{
    let (cond, t, e) = as_branch(func, b)?;
    let (op, lhs, rhs) = as_compare(func, cond)?;
    if op != CompareOp::Eq {
        return None;
    }
    if (lhs == v && is_i32(func, rhs, c)) || (rhs == v && is_i32(func, lhs, c)) {
        Some((t, e))
    } else {
        None
    }
}

fn is_i32(func: &Function, v: ValueId, c: i32) -> (r: bool)
    ensures
        r == (util::const_i32_of(func@, v) == Some(c)),
{
    match const_i32(func, v) {
        Some(x) => x == c,
        None => false,
    }
}

/// The value is the lowest bit of the state.
pub open spec fn is_parity(f: FuncView, v: ValueId, state: ValueId) -> bool {
    match patterns::binary_of(f, v) {
        Some((BinaryOp::Iand, lhs, rhs)) => (lhs == state && util::const_i32_of(f, rhs) == Some(
            1i32,
        )) || (rhs == state && util::const_i32_of(f, lhs) == Some(1i32)),
        Some((BinaryOp::Imod, lhs, rhs)) => lhs == state && util::const_i32_of(f, rhs) == Some(2i32),
        _ => false,
    }
}

fn masks_parity(func: &Function, v: ValueId, state: ValueId) -> (r: bool)
    ensures
        r == is_parity(func@, v, state),
{
    match as_binary(func, v) {
        Some((BinaryOp::Iand, lhs, rhs)) => (lhs == state && is_i32(func, rhs, 1)) || (rhs == state
            && is_i32(func, lhs, 1)),
        Some((BinaryOp::Imod, lhs, rhs)) => lhs == state && is_i32(func, rhs, 2),
        _ => false,
    }
}

/// The targets for even and for odd states.
pub open spec fn parity_targets(f: FuncView, b: BlockId, state: ValueId) -> Option<
    (BlockId, BlockId),
> {
    match patterns::branch_of(f, b) {
        Some((cond, t, e)) => match patterns::compare_of(f, cond) {
            Some((CompareOp::Eq, lhs, rhs)) => {
                let (masked, zero) = if util::const_i32_of(f, rhs) == Some(0i32) {
                    (lhs, rhs)
                } else {
                    (rhs, lhs)
                };
                if util::const_i32_of(f, zero) == Some(0i32) && is_parity(f, masked, state) {
                    Some((t, e))
                } else {
                    None
                }
            },
            _ => None,
        },
        None => None,
    }
}

fn parity_branch(func: &Function, b: BlockId, state: ValueId) -> (r: Option<(BlockId, BlockId)>)
    ensures
        r == parity_targets(func@, b, state),
{
    let (cond, t, e) = as_branch(func, b)?;
    let (op, lhs, rhs) = as_compare(func, cond)?;
    if op != CompareOp::Eq {
        return None;
    }
    let (masked, zero) = if is_i32(func, rhs, 0) {
        (lhs, rhs)
    } else {
        (rhs, lhs)
    };
    if is_i32(func, zero, 0) && masks_parity(func, masked, state) {
        Some((t, e))
    } else {
        None
    }
}

/// The global, and its address, that the load that defines `v` reads.
pub open spec fn global_loaded(f: FuncView, v: ValueId) -> Option<(ValueId, Seq<char>)> {
    match patterns::load_of(f, v) {
        Some(ptr) => if f.has_value(ptr) {
            match f.value(ptr).kind {
                ValueKindView::Global(name) => Some((ptr, name)),
                _ => None,
            }
        } else {
            None
        },
        None => None,
    }
}

pub open spec fn pair_view(r: Option<(ValueId, String)>) -> Option<(ValueId, Seq<char>)> {
    match r {
        Some((v, name)) => Some((v, name@)),
        None => None,
    }
}

pub fn loaded_global(func: &Function, v: ValueId) -> (r: Option<(ValueId, String)>)
    ensures
        pair_view(r) == global_loaded(func@, v),
{
    let ptr = as_load(func, v)?;
    if ptr.0 >= func.values.len() {
        return None;
    }
    assert(func@.value(ptr) == func.values@[ptr.0 as int]@);
    match &func.values[ptr.0].kind {
        ValueKind::Global(name) => Some((ptr, name.clone())),
        _ => None,
    }
}

/// The targets of the test of `multiplier * state + 1` against the limit, and
/// the global that holds the limit.
pub open spec fn bounded_targets(f: FuncView, b: BlockId, state: ValueId, multiplier: i32) -> Option<
    (BlockId, BlockId, Seq<char>),
> {
    match patterns::branch_of(f, b) {
        Some((cond, t, e)) => match patterns::compare_of(f, cond) {
            Some((CompareOp::Le, lhs, rhs)) => if affine_of(f, lhs, state) == Some(
                (multiplier, 1i32),
            ) {
                match global_loaded(f, rhs) {
                    Some((_, name)) => Some((t, e, name)),
                    None => None,
                }
            } else {
                None
            },
            _ => None,
        },
        None => None,
    }
}

pub open spec fn triple_view(r: Option<(BlockId, BlockId, String)>) -> Option<
    (BlockId, BlockId, Seq<char>),
> {
    match r {
        Some((t, e, name)) => Some((t, e, name@)),
        None => None,
    }
}

fn is_affine(func: &Function, v: ValueId, base: ValueId, a: i32, b: i32) -> (r: bool)
    ensures
        r == (affine_of(func@, v, base) == Some((a, b))),
{
    match affine_from(func, v, base) {
        Some((x, y)) => x == a && y == b,
        None => false,
    }
}

fn bounded_affine_branch(func: &Function, b: BlockId, state: ValueId, multiplier: i32) -> (r: Option<
    (BlockId, BlockId, String),
>)
    ensures
        triple_view(r) == bounded_targets(func@, b, state, multiplier),
{
    let (cond, t, e) = as_branch(func, b)?;
    let (op, lhs, rhs) = as_compare(func, cond)?;
    if op != CompareOp::Le || !is_affine(func, lhs, state, multiplier, 1) {
        return None;
    }
    let (_, name) = loaded_global(func, rhs)?;
    Some((t, e, name))
}

/// How the state changes along an edge back to the header.
#[derive(Clone, Copy, PartialEq, Eq, Structural)]
pub enum Transition {
    Half,
    Affine(i32),
}

pub open spec fn state_changes(f: FuncView, next: ValueId, state: ValueId, expected: Transition) -> bool {
    match expected {
        Transition::Half => match patterns::binary_of(f, next) {
            Some((BinaryOp::Idiv, lhs, rhs)) => lhs == state && util::const_i32_of(f, rhs) == Some(
                2i32,
            ),
            _ => false,
        },
        Transition::Affine(multiplier) => affine_of(f, next, state) == Some((multiplier, 1i32)),
    }
}

/// Block `pred` goes back to the header with the expected change of the state
/// and one more step.
pub open spec fn is_transition(
    f: FuncView,
    header: BlockId,
    state: ValueId,
    depth: ValueId,
    pred: BlockId,
    expected: Transition,
) -> bool {
    &&& query::jump_of(f, pred) == Some(header)
    &&& util::phi_incoming_of(f, state, pred) matches Some(next_state)
    &&& util::phi_incoming_of(f, depth, pred) matches Some(next_depth)
    &&& state_changes(f, next_state, state, expected)
    &&& affine_of(f, next_depth, depth) == Some((1i32, 1i32))
}

fn state_matches(func: &Function, next: ValueId, state: ValueId, expected: Transition) -> (r: bool)
    ensures
        r == state_changes(func@, next, state, expected),
{
    match expected {
        Transition::Half => match as_binary(func, next) {
            Some((BinaryOp::Idiv, lhs, rhs)) => lhs == state && is_i32(func, rhs, 2),
            _ => false,
        },
        Transition::Affine(multiplier) => is_affine(func, next, state, multiplier, 1),
    }
}

fn jumps_to(func: &Function, b: BlockId, target: BlockId) -> (r: bool)
    requires
        func@.has_block(b),
    ensures
        r == (query::jump_of(func@, b) == Some(target)),
{
    match jump_target(func, b) {
        Some(t) => t == target,
        None => false,
    }
}

fn transition_matches(
    func: &Function,
    header: BlockId,
    state: ValueId,
    depth: ValueId,
    pred: BlockId,
    expected: Transition,
) -> (r: bool)
    requires
        func@.has_block(pred),
    ensures
        r == is_transition(func@, header, state, depth, pred, expected),
{
    if !jumps_to(func, pred, header) {
        return false;
    }
    match (phi_incoming(func, state, pred), phi_incoming(func, depth, pred)) {
        (Some(next_state), Some(next_depth)) => state_matches(func, next_state, state, expected)
            && is_affine(func, next_depth, depth, 1, 1),
        _ => false,
    }
}

/// The incoming list of the phi.
pub open spec fn entries_of(f: FuncView, v: ValueId) -> Option<Seq<(BlockId, ValueId)>> {
    match util::def_kind(f, v) {
        Some(KindView::Phi { incomings }) => Some(incomings),
        _ => None,
    }
}

/// The entry starts the depth at zero on the edge from `pred`.
pub open spec fn starts_at_zero(f: FuncView, entry: (BlockId, ValueId), pred: BlockId) -> bool {
    entry.0 == pred && util::const_i32_of(f, entry.1) == Some(0i32)
}

/// Entry `i` starts the state at the parameter, and entry `j` the depth at
/// zero on the same edge.
pub open spec fn start_pair(
    f: FuncView,
    states: Seq<(BlockId, ValueId)>,
    depths: Seq<(BlockId, ValueId)>,
    i: int,
    j: int,
) -> bool {
    &&& 0 <= i < states.len()
    &&& 0 <= j < depths.len()
    &&& states[i].1 == f.params[0]
    &&& starts_at_zero(f, depths[j], states[i].0)
}

/// On some edge the state starts at the parameter and the depth at zero.
pub open spec fn starts_at_parameter(f: FuncView, state: ValueId, depth: ValueId) -> bool {
    match (entries_of(f, state), entries_of(f, depth)) {
        (Some(states), Some(depths)) => exists|i: int, j: int| #[trigger]
            start_pair(f, states, depths, i, j),
        _ => false,
    }
}

#[verifier::loop_isolation(false)]
fn initial_state_matches(func: &Function, state: ValueId, depth: ValueId) -> (r: bool)
    requires
        func@.params.len() > 0,
    ensures
        r == starts_at_parameter(func@, state, depth),
{
    let ghost f = func@;
    let states = match defining_inst(func, state) {
        Some(InstKind::Phi { incomings }) => incomings,
        _ => return false,
    };
    let depths = match defining_inst(func, depth) {
        Some(InstKind::Phi { incomings }) => incomings,
        _ => return false,
    };
    let n = states.len();
    let m = depths.len();
    for i in 0..n
        invariant
            forall|x: int, y: int|
                0 <= x < i ==> !(#[trigger] start_pair(f, states@, depths@, x, y)),
    {
        if states[i].1 == func.params[0] {
            for j in 0..m
                invariant
                    forall|y: int|
                        0 <= y < j ==> !(#[trigger] start_pair(
                            f,
                            states@,
                            depths@,
                            i as int,
                            y,
                        )),
            {
                if depths[j].0 == states[i].0 && is_i32(func, depths[j].1, 0) {
                    assert(start_pair(f, states@, depths@, i as int, j as int));
                    assert(entries_of(f, state)->0 == states@);
                    assert(entries_of(f, depth)->0 == depths@);
                    assert(starts_at_parameter(f, state, depth));
                    return true;
                }
            }
        }
    }
    false
}

// ---------------------------------------------------------------------------
// The recurrence
// ---------------------------------------------------------------------------

/// The recurrence with the given state and depth at the header.
pub open spec fn recurrence_with(f: FuncView, header: BlockId, state: ValueId, depth: ValueId) -> Option<
    RecurrenceView,
> {
    match equality_targets(f, header, state, 1) {
        Some((success, parity)) => if returned(f, success) != Some(depth) {
            None
        } else {
            match parity_targets(f, parity, state) {
                Some((even, odd_three)) => match bounded_targets(f, odd_three, state, 3) {
                    Some((three, odd_four, limit)) => if !is_transition(
                        f,
                        header,
                        state,
                        depth,
                        even,
                        Transition::Half,
                    ) || !is_transition(
                        f,
                        header,
                        state,
                        depth,
                        three,
                        Transition::Affine(3),
                    ) || !starts_at_parameter(f, state, depth) {
                        None
                    } else if returned_constant(f, odd_four) == Some(0i32) {
                        Some(
                            RecurrenceView { limit_global: limit, kind: RecurrenceKind::ThreeOnly },
                        )
                    } else {
                        four_step(f, header, state, depth, odd_four, limit)
                    },
                    None => None,
                },
                None => None,
            }
        },
        None => None,
    }
}

/// The rest of a recurrence that tries four times the state plus one.
pub open spec fn four_step(
    f: FuncView,
    header: BlockId,
    state: ValueId,
    depth: ValueId,
    odd_four: BlockId,
    limit: Seq<char>,
) -> Option<RecurrenceView> {
    match bounded_targets(f, odd_four, state, 4) {
        Some((four, failure, second)) => if limit == second && returned_constant(f, failure)
            == Some(7i32) && is_transition(f, header, state, depth, four, Transition::Affine(4)) {
            Some(RecurrenceView { limit_global: limit, kind: RecurrenceKind::ThreeThenFour })
        } else {
            None
        },
        None => None,
    }
}

/// The recurrence that the loop runs.
pub open spec fn loop_recurrence(f: FuncView, l: LoopView) -> Option<RecurrenceView> {
    let phis = patterns::phi_results(f, l.header);
    if phis.len() != 2 {
        None
    } else {
        match recurrence_with(f, l.header, phis[0], phis[1]) {
            Some(r) => Some(r),
            None => recurrence_with(f, l.header, phis[1], phis[0]),
        }
    }
}

/// The first recurrence among the loops from `k` on.
pub open spec fn first_recurrence(f: FuncView, list: Seq<LoopView>, k: int) -> Option<RecurrenceView>
    decreases list.len() - k,
{
    if k < 0 || k >= list.len() {
        None
    } else {
        match loop_recurrence(f, list[k]) {
            Some(r) => Some(r),
            None => first_recurrence(f, list, k + 1),
        }
    }
}

/// The instruction writes memory or calls.
pub open spec fn has_effect(inst: InstView) -> bool {
    inst.kind is Store || inst.kind is MemZero || inst.kind is MemCopy || inst.kind is Call
}

/// The function takes two numbers, returns one, and has no effects.
pub open spec fn is_pure_pair(f: FuncView) -> bool {
    &&& f.ret == Type::I32
    &&& f.params.len() == 2
    &&& f.value(f.params[0]).ty == Type::I32
    &&& f.value(f.params[1]).ty == Type::I32
    &&& forall|b: BlockId, i: int| f.has_inst(b, i) ==> !has_effect(#[trigger] f.inst(b, i))
}

/// The recurrence that the function computes.
pub open spec fn recurrence_of(f: FuncView) -> Option<RecurrenceView> {
    if is_pure_pair(f) {
        first_recurrence(f, loops::loops_of(f), 0)
    } else {
        None
    }
}

proof fn lemma_branch_targets(f: FuncView, b: BlockId)
    requires
        f.wf(),
    ensures
        patterns::branch_of(f, b) matches Some((_, t, e)) ==> f.has_block(t) && f.has_block(e),
{
    if f.has_block(b) {
        query::lemma_terminator_wf(f, b);
    }
}

fn match_four_step(
    func: &Function,
    header: BlockId,
    state: ValueId,
    depth: ValueId,
    odd_four: BlockId,
    limit: &String,
) -> (r: Option<RecurrenceSpec>)
    requires
        func@.wf(),
    ensures
        option_view(r) == four_step(func@, header, state, depth, odd_four, limit@),
{
    let (four, failure, second) = bounded_affine_branch(func, odd_four, state, 4)?;
    proof {
        lemma_branch_targets(func@, odd_four);
    }
    let failed = match returned_const(func, failure) {
        Some(c) => c == 7,
        None => false,
    };
    if *limit == second && failed && transition_matches(
        func,
        header,
        state,
        depth,
        four,
        Transition::Affine(4),
    ) {
        Some(RecurrenceSpec { limit_global: second, kind: RecurrenceKind::ThreeThenFour })
    } else {
        None
    }
}

fn match_recurrence(func: &Function, header: BlockId, state: ValueId, depth: ValueId) -> (r: Option<
    RecurrenceSpec,
>)
    requires
        func@.wf(),
        func@.params.len() > 0,
    ensures
        option_view(r) == recurrence_with(func@, header, state, depth),
{
    let (success, parity) = eq_branch_targets(func, header, state, 1)?;
    match returned_value(func, success) {
        Some(v) => if v != depth {
            return None;
        },
        None => return None,
    }
    let (even, odd_three) = parity_branch(func, parity, state)?;
    let (three, odd_four, limit) = bounded_affine_branch(func, odd_three, state, 3)?;
    proof {
        lemma_branch_targets(func@, parity);
        lemma_branch_targets(func@, odd_three);
    }
    if !transition_matches(func, header, state, depth, even, Transition::Half)
        || !transition_matches(func, header, state, depth, three, Transition::Affine(3))
        || !initial_state_matches(func, state, depth) {
        return None;
    }
    match returned_const(func, odd_four) {
        Some(0) => Some(
            RecurrenceSpec { limit_global: limit, kind: RecurrenceKind::ThreeOnly },
        ),
        _ => match_four_step(func, header, state, depth, odd_four, &limit),
    }
}

#[verifier::loop_isolation(false)]
fn is_pure(func: &Function) -> (r: bool)
    requires
        func@.wf(),
    ensures
        r == is_pure_pair(func@),
{
    let ghost f = func@;
    if !func.ret.same(&Type::I32) || func.params.len() != 2 {
        return false;
    }
    assert(func.values.len() == f.values.len());
    assert(f.has_value(f.params[0]) && f.has_value(f.params[1]));
    assert(func.values@[f.params[0].0 as int]@ == f.value(f.params[0]));
    assert(func.values@[f.params[1].0 as int]@ == f.value(f.params[1]));
    if !func.values[func.params[0].0].ty.same(&Type::I32) || !func.values[func.params[1].0].ty.same(
        &Type::I32,
    ) {
        return false;
    }
    let n = func.blocks.len();
    for x in 0..n
        invariant
            n == f.blocks.len(),
            forall|b: BlockId, i: int|
                b.0 < x && f.has_inst(b, i) ==> !has_effect(#[trigger] f.inst(b, i)),
    {
        let ghost b = BlockId(x);
        let m = func.blocks[x].insts.len();
        for i in 0..m
            invariant
                m == f.block(b).insts.len(),
                forall|j: int| 0 <= j < i ==> !has_effect(#[trigger] f.inst(b, j)),
        {
            let inst = &func.blocks[x].insts[i];
            assert(inst@ == f.inst(b, i as int));
            let effect = match inst.kind {
                InstKind::Store { .. } => true,
                InstKind::MemZero { .. } => true,
                InstKind::MemCopy { .. } => true,
                InstKind::Call { .. } => true,
                _ => false,
            };
            if effect {
                assert(f.has_inst(b, i as int) && has_effect(f.inst(b, i as int)));
                return false;
            }
        }
    }
    true
}

fn match_loop(func: &Function, l: &NaturalLoop) -> (r: Option<RecurrenceSpec>)
    requires
        func@.wf(),
        func@.params.len() > 0,
        func@.has_block(l.header),
    ensures
        option_view(r) == loop_recurrence(func@, l@),
{
    let phis = collect_phi_results(func, l.header);
    if phis.len() != 2 {
        return None;
    }
    match match_recurrence(func, l.header, phis[0], phis[1]) {
        Some(r) => Some(r),
        None => match_recurrence(func, l.header, phis[1], phis[0]),
    }
}

/// Recognizes the recurrence that the function computes.
pub fn recognize_recurrence(func: &Function) -> (r: Option<RecurrenceSpec>)
    requires
        func@.wf(),
    ensures
        option_view(r) == recurrence_of(func@),
{
    if !is_pure(func) {
        return None;
    }
    let graph = ControlFlowGraph::new(func);
    let dom = Dominators::new(func, &graph);
    let info = LoopInfo::new(func, &graph, &dom);
    let list = info.loops();
    let ghost views = loops::loops_of(func@);
    let n = list.len();
    assert(func.blocks.len() == func@.blocks.len());
    for k in 0..n
        invariant
            n == list.len(),
            func@.wf(),
            func@.blocks.len() <= usize::MAX,
            func@.params.len() > 0,
            views == loops::loops_of(func@),
            views == loops::loops_view(list@),
            first_recurrence(func@, views, 0) == first_recurrence(func@, views, k as int),
            recurrence_of(func@) == first_recurrence(func@, views, 0),
    {
        proof {
            assert(views[k as int] == list@[k as int]@);
            loops::lemma_listed_loop(func@, k as int);
        }
        if let Some(r) = match_loop(func, &list[k]) {
            return Some(r);
        }
    }
    None
}

} // verus!
