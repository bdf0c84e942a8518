//! If-conversion: small branches that only select a value become arithmetic.
use vstd::prelude::*;

use crate::cfg;
use crate::cfg::{ControlFlowGraph, Dominators};
use crate::edit;
use crate::ir::{
    BinaryOp, BlockId, CastOp, FuncView, Function, InstKind, KindView, Terminator, Type, UnaryOp,
    ValueId,
};
use crate::query;
use crate::query::{
    active_insts, const_bool, has_type, jump_target, leading_phis, only_pred, preds_of,
    terminator_of, unique_incoming, value_available_at_block, value_use_counts,
    values_available_at_block,
};
use crate::util;
use crate::util::{rewrite_function_uses, ValueMap};
use crate::verify;
use crate::verify::contains_block;

verus! {

/// The most conversions that are tried in one go.
pub const MAX_IF_CONVERSIONS: usize = 64;

/// A boolean operation that may be computed where it is not needed.
pub open spec fn speculatable(kind: KindView) -> bool {
    match kind {
        KindView::Unary { op, .. } => op == UnaryOp::Not,
        KindView::Binary { op, .. } => op == BinaryOp::And || op == BinaryOp::Or,
        KindView::ICompare { .. } => true,
        KindView::Cast { op, .. } => op == CastOp::I32ToBool,
        _ => false,
    }
}

/// Whether a boolean operation may be computed where it is not needed.
pub fn is_speculatable_bool_inst(kind: &InstKind) -> (r: bool)
    ensures
        r == speculatable(kind@),
{
    match kind {
        InstKind::Unary { op, .. } => *op == UnaryOp::Not,
        InstKind::Binary { op, .. } => *op == BinaryOp::And || *op == BinaryOp::Or,
        InstKind::ICompare { .. } => true,
        InstKind::Cast { op, .. } => *op == CastOp::I32ToBool,
        _ => false,
    }
}

/// The pairs of a block and a phi that were tried in vain.
pub open spec fn was_rejected(rejected: Seq<(usize, usize)>, b: usize, phi: usize) -> bool {
    rejected.contains((b, phi))
}

fn is_rejected(rejected: &Vec<(usize, usize)>, b: usize, phi: usize) -> (r: bool)
    ensures
        r == was_rejected(rejected@, b, phi),
{
    let n = rejected.len();
    for k in 0..n
        invariant
            n == rejected.len(),
            forall|j: int| 0 <= j < k ==> #[trigger] rejected@[j] != (b, phi),
    {
        if rejected[k].0 == b && rejected[k].1 == phi {
            assert(rejected@[k as int] == (b, phi));
            return true;
        }
    }
    false
}

/// Replacing all uses of `v` by `w`.
pub open spec fn replaced(f: FuncView, v: ValueId, w: ValueId) -> FuncView {
    util::map_uses(
        f,
        util::resolver(Map::<ValueId, ValueId>::empty().insert(v, w), f.values.len()),
    )
}

/// Replaces all uses of `v` by `w`.
pub fn replace_all_uses(func: &mut Function, v: ValueId, w: ValueId)
    requires
        v.0 < usize::MAX,
    ensures
        final(func)@ == replaced(old(func)@, v, w),
        old(func)@.wf() && old(func)@.has_value(w) ==> final(func)@.wf(),
{
    let mut map = ValueMap::new();
    map.insert(v, w);
    rewrite_function_uses(func, &map);
}

// ---------------------------------------------------------------------------
// Short-circuit booleans
// ---------------------------------------------------------------------------

/// A phi that takes a constant straight from a branch, and otherwise a
/// boolean computed in a block of its own.
#[derive(Clone, Copy)]
pub struct ShortCircuit {
    pub direct: BlockId,
    pub cond: ValueId,
    pub rhs_block: BlockId,
    pub rhs_at: usize,
    pub merge: BlockId,
    pub phi_at: usize,
    pub phi: ValueId,
    pub direct_when_true: bool,
    pub constant: bool,
}

/// The short circuit in which entry `k` of the phi is the constant.
pub open spec fn short_circuit_entry(
    f: FuncView,
    m: BlockId,
    phi_at: usize,
    phi: ValueId,
    incomings: Seq<(BlockId, ValueId)>,
    k: int,
) -> Option<ShortCircuit> {
    let (direct, c) = incomings[k];
    let (rhs_block, rhs) = incomings[1 - k];
    match (query::bool_of(f, c), f.terminator(direct)) {
        (Some(constant), Some(Terminator::Branch { cond, then_target, else_target })) => {
            let at = query::active(f, rhs_block);
            let when_true = then_target == m && else_target == rhs_block;
            let when_false = else_target == m && then_target == rhs_block;
            if rhs_block != direct && cfg::preds(f, m).len() == 2 && cfg::preds(f, m).contains(
                direct,
            ) && cfg::preds(f, m).contains(rhs_block) && cfg::preds(f, rhs_block) == seq![direct]
                && query::jump_of(f, rhs_block) == Some(m) && (when_true || when_false) && at.len()
                == 1 && f.inst(rhs_block, at[0] as int).result == Some(rhs) && f.value(rhs).ty
                == Type::I1 && query::uses(f, rhs) == 1 && speculatable(
                f.inst(rhs_block, at[0] as int).kind,
            ) && query::all_available_at(
                f,
                edit::operands(f.inst(rhs_block, at[0] as int).kind),
                direct,
            ) {
                Some(
                    ShortCircuit {
                        direct,
                        cond,
                        rhs_block,
                        rhs_at: at[0],
                        merge: m,
                        phi_at,
                        phi,
                        direct_when_true: when_true,
                        constant,
                    },
                )
            } else {
                None
            }
        },
        _ => None,
    }
}

/// The short circuit that block `m` merges.
pub open spec fn short_circuit_at(
    f: FuncView,
    m: BlockId,
    rejected: Seq<(usize, usize)>,
) -> Option<ShortCircuit> {
    let at = query::active(f, m);
    if at.len() == 1 && !was_rejected(rejected, m.0, at[0]) {
        match (f.inst(m, at[0] as int).result, f.inst(m, at[0] as int).kind) {
            (Some(phi), KindView::Phi { incomings }) => if f.value(phi).ty == Type::I1
                && query::uses(f, phi) == 1 && incomings.len() == 2 {
                match short_circuit_entry(f, m, at[0], phi, incomings, 0) {
                    Some(c) => Some(c),
                    None => short_circuit_entry(f, m, at[0], phi, incomings, 1),
                }
            } else {
                None
            },
            _ => None,
        }
    } else {
        None
    }
}

pub open spec fn first_short_circuit(
    f: FuncView,
    m: int,
    rejected: Seq<(usize, usize)>,
) -> Option<ShortCircuit>
    decreases f.blocks.len() - m,
{
    if m < 0 || m >= f.blocks.len() {
        None
    } else {
        match short_circuit_at(f, BlockId(m as usize), rejected) {
            Some(c) => Some(c),
            None => first_short_circuit(f, m + 1, rejected),
        }
    }
}

/// The operation that combines the condition with the computed boolean, and
/// whether the condition is negated first.
pub open spec fn short_circuit_op(direct_when_true: bool, constant: bool) -> (BinaryOp, bool) {
    match (direct_when_true, constant) {
        (true, true) => (BinaryOp::Or, false),
        (false, false) => (BinaryOp::And, false),
        (true, false) => (BinaryOp::And, true),
        (false, true) => (BinaryOp::Or, true),
    }
}

/// The function with the condition of `c` negated in front of the branch if
/// that is needed.
pub open spec fn with_condition(f: FuncView, c: ShortCircuit) -> (FuncView, ValueId) {
    if short_circuit_op(c.direct_when_true, c.constant).1 {
        (
            f.append(
                c.direct,
                KindView::Unary { op: UnaryOp::Not, value: c.cond },
                Type::I1,
            ),
            f.next_value(),
        )
    } else {
        (f, c.cond)
    }
}

/// The function with the value of the phi computed in front of the branch.
pub open spec fn short_circuit_computed(f: FuncView, c: ShortCircuit) -> (FuncView, ValueId) {
    let rhs = f.next_value();
    let f1 = f.append(c.direct, f.inst(c.rhs_block, c.rhs_at as int).kind, Type::I1);
    let (f2, lhs) = with_condition(f1, c);
    (
        f2.append(
            c.direct,
            KindView::Binary { op: short_circuit_op(c.direct_when_true, c.constant).0, lhs, rhs },
            Type::I1,
        ),
        f2.next_value(),
    )
}

/// The function with the short circuit `c` computed without a branch.
pub open spec fn short_circuit_converted(f: FuncView, c: ShortCircuit) -> FuncView {
    let (g, combined) = short_circuit_computed(f, c);
    let h = g.with_terminator(c.direct, Some(Terminator::Jump(c.merge))).with_inst(
        c.rhs_block,
        c.rhs_at as int,
        edit::nop(),
    ).with_inst(c.merge, c.phi_at as int, edit::nop());
    replaced(h, c.phi, combined)
}

/// Converts short circuits until none is left or the attempts are used up. A
/// conversion that would not be valid is skipped.
pub open spec fn short_circuits(
    f: FuncView,
    rejected: Seq<(usize, usize)>,
    attempts: int,
    changed: bool,
) -> (FuncView, bool)
    decreases MAX_IF_CONVERSIONS - attempts,
{
    if attempts >= MAX_IF_CONVERSIONS {
        (f, changed)
    } else {
        match first_short_circuit(f, 0, rejected) {
            None => (f, changed),
            Some(c) => {
                let g = short_circuit_converted(f, c);
                if verify::valid(g) {
                    short_circuits(g, rejected, attempts + 1, true)
                } else {
                    short_circuits(
                        f,
                        rejected.push((c.merge.0, c.phi_at)),
                        attempts + 1,
                        changed,
                    )
                }
            },
        }
    }
}

/// The parts of the conversion exist.
pub open spec fn short_circuit_in(f: FuncView, c: ShortCircuit) -> bool {
    &&& f.has_block(c.direct)
    &&& f.has_inst(c.rhs_block, c.rhs_at as int)
    &&& f.has_inst(c.merge, c.phi_at as int)
    &&& f.has_value(c.phi)
}

#[verifier::rlimit(30)]
fn find_short_circuit_entry(
    func: &Function,
    graph: &ControlFlowGraph,
    dom: &Dominators,
    use_counts: &Vec<usize>,
    m: BlockId,
    phi_at: usize,
    phi: ValueId,
    incomings: &Vec<(BlockId, ValueId)>,
    k: usize,
) -> (r: Option<ShortCircuit>)
    requires
        func@.wf(),
        graph.of(func@),
        dom.of(func@),
        func@.has_inst(m, phi_at as int),
        func@.has_value(phi),
        incomings.len() == 2,
        k < 2,
        edit::incomings_wf(incomings@, func@.blocks.len(), func@.values.len()),
        use_counts.len() == func@.values.len(),
        forall|v: ValueId|
            func@.has_value(v) ==> query::counts(
                #[trigger] use_counts@[v.0 as int],
                query::uses(func@, v),
            ),
    ensures
        r == short_circuit_entry(func@, m, phi_at, phi, incomings@, k as int),
        r matches Some(c) ==> short_circuit_in(func@, c),
{
    let ghost f = func@;
    let (direct, c) = (incomings[k].0, incomings[k].1);
    let (rhs_block, rhs) = (incomings[1 - k].0, incomings[1 - k].1);
    assert(incomings@[k as int].0.0 < f.blocks.len());
    assert(incomings@[1 - k].0.0 < f.blocks.len());
    proof {
        query::lemma_terminator_wf(f, direct);
    }
    let constant = const_bool(func, c)?;
    if let Some(Terminator::Branch { cond, then_target, else_target }) = func.blocks[direct.0].terminator {
        let preds = preds_of(func, graph, m);
        let when_true = then_target == m && else_target == rhs_block;
        let when_false = else_target == m && then_target == rhs_block;
        if rhs_block == direct || preds.len() != 2 || !contains_block(preds, direct)
            || !contains_block(preds, rhs_block) || !only_pred(func, graph, rhs_block, direct)
            || !(when_true || when_false) {
            return None;
        }
        match jump_target(func, rhs_block) {
            Some(t) => {
                if t != m {
                    return None;
                }
            },
            None => {
                return None;
            },
        }
        let at = active_insts(func, rhs_block);
        if at.len() != 1 {
            return None;
        }
        let rhs_at = at[0];
        let inst = &func.blocks[rhs_block.0].insts[rhs_at];
        assert(inst@ == f.inst(rhs_block, rhs_at as int));
        assert(query::counts(use_counts@[rhs.0 as int], query::uses(f, rhs)));
        if inst.result != Some(rhs) || !has_type(func, rhs, &Type::I1) || use_counts[rhs.0] != 1
            || !is_speculatable_bool_inst(&inst.kind) {
            return None;
        }
        let reads = edit::inst_operands(&inst.kind);
        proof {
            query::lemma_inst_wf(f, rhs_block, rhs_at as int);
            verify::lemma_kind_wf_operands(inst@.kind, f.blocks.len(), f.values.len());
        }
        if !values_available_at_block(func, dom, &reads, direct) {
            return None;
        }
        return Some(
            ShortCircuit {
                direct,
                cond,
                rhs_block,
                rhs_at,
                merge: m,
                phi_at,
                phi,
                direct_when_true: when_true,
                constant,
            },
        );
    }
    None
}

fn find_short_circuit(
    func: &Function,
    graph: &ControlFlowGraph,
    dom: &Dominators,
    use_counts: &Vec<usize>,
    m: BlockId,
    rejected: &Vec<(usize, usize)>,
) -> (r: Option<ShortCircuit>)
    requires
        func@.wf(),
        graph.of(func@),
        dom.of(func@),
        func@.has_block(m),
        use_counts.len() == func@.values.len(),
        forall|v: ValueId|
            func@.has_value(v) ==> query::counts(
                #[trigger] use_counts@[v.0 as int],
                query::uses(func@, v),
            ),
    ensures
        r == short_circuit_at(func@, m, rejected@),
        r matches Some(c) ==> short_circuit_in(func@, c),
{
    let ghost f = func@;
    let at = active_insts(func, m);
    if at.len() != 1 || is_rejected(rejected, m.0, at[0]) {
        return None;
    }
    let phi_at = at[0];
    let inst = &func.blocks[m.0].insts[phi_at];
    assert(inst@ == f.inst(m, phi_at as int));
    proof {
        query::lemma_inst_wf(f, m, phi_at as int);
    }
    if let (Some(phi), InstKind::Phi { incomings }) = (inst.result, &inst.kind) {
        assert(query::counts(use_counts@[phi.0 as int], query::uses(f, phi)));
        if !has_type(func, phi, &Type::I1) || use_counts[phi.0] != 1 || incomings.len() != 2 {
            return None;
        }
        let first = find_short_circuit_entry(
            func,
            graph,
            dom,
            use_counts,
            m,
            phi_at,
            phi,
            incomings,
            0,
        );
        if first.is_some() {
            return first;
        }
        return find_short_circuit_entry(
            func,
            graph,
            dom,
            use_counts,
            m,
            phi_at,
            phi,
            incomings,
            1,
        );
    }
    None
}

fn search_short_circuit(func: &Function, rejected: &Vec<(usize, usize)>) -> (r: Option<ShortCircuit>)
    requires
        func@.wf(),
    ensures
        r == first_short_circuit(func@, 0, rejected@),
        r matches Some(c) ==> short_circuit_in(func@, c),
{
    let graph = ControlFlowGraph::new(func);
    let dom = Dominators::new(func, &graph);
    let use_counts = value_use_counts(func);
    let n = func.blocks.len();
    for m in 0..n
        invariant
            n == func@.blocks.len(),
            func@.wf(),
            graph.of(func@),
            dom.of(func@),
            use_counts.len() == func@.values.len(),
            forall|v: ValueId|
                func@.has_value(v) ==> query::counts(
                    #[trigger] use_counts@[v.0 as int],
                    query::uses(func@, v),
                ),
            first_short_circuit(func@, 0, rejected@) == first_short_circuit(
                func@,
                m as int,
                rejected@,
            ),
    {
        let found = find_short_circuit(func, &graph, &dom, &use_counts, BlockId(m), rejected);
        if found.is_some() {
            return found;
        }
    }
    None
}

fn convert_short_circuit(func: &mut Function, c: ShortCircuit)
    requires
        short_circuit_in(old(func)@, c),
    ensures
        final(func)@ == short_circuit_converted(old(func)@, c),
{
    let ghost f = func@;
    assert(func.values.len() == f.values.len());
    let kind = func.blocks[c.rhs_block.0].insts[c.rhs_at].kind.clone();
    assert(kind@ == f.inst(c.rhs_block, c.rhs_at as int).kind);
    let rhs = func.append_value(c.direct, kind, Type::I1);
    let (op, negate) = match (c.direct_when_true, c.constant) {
        (true, true) => (BinaryOp::Or, false),
        (false, false) => (BinaryOp::And, false),
        (true, false) => (BinaryOp::And, true),
        (false, true) => (BinaryOp::Or, true),
    };
    let lhs = if negate {
        func.append_value(
            c.direct,
            InstKind::Unary { op: UnaryOp::Not, value: c.cond },
            Type::I1,
        )
    } else {
        c.cond
    };
    let combined = func.append_value(c.direct, InstKind::Binary { op, lhs, rhs }, Type::I1);
    func.set_terminator(c.direct, Terminator::Jump(c.merge));
    func.clear_inst(c.rhs_block, c.rhs_at);
    func.clear_inst(c.merge, c.phi_at);
    replace_all_uses(func, c.phi, combined);
}

/// Replaces branches that only short-circuit a boolean by `and` and `or`.
pub fn if_convert_short_circuit_booleans(func: &mut Function) -> (r: bool)
    requires
        old(func)@.wf(),
    ensures
        (final(func)@, r) == short_circuits(old(func)@, Seq::empty(), 0, false),
        final(func)@.wf(),
{
    let mut changed = false;
    let mut rejected: Vec<(usize, usize)> = Vec::new();
    let mut attempts: usize = 0;
    assert(rejected@ =~= Seq::<(usize, usize)>::empty());
    while attempts < MAX_IF_CONVERSIONS
        invariant
            func@.wf(),
            attempts <= MAX_IF_CONVERSIONS,
            short_circuits(old(func)@, Seq::empty(), 0, false) == short_circuits(
                func@,
                rejected@,
                attempts as int,
                changed,
            ),
        decreases MAX_IF_CONVERSIONS - attempts,
    {
        match search_short_circuit(func, &rejected) {
            None => {
                return changed;
            },
            Some(c) => {
                attempts = attempts + 1;
                let before = func.clone();
                convert_short_circuit(func, c);
                if func.verify().is_err() {
                    *func = before;
                    rejected.push((c.merge.0, c.phi_at));
                } else {
                    changed = true;
                }
            },
        }
    }
    changed
}

// ---------------------------------------------------------------------------
// Conditional updates
// ---------------------------------------------------------------------------

/// A branch that decides whether `base` is changed by `delta`.
#[derive(Clone, Copy)]
pub struct ConditionalUpdate {
    pub block: BlockId,
    pub cond: ValueId,
    pub update_block: BlockId,
    pub update_at: usize,
    pub merge: BlockId,
    pub phi_at: usize,
    pub phi: ValueId,
    pub op: BinaryOp,
    pub base: ValueId,
    pub delta: ValueId,
    pub update_when_true: bool,
}

/// Where a branch updates and where it does not.
#[derive(Clone, Copy)]
pub struct UpdateShape {
    pub update_block: BlockId,
    pub idle: BlockId,
    pub update_at: usize,
    pub merge: BlockId,
    pub update_when_true: bool,
}

/// The shape of a branch with one arm that computes a single operation.
pub open spec fn update_shape(f: FuncView, b: BlockId, t: BlockId, e: BlockId) -> Option<
    UpdateShape,
> {
    let then_active = query::active(f, t);
    let else_active = query::active(f, e);
    if query::jump_of(f, t) == Some(e) {
        if then_active.len() == 1 && cfg::preds(f, t) == seq![b] {
            Some(
                UpdateShape {
                    update_block: t,
                    idle: b,
                    update_at: then_active[0],
                    merge: e,
                    update_when_true: true,
                },
            )
        } else {
            None
        }
    } else if query::jump_of(f, e) == Some(t) {
        if else_active.len() == 1 && cfg::preds(f, e) == seq![b] {
            Some(
                UpdateShape {
                    update_block: e,
                    idle: b,
                    update_at: else_active[0],
                    merge: t,
                    update_when_true: false,
                },
            )
        } else {
            None
        }
    } else if query::jump_of(f, t) is Some && query::jump_of(f, t) == query::jump_of(f, e)
        && cfg::preds(f, t) == seq![b] && cfg::preds(f, e) == seq![b] {
        let merge = query::jump_of(f, t)->0;
        if then_active.len() == 1 && else_active.len() == 0 {
            Some(
                UpdateShape {
                    update_block: t,
                    idle: e,
                    update_at: then_active[0],
                    merge,
                    update_when_true: true,
                },
            )
        } else if then_active.len() == 0 && else_active.len() == 1 {
            Some(
                UpdateShape {
                    update_block: e,
                    idle: t,
                    update_at: else_active[0],
                    merge,
                    update_when_true: false,
                },
            )
        } else {
            None
        }
    } else {
        None
    }
}

/// The update of shape `s`, if it adds to or subtracts from the value that
/// the phi takes otherwise.
pub open spec fn update_of(
    f: FuncView,
    b: BlockId,
    cond: ValueId,
    s: UpdateShape,
    rejected: Seq<(usize, usize)>,
) -> Option<ConditionalUpdate> {
    let inst = f.inst(s.update_block, s.update_at as int);
    let phis = query::leading_from(f.block(s.merge).insts, 0);
    match (inst.result, inst.kind) {
        (Some(result), KindView::Binary { op, lhs, rhs }) => if (op == BinaryOp::Iadd || op
            == BinaryOp::Isub) && query::uses(f, result) == 1 && f.value(lhs).ty == Type::I32
            && f.value(rhs).ty == Type::I32 && query::available_at(f, lhs, b)
            && query::available_at(f, rhs, b) && phis.len() == 1 && !was_rejected(
            rejected,
            b.0,
            phis[0],
        ) {
            match (f.inst(s.merge, phis[0] as int).result, f.inst(s.merge, phis[0] as int).kind) {
                (Some(phi), KindView::Phi { incomings }) => if incomings.len() == 2
                    && query::sole_incoming(incomings, s.update_block) == Some(result)
                    && query::sole_incoming(incomings, s.idle) == Some(lhs) {
                    Some(
                        ConditionalUpdate {
                            block: b,
                            cond,
                            update_block: s.update_block,
                            update_at: s.update_at,
                            merge: s.merge,
                            phi_at: phis[0],
                            phi,
                            op,
                            base: lhs,
                            delta: rhs,
                            update_when_true: s.update_when_true,
                        },
                    )
                } else {
                    None
                },
                _ => None,
            }
        } else {
            None
        },
        _ => None,
    }
}

/// The conditional update that block `b` decides on.
pub open spec fn update_at_block(f: FuncView, b: BlockId, rejected: Seq<(usize, usize)>) -> Option<
    ConditionalUpdate,
> {
    match f.terminator(b) {
        Some(Terminator::Branch { cond, then_target, else_target }) => if then_target
            != else_target && f.value(cond).ty == Type::I1 {
            match update_shape(f, b, then_target, else_target) {
                Some(s) => update_of(f, b, cond, s, rejected),
                None => None,
            }
        } else {
            None
        },
        _ => None,
    }
}

pub open spec fn first_update(f: FuncView, b: int, rejected: Seq<(usize, usize)>) -> Option<
    ConditionalUpdate,
>
    decreases f.blocks.len() - b,
{
    if b < 0 || b >= f.blocks.len() {
        None
    } else {
        match update_at_block(f, BlockId(b as usize), rejected) {
            Some(c) => Some(c),
            None => first_update(f, b + 1, rejected),
        }
    }
}

/// The function with the condition of `c` negated if the update happens when
/// it is false.
pub open spec fn with_selector(f: FuncView, c: ConditionalUpdate) -> (FuncView, ValueId) {
    if c.update_when_true {
        (f, c.cond)
    } else {
        (
            f.append(
                c.block,
                KindView::Unary { op: UnaryOp::Not, value: c.cond },
                Type::I1,
            ),
            f.next_value(),
        )
    }
}

/// The function with `base op delta * condition` computed in front of the
/// branch.
pub open spec fn update_computed(f: FuncView, c: ConditionalUpdate) -> (FuncView, ValueId) {
    let (f1, selector) = with_selector(f, c);
    let as_i32 = f1.next_value();
    let f2 = f1.append(
        c.block,
        KindView::Cast { op: CastOp::BoolToI32, value: selector },
        Type::I32,
    );
    let scaled = f2.next_value();
    let f3 = f2.append(
        c.block,
        KindView::Binary { op: BinaryOp::Imul, lhs: c.delta, rhs: as_i32 },
        Type::I32,
    );
    (
        f3.append(c.block, KindView::Binary { op: c.op, lhs: c.base, rhs: scaled }, Type::I32),
        f3.next_value(),
    )
}

/// The function with the update `c` computed without a branch.
pub open spec fn update_converted(f: FuncView, c: ConditionalUpdate) -> FuncView {
    let (g, selected) = update_computed(f, c);
    let h = g.with_terminator(c.block, Some(Terminator::Jump(c.merge))).with_inst(
        c.update_block,
        c.update_at as int,
        edit::nop(),
    ).with_inst(c.merge, c.phi_at as int, edit::nop());
    replaced(h, c.phi, selected)
}

/// Converts updates until none is left or the attempts are used up. A
/// conversion that would not be valid is skipped.
pub open spec fn updates(
    f: FuncView,
    rejected: Seq<(usize, usize)>,
    attempts: int,
    changed: bool,
) -> (FuncView, bool)
    decreases MAX_IF_CONVERSIONS - attempts,
{
    if attempts >= MAX_IF_CONVERSIONS {
        (f, changed)
    } else {
        match first_update(f, 0, rejected) {
            None => (f, changed),
            Some(c) => {
                let g = update_converted(f, c);
                if verify::valid(g) {
                    updates(g, rejected, attempts + 1, true)
                } else {
                    updates(f, rejected.push((c.block.0, c.phi_at)), attempts + 1, changed)
                }
            },
        }
    }
}

/// The parts of the conversion exist.
pub open spec fn update_in(f: FuncView, c: ConditionalUpdate) -> bool {
    &&& f.has_block(c.block)
    &&& f.has_inst(c.update_block, c.update_at as int)
    &&& f.has_inst(c.merge, c.phi_at as int)
    &&& f.has_value(c.phi)
}

fn find_update_shape(
    func: &Function,
    graph: &ControlFlowGraph,
    b: BlockId,
    t: BlockId,
    e: BlockId,
) -> (r: Option<UpdateShape>)
    requires
        func@.wf(),
        graph.of(func@),
        func@.has_block(b),
        func@.has_block(t),
        func@.has_block(e),
    ensures
        r == update_shape(func@, b, t, e),
        r matches Some(s) ==> func@.has_inst(s.update_block, s.update_at as int)
            && func@.has_block(s.merge),
{
    let then_active = active_insts(func, t);
    let else_active = active_insts(func, e);
    let then_jump = jump_target(func, t);
    let else_jump = jump_target(func, e);
    proof {
        query::lemma_terminator_wf(func@, t);
    }
    if then_jump == Some(e) {
        if then_active.len() != 1 || !only_pred(func, graph, t, b) {
            return None;
        }
        return Some(
            UpdateShape {
                update_block: t,
                idle: b,
                update_at: then_active[0],
                merge: e,
                update_when_true: true,
            },
        );
    }
    if else_jump == Some(t) {
        if else_active.len() != 1 || !only_pred(func, graph, e, b) {
            return None;
        }
        return Some(
            UpdateShape {
                update_block: e,
                idle: b,
                update_at: else_active[0],
                merge: t,
                update_when_true: false,
            },
        );
    }
    let merge = then_jump?;
    if else_jump != Some(merge) || !only_pred(func, graph, t, b) || !only_pred(func, graph, e, b) {
        return None;
    }
    if then_active.len() == 1 && else_active.len() == 0 {
        return Some(
            UpdateShape {
                update_block: t,
                idle: e,
                update_at: then_active[0],
                merge,
                update_when_true: true,
            },
        );
    }
    if then_active.len() == 0 && else_active.len() == 1 {
        return Some(
            UpdateShape {
                update_block: e,
                idle: t,
                update_at: else_active[0],
                merge,
                update_when_true: false,
            },
        );
    }
    None
}

fn find_update_of(
    func: &Function,
    dom: &Dominators,
    use_counts: &Vec<usize>,
    b: BlockId,
    cond: ValueId,
    s: UpdateShape,
    rejected: &Vec<(usize, usize)>,
) -> (r: Option<ConditionalUpdate>)
    requires
        func@.wf(),
        dom.of(func@),
        func@.has_block(b),
        func@.has_inst(s.update_block, s.update_at as int),
        func@.has_block(s.merge),
        use_counts.len() == func@.values.len(),
        forall|v: ValueId|
            func@.has_value(v) ==> query::counts(
                #[trigger] use_counts@[v.0 as int],
                query::uses(func@, v),
            ),
    ensures
        r == update_of(func@, b, cond, s, rejected@),
        r matches Some(c) ==> update_in(func@, c),
{
    let ghost f = func@;
    let inst = &func.blocks[s.update_block.0].insts[s.update_at];
    assert(inst@ == f.inst(s.update_block, s.update_at as int));
    proof {
        query::lemma_inst_wf(f, s.update_block, s.update_at as int);
    }
    let result = inst.result?;
    if let InstKind::Binary { op, lhs, rhs } = inst.kind {
        assert(query::counts(use_counts@[result.0 as int], query::uses(f, result)));
        if !(op == BinaryOp::Iadd || op == BinaryOp::Isub) || use_counts[result.0] != 1
            || !has_type(func, lhs, &Type::I32) || !has_type(func, rhs, &Type::I32)
            || !value_available_at_block(func, dom, lhs, b) || !value_available_at_block(
            func,
            dom,
            rhs,
            b,
        ) {
            return None;
        }
        let phis = leading_phis(func, s.merge);
        if phis.len() != 1 || is_rejected(rejected, b.0, phis[0]) {
            return None;
        }
        let phi_at = phis[0];
        let merged = &func.blocks[s.merge.0].insts[phi_at];
        assert(merged@ == f.inst(s.merge, phi_at as int));
        proof {
            query::lemma_inst_wf(f, s.merge, phi_at as int);
        }
        if let (Some(phi), InstKind::Phi { incomings }) = (merged.result, &merged.kind) {
            if incomings.len() == 2 && unique_incoming(incomings, s.update_block) == Some(result)
                && unique_incoming(incomings, s.idle) == Some(lhs) {
                return Some(
                    ConditionalUpdate {
                        block: b,
                        cond,
                        update_block: s.update_block,
                        update_at: s.update_at,
                        merge: s.merge,
                        phi_at,
                        phi,
                        op,
                        base: lhs,
                        delta: rhs,
                        update_when_true: s.update_when_true,
                    },
                );
            }
        }
    }
    None
}

fn search_update(func: &Function, rejected: &Vec<(usize, usize)>) -> (r: Option<ConditionalUpdate>)
    requires
        func@.wf(),
    ensures
        r == first_update(func@, 0, rejected@),
        r matches Some(c) ==> update_in(func@, c),
{
    let graph = ControlFlowGraph::new(func);
    let dom = Dominators::new(func, &graph);
    let use_counts = value_use_counts(func);
    let n = func.blocks.len();
    for b in 0..n
        invariant
            n == func@.blocks.len(),
            func@.wf(),
            graph.of(func@),
            dom.of(func@),
            use_counts.len() == func@.values.len(),
            forall|v: ValueId|
                func@.has_value(v) ==> query::counts(
                    #[trigger] use_counts@[v.0 as int],
                    query::uses(func@, v),
                ),
            first_update(func@, 0, rejected@) == first_update(func@, b as int, rejected@),
    {
        let id = BlockId(b);
        proof {
            query::lemma_terminator_wf(func@, id);
        }
        if let Some(Terminator::Branch { cond, then_target, else_target }) = terminator_of(
            func,
            id,
        ) {
            if then_target != else_target && has_type(func, cond, &Type::I1) {
                if let Some(s) = find_update_shape(func, &graph, id, then_target, else_target) {
                    let found = find_update_of(func, &dom, &use_counts, id, cond, s, rejected);
                    if found.is_some() {
                        return found;
                    }
                }
            }
        }
    }
    None
}

fn convert_update(func: &mut Function, c: ConditionalUpdate)
    requires
        update_in(old(func)@, c),
    ensures
        final(func)@ == update_converted(old(func)@, c),
{
    assert(func.values.len() == func@.values.len());
    let selector = if c.update_when_true {
        c.cond
    } else {
        func.append_value(
            c.block,
            InstKind::Unary { op: UnaryOp::Not, value: c.cond },
            Type::I1,
        )
    };
    let as_i32 = func.append_value(
        c.block,
        InstKind::Cast { op: CastOp::BoolToI32, value: selector },
        Type::I32,
    );
    let scaled = func.append_value(
        c.block,
        InstKind::Binary { op: BinaryOp::Imul, lhs: c.delta, rhs: as_i32 },
        Type::I32,
    );
    let selected = func.append_value(
        c.block,
        InstKind::Binary { op: c.op, lhs: c.base, rhs: scaled },
        Type::I32,
    );
    func.set_terminator(c.block, Terminator::Jump(c.merge));
    func.clear_inst(c.update_block, c.update_at);
    func.clear_inst(c.merge, c.phi_at);
    replace_all_uses(func, c.phi, selected);
}

/// Replaces branches that only decide whether an integer is updated by
/// arithmetic.
pub fn if_convert_conditional_updates(func: &mut Function) -> (r: bool)
    requires
        old(func)@.wf(),
    ensures
        (final(func)@, r) == updates(old(func)@, Seq::empty(), 0, false),
        final(func)@.wf(),
{
    let mut changed = false;
    let mut rejected: Vec<(usize, usize)> = Vec::new();
    let mut attempts: usize = 0;
    assert(rejected@ =~= Seq::<(usize, usize)>::empty());
    while attempts < MAX_IF_CONVERSIONS
        invariant
            func@.wf(),
            attempts <= MAX_IF_CONVERSIONS,
            updates(old(func)@, Seq::empty(), 0, false) == updates(
                func@,
                rejected@,
                attempts as int,
                changed,
            ),
        decreases MAX_IF_CONVERSIONS - attempts,
    {
        match search_update(func, &rejected) {
            None => {
                return changed;
            },
            Some(c) => {
                attempts = attempts + 1;
                let before = func.clone();
                convert_update(func, c);
                if func.verify().is_err() {
                    *func = before;
                    rejected.push((c.block.0, c.phi_at));
                } else {
                    changed = true;
                }
            },
        }
    }
    changed
}

} // verus!
