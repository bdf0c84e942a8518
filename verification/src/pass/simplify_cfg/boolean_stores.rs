//! If-conversion of diamonds whose arms store a boolean to the same address.
use vstd::prelude::*;

use crate::cfg;
use crate::cfg::{ControlFlowGraph, Dominators};
use crate::edit;
use crate::edit::inst_operands;
use crate::ir::{
    BinaryOp, BlockId, CastOp, Const, FuncView, Function, InstKind, KindView, Terminator, Type,
    UnaryOp, ValueId, ValueKind, ValueKindView,
};
use crate::pass::simplify_cfg::if_convert;
use crate::pass::simplify_cfg::if_convert::is_speculatable_bool_inst;
use crate::query;
use crate::query::{
    active_insts, block_has_phi, const_i32_value, defining_inst_in_block, has_type, jump_target,
    only_pred, terminator_of, value_available_at_block, value_use_counts,
    values_available_at_block,
};
use crate::util;
use crate::util::{get_or_add_i32_const, resolve_kind, ValueMap};
use crate::verify;

verus! {

/// The boolean that an arm stores.
#[derive(Clone, Copy, PartialEq, Eq, Structural)]
pub enum StoreValue {
    Constant(bool),
    Dynamic(ValueId),
}

/// An arm that does nothing but store a boolean.
pub struct StoreArm {
    pub block: BlockId,
    pub pointer: ValueId,
    pub value: StoreValue,
    pub gep: Option<(usize, InstKind)>,
    pub value_insts: Vec<(usize, ValueId, InstKind)>,
    pub value_cast_at: Option<usize>,
    pub store_at: usize,
    pub merge: BlockId,
}

pub struct StoreArmView {
    pub block: BlockId,
    pub pointer: ValueId,
    pub value: StoreValue,
    pub gep: Option<(usize, KindView)>,
    pub value_insts: Seq<(usize, ValueId, KindView)>,
    pub value_cast_at: Option<usize>,
    pub store_at: usize,
    pub merge: BlockId,
}

pub open spec fn gep_view(gep: Option<(usize, InstKind)>) -> Option<(usize, KindView)> {
    match gep {
        Some((at, kind)) => Some((at, kind@)),
        None => None,
    }
}

pub open spec fn steps_view(steps: Seq<(usize, ValueId, InstKind)>) -> Seq<
    (usize, ValueId, KindView),
> {
    steps.map_values(|s: (usize, ValueId, InstKind)| (s.0, s.1, s.2@))
}

impl View for StoreArm {
    type V = StoreArmView;

    open spec fn view(&self) -> StoreArmView {
        StoreArmView {
            block: self.block,
            pointer: self.pointer,
            value: self.value,
            gep: gep_view(self.gep),
            value_insts: steps_view(self.value_insts@),
            value_cast_at: self.value_cast_at,
            store_at: self.store_at,
            merge: self.merge,
        }
    }
}

// ---------------------------------------------------------------------------
// Recognizing an arm
// ---------------------------------------------------------------------------

pub open spec fn collected(steps: Seq<(usize, ValueId, KindView)>, v: ValueId) -> bool {
    exists|k: int| 0 <= k < steps.len() && (#[trigger] steps[k]).1 == v
}

/// Extends `steps` by the operations of `block` that compute `v`, operands
/// first. Every operation must be a boolean that may be computed in `owner`
/// and is used once; anything else must be available there. `path` holds the
/// values whose operands are being collected.
pub open spec fn collect(
    f: FuncView,
    block: BlockId,
    owner: BlockId,
    v: ValueId,
    path: Seq<ValueId>,
    steps: Seq<(usize, ValueId, KindView)>,
) -> Option<Seq<(usize, ValueId, KindView)>>
    decreases f.values.len() + 1 - path.len(),
{
    match f.value(v).kind {
        ValueKindView::Inst(def_block, at) => if def_block != block {
            if query::available_at(f, v, owner) {
                Some(steps)
            } else {
                None
            }
        } else if collected(steps, v) {
            Some(steps)
        } else if path.contains(v) || path.len() > f.values.len() || !f.has_inst(block, at as int) {
            None
        } else {
            let inst = f.inst(block, at as int);
            if inst.result != Some(v) || f.value(v).ty != Type::I1 || !if_convert::speculatable(
                inst.kind,
            ) || query::uses(f, v) != 1 {
                None
            } else {
                let reads = edit::operands(inst.kind);
                match collect(f, block, owner, reads[0], path.push(v), steps) {
                    None => None,
                    Some(first) => if reads.len() < 2 {
                        Some(first.push((at, v, inst.kind)))
                    } else {
                        match collect(f, block, owner, reads[1], path.push(v), first) {
                            None => None,
                            Some(second) => Some(second.push((at, v, inst.kind))),
                        }
                    },
                }
            }
        },
        _ => Some(steps),
    }
}

/// What is known of the stored value: the boolean, the operations that compute
/// it and the place of the cast to an integer.
pub open spec fn stored_value(f: FuncView, block: BlockId, owner: BlockId, stored: ValueId) -> Option<
    (StoreValue, Seq<(usize, ValueId, KindView)>, Option<usize>),
> {
    match query::int_of(f, stored) {
        Some(i) => if i == 0 || i == 1 {
            Some((StoreValue::Constant(i != 0), Seq::empty(), None))
        } else {
            None
        },
        None => match query::place_in(f, block, stored) {
            Some(at) => match f.inst(block, at as int).kind {
                KindView::Cast { op: CastOp::BoolToI32, value: source } => if query::uses(f, stored)
                    == 1 && f.value(source).ty == Type::I1 {
                    match collect(f, block, owner, source, Seq::empty(), Seq::empty()) {
                        Some(steps) => Some((StoreValue::Dynamic(source), steps, Some(at))),
                        None => None,
                    }
                } else {
                    None
                },
                _ => None,
            },
            None => None,
        },
    }
}

/// The address computation of the arm, if the arm holds it for this store
/// alone.
pub open spec fn own_gep(f: FuncView, block: BlockId, ptr: ValueId) -> Option<(usize, KindView)> {
    match query::place_in(f, block, ptr) {
        Some(at) => if f.inst(block, at as int).kind is Gep && query::uses(f, ptr) == 1 {
            Some((at, f.inst(block, at as int).kind))
        } else {
            None
        },
        None => None,
    }
}

/// The position belongs to the store.
pub open spec fn consumed(
    store_at: usize,
    gep: Option<(usize, KindView)>,
    steps: Seq<(usize, ValueId, KindView)>,
    cast_at: Option<usize>,
    at: usize,
) -> bool {
    ||| at == store_at
    ||| (gep matches Some(g) && g.0 == at)
    ||| exists|k: int| 0 <= k < steps.len() && (#[trigger] steps[k]).0 == at
    ||| cast_at == Some(at)
}

/// Every position of the list belongs to the store.
pub open spec fn all_consumed(
    list: Seq<usize>,
    store_at: usize,
    gep: Option<(usize, KindView)>,
    steps: Seq<(usize, ValueId, KindView)>,
    cast_at: Option<usize>,
) -> bool {
    forall|k: int|
        0 <= k < list.len() ==> consumed(store_at, gep, steps, cast_at, #[trigger] list[k])
}

/// The block as an arm that only stores a boolean.
pub open spec fn store_arm(f: FuncView, block: BlockId, owner: BlockId) -> Option<StoreArmView> {
    let at = query::active(f, block);
    match query::jump_of(f, block) {
        Some(merge) => if at.len() == 0 {
            None
        } else {
            match f.inst(block, at.last() as int).kind {
                KindView::Store { ptr, value } => {
                    let gep = own_gep(f, block, ptr);
                    if util::def_block(f, ptr) == Some(block) && gep is None {
                        None
                    } else {
                        match stored_value(f, block, owner, value) {
                            Some((stored, steps, cast_at)) => if all_consumed(
                                at,
                                at.last(),
                                gep,
                                steps,
                                cast_at,
                            ) {
                                Some(
                                    StoreArmView {
                                        block,
                                        pointer: ptr,
                                        value: stored,
                                        gep,
                                        value_insts: steps,
                                        value_cast_at: cast_at,
                                        store_at: at.last(),
                                        merge,
                                    },
                                )
                            } else {
                                None
                            },
                            None => None,
                        }
                    }
                },
                _ => None,
            }
        },
        None => None,
    }
}

/// Both arms store to the same address.
pub open spec fn same_address(f: FuncView, a: StoreArmView, b: StoreArmView) -> bool {
    a.pointer == b.pointer || match (a.gep, b.gep) {
        (Some(x), Some(y)) => x.1 == y.1 && f.value(a.pointer).ty == f.value(b.pointer).ty,
        _ => false,
    }
}

/// One of the two values can be selected without a branch.
pub open spec fn selectable(a: StoreValue, b: StoreValue) -> bool {
    a is Constant || b is Constant || a == b
}

/// The values that the address of the store needs.
pub open spec fn address_reads(a: StoreArmView) -> Seq<ValueId> {
    match a.gep {
        Some(g) => edit::operands(g.1),
        None => seq![a.pointer],
    }
}

/// A branch whose arms store a boolean to the same address.
pub struct StoreDiamond {
    pub block: BlockId,
    pub cond: ValueId,
    pub on_true: StoreArm,
    pub on_false: StoreArm,
}

pub struct StoreDiamondView {
    pub block: BlockId,
    pub cond: ValueId,
    pub on_true: StoreArmView,
    pub on_false: StoreArmView,
}

impl View for StoreDiamond {
    type V = StoreDiamondView;

    open spec fn view(&self) -> StoreDiamondView {
        StoreDiamondView {
            block: self.block,
            cond: self.cond,
            on_true: self.on_true@,
            on_false: self.on_false@,
        }
    }
}

pub open spec fn diamond_at(f: FuncView, b: BlockId) -> Option<StoreDiamondView> {
    match f.terminator(b) {
        Some(Terminator::Branch { cond, then_target, else_target }) => if then_target
            != else_target && cfg::preds(f, then_target) == seq![b] && cfg::preds(f, else_target)
            == seq![b] {
            match (store_arm(f, then_target, b), store_arm(f, else_target, b)) {
                (Some(x), Some(y)) => if x.merge == y.merge && !query::has_phi(
                    f.block(x.merge).insts,
                ) && same_address(f, x, y) && selectable(x.value, y.value)
                    && query::all_available_at(f, address_reads(x), b) {
                    Some(StoreDiamondView { block: b, cond, on_true: x, on_false: y })
                } else {
                    None
                },
                _ => None,
            }
        } else {
            None
        },
        _ => None,
    }
}

pub open spec fn first_diamond(f: FuncView, b: int) -> Option<StoreDiamondView>
    decreases f.blocks.len() - b,
{
    if b < 0 || b >= f.blocks.len() {
        None
    } else {
        match diamond_at(f, BlockId(b as usize)) {
            Some(d) => Some(d),
            None => first_diamond(f, b + 1),
        }
    }
}

// ---------------------------------------------------------------------------
// Rewriting a diamond
// ---------------------------------------------------------------------------

/// The function with copies of the first `n` steps at the end of `block`, and
/// the values that the copies define.
pub open spec fn copied(
    f: FuncView,
    block: BlockId,
    steps: Seq<(usize, ValueId, KindView)>,
    n: int,
) -> (FuncView, Map<ValueId, ValueId>)
    decreases n,
{
    if n <= 0 {
        (f, Map::empty())
    } else {
        let (g, map) = copied(f, block, steps, n - 1);
        let (_, old, kind) = steps[n - 1];
        (
            g.append(block, util::map_kind(kind, util::resolver(map, 1)), Type::I1),
            map.insert(old, g.next_value()),
        )
    }
}

/// The function with the arm's boolean computed at the end of `block`.
pub open spec fn materialized(f: FuncView, block: BlockId, a: StoreArmView) -> (
    FuncView,
    StoreValue,
) {
    match a.value {
        StoreValue::Constant(_) => (f, a.value),
        StoreValue::Dynamic(source) => {
            let (g, map) = copied(f, block, a.value_insts, a.value_insts.len() as int);
            (g, StoreValue::Dynamic(util::apply(map, source)))
        },
    }
}

pub open spec fn negated(f: FuncView, block: BlockId, v: ValueId) -> FuncView {
    f.append(block, KindView::Unary { op: UnaryOp::Not, value: v }, Type::I1)
}

pub open spec fn combined(
    f: FuncView,
    block: BlockId,
    op: BinaryOp,
    lhs: ValueId,
    rhs: ValueId,
) -> FuncView {
    f.append(block, KindView::Binary { op, lhs, rhs }, Type::I1)
}

/// The function with `if cond { t } else { e }` computed at the end of
/// `block`.
pub open spec fn selected(
    f: FuncView,
    block: BlockId,
    cond: ValueId,
    t: StoreValue,
    e: StoreValue,
) -> Option<(FuncView, StoreValue)> {
    let next = f.next_value();
    let not = negated(f, block, cond);
    match (t, e) {
        (StoreValue::Constant(a), StoreValue::Constant(b)) => if a == b {
            Some((f, t))
        } else if a {
            Some((f, StoreValue::Dynamic(cond)))
        } else {
            Some((not, StoreValue::Dynamic(next)))
        },
        (StoreValue::Constant(true), StoreValue::Dynamic(b)) => Some(
            (combined(f, block, BinaryOp::Or, cond, b), StoreValue::Dynamic(next)),
        ),
        (StoreValue::Constant(false), StoreValue::Dynamic(b)) => Some(
            (
                combined(not, block, BinaryOp::And, next, b),
                StoreValue::Dynamic(not.next_value()),
            ),
        ),
        (StoreValue::Dynamic(a), StoreValue::Constant(true)) => Some(
            (combined(not, block, BinaryOp::Or, next, a), StoreValue::Dynamic(not.next_value())),
        ),
        (StoreValue::Dynamic(a), StoreValue::Constant(false)) => Some(
            (combined(f, block, BinaryOp::And, cond, a), StoreValue::Dynamic(next)),
        ),
        (StoreValue::Dynamic(a), StoreValue::Dynamic(b)) => if a == b {
            Some((f, t))
        } else {
            None
        },
    }
}

/// The function with the boolean as an integer value.
pub open spec fn as_integer(f: FuncView, block: BlockId, v: StoreValue) -> (FuncView, ValueId) {
    match v {
        StoreValue::Constant(b) => {
            let c = Const::Int(
                if b {
                    1i32
                } else {
                    0i32
                },
            );
            (util::with_const(f, c), util::const_value(f, c))
        },
        StoreValue::Dynamic(v) => (
            f.append(block, KindView::Cast { op: CastOp::BoolToI32, value: v }, Type::I32),
            f.next_value(),
        ),
    }
}

/// The function with the address of the store at the end of `block`.
pub open spec fn with_address(f: FuncView, block: BlockId, a: StoreArmView) -> (FuncView, ValueId) {
    match a.gep {
        Some((_, kind)) => (f.append(block, kind, f.value(a.pointer).ty), f.next_value()),
        None => (f, a.pointer),
    }
}

pub open spec fn steps_cleared(
    f: FuncView,
    block: BlockId,
    steps: Seq<(usize, ValueId, KindView)>,
    n: int,
) -> FuncView
    decreases n,
{
    if n <= 0 {
        f
    } else {
        steps_cleared(f, block, steps, n - 1).with_inst(
            block,
            steps[n - 1].0 as int,
            edit::nop(),
        )
    }
}

/// The function without the instructions of the arm.
pub open spec fn arm_cleared(f: FuncView, a: StoreArmView) -> FuncView {
    let f1 = match a.gep {
        Some((at, _)) => f.with_inst(a.block, at as int, edit::nop()),
        None => f,
    };
    let f2 = steps_cleared(f1, a.block, a.value_insts, a.value_insts.len() as int);
    let f3 = match a.value_cast_at {
        Some(at) => f2.with_inst(a.block, at as int, edit::nop()),
        None => f2,
    };
    f3.with_inst(a.block, a.store_at as int, edit::nop())
}

/// The function with a single store in place of the diamond.
pub open spec fn diamond_converted(f: FuncView, d: StoreDiamondView) -> Option<FuncView> {
    let (f1, t) = materialized(f, d.block, d.on_true);
    let (f2, e) = materialized(f1, d.block, d.on_false);
    match selected(f2, d.block, d.cond, t, e) {
        None => None,
        Some((f3, choice)) => {
            let (f4, value) = as_integer(f3, d.block, choice);
            let (f5, ptr) = with_address(f4, d.block, d.on_true);
            let f6 = f5.append_effect(d.block, KindView::Store { ptr, value });
            let f7 = f6.with_terminator(d.block, Some(Terminator::Jump(d.on_true.merge)));
            Some(arm_cleared(arm_cleared(f7, d.on_true), d.on_false))
        },
    }
}

/// The effect of converting the first diamond. A conversion that would not be
/// valid is not made.
pub open spec fn store_step(f: FuncView) -> (FuncView, bool) {
    match first_diamond(f, 0) {
        Some(d) => match diamond_converted(f, d) {
            Some(g) => if verify::valid(g) {
                (g, true)
            } else {
                (f, false)
            },
            None => (f, false),
        },
        None => (f, false),
    }
}

// ---------------------------------------------------------------------------
// Executable recognition
// ---------------------------------------------------------------------------

/// The instructions of the steps exist.
pub open spec fn steps_in(f: FuncView, block: BlockId, steps: Seq<(usize, ValueId, KindView)>) -> bool {
    forall|k: int|
        0 <= k < steps.len() ==> f.has_inst(block, (#[trigger] steps[k]).0 as int)
            && f.has_value(steps[k].1)
}

/// The instructions of the arm exist.
pub open spec fn arm_in(f: FuncView, a: StoreArmView) -> bool {
    &&& (a.gep matches Some(g) ==> f.has_inst(a.block, g.0 as int))
    &&& steps_in(f, a.block, a.value_insts)
    &&& (a.value_cast_at matches Some(at) ==> f.has_inst(a.block, at as int))
    &&& f.has_inst(a.block, a.store_at as int)
    &&& f.has_value(a.pointer)
}

/// The use counts of a function.
pub open spec fn counted(use_counts: Seq<usize>, f: FuncView) -> bool {
    &&& use_counts.len() == f.values.len()
    &&& forall|v: ValueId|
        f.has_value(v) ==> query::counts(#[trigger] use_counts[v.0 as int], query::uses(f, v))
}

fn is_collected(steps: &Vec<(usize, ValueId, InstKind)>, v: ValueId) -> (r: bool)
    ensures
        r == collected(steps_view(steps@), v),
{
    let n = steps.len();
    for k in 0..n
        invariant
            n == steps.len(),
            forall|j: int| 0 <= j < k ==> (#[trigger] steps_view(steps@)[j]).1 != v,
    {
        assert(steps_view(steps@)[k as int].1 == steps@[k as int].1);
        if steps[k].1 == v {
            return true;
        }
    }
    false
}

fn on_path(path: &Vec<ValueId>, v: ValueId) -> (r: bool)
    ensures
        r == path@.contains(v),
{
    let n = path.len();
    for k in 0..n
        invariant
            n == path.len(),
            forall|j: int| 0 <= j < k ==> #[trigger] path@[j] != v,
    {
        if path[k] == v {
            assert(path@[k as int] == v);
            return true;
        }
    }
    false
}

/// Collects the operations of `block` that compute `v`; see `collect`.
fn collect_speculatable_boolean_value(
    func: &Function,
    block: BlockId,
    owner: BlockId,
    v: ValueId,
    use_counts: &Vec<usize>,
    dom: &Dominators,
    path: &mut Vec<ValueId>,
    steps: &mut Vec<(usize, ValueId, InstKind)>,
) -> (r: bool)
    requires
        func@.wf(),
        dom.of(func@),
        func@.has_block(block),
        func@.has_block(owner),
        func@.has_value(v),
        counted(use_counts@, func@),
        steps_in(func@, block, steps_view(old(steps)@)),
    ensures
        r == (collect(func@, block, owner, v, old(path)@, steps_view(old(steps)@)) is Some),
        r ==> collect(func@, block, owner, v, old(path)@, steps_view(old(steps)@)) == Some(
            steps_view(final(steps)@),
        ),
        r ==> final(path)@ == old(path)@,
        r ==> steps_in(func@, block, steps_view(final(steps)@)),
    decreases func@.values.len() + 1 - old(path)@.len(),
{
    let ghost f = func@;
    let ghost path0 = path@;
    let ghost steps0 = steps_view(steps@);
    let at = match func.values[v.0].kind {
        ValueKind::Inst(def_block, at) => {
            if def_block != block {
                return value_available_at_block(func, dom, v, owner);
            }
            at
        },
        _ => {
            return true;
        },
    };
    if is_collected(steps, v) {
        return true;
    }
    if on_path(path, v) || path.len() > func.values.len() || at >= func.blocks[block.0].insts.len() {
        return false;
    }
    let inst = &func.blocks[block.0].insts[at];
    assert(inst@ == f.inst(block, at as int));
    assert(query::counts(use_counts@[v.0 as int], query::uses(f, v)));
    if inst.result != Some(v) || !has_type(func, v, &Type::I1) || !is_speculatable_bool_inst(
        &inst.kind,
    ) || use_counts[v.0] != 1 {
        return false;
    }
    let reads = inst_operands(&inst.kind);
    proof {
        query::lemma_inst_wf(f, block, at as int);
        verify::lemma_kind_wf_operands(inst@.kind, f.blocks.len(), f.values.len());
    }
    path.push(v);
    let ghost path1 = path@;
    if !collect_speculatable_boolean_value(
        func,
        block,
        owner,
        reads[0],
        use_counts,
        dom,
        path,
        steps,
    ) {
        return false;
    }
    if reads.len() >= 2 {
        if !collect_speculatable_boolean_value(
            func,
            block,
            owner,
            reads[1],
            use_counts,
            dom,
            path,
            steps,
        ) {
            return false;
        }
    }
    path.pop();
    assert(path@ =~= path0);
    let ghost before = steps_view(steps@);
    steps.push((at, v, inst.kind.clone()));
    proof {
        assert(steps_view(steps@) =~= before.push((at, v, inst@.kind)));
        assert forall|k: int| 0 <= k < steps_view(steps@).len() implies f.has_inst(
            block,
            (#[trigger] steps_view(steps@)[k]).0 as int,
        ) && f.has_value(steps_view(steps@)[k].1) by {
            if k < before.len() {
                assert(steps_view(steps@)[k] == before[k]);
            }
        }
    }
    true
}

fn analyze_boolean_store_value(
    func: &Function,
    block: BlockId,
    owner: BlockId,
    stored: ValueId,
    use_counts: &Vec<usize>,
    dom: &Dominators,
) -> (r: Option<(StoreValue, Vec<(usize, ValueId, InstKind)>, Option<usize>)>)
    requires
        func@.wf(),
        dom.of(func@),
        func@.has_block(block),
        func@.has_block(owner),
        func@.has_value(stored),
        counted(use_counts@, func@),
    ensures
        match r {
            Some((value, steps, cast_at)) => {
                &&& stored_value(func@, block, owner, stored) == Some(
                    (value, steps_view(steps@), cast_at),
                )
                &&& steps_in(func@, block, steps_view(steps@))
                &&& (cast_at matches Some(at) ==> func@.has_inst(block, at as int))
            },
            None => stored_value(func@, block, owner, stored) is None,
        },
{
    let ghost f = func@;
    let mut steps: Vec<(usize, ValueId, InstKind)> = Vec::new();
    assert(steps_view(steps@) =~= Seq::<(usize, ValueId, KindView)>::empty());
    if let Some(i) = const_i32_value(func, stored) {
        if i == 0 || i == 1 {
            return Some((StoreValue::Constant(i != 0), steps, None));
        }
        return None;
    }
    let at = defining_inst_in_block(func, block, stored)?;
    let inst = &func.blocks[block.0].insts[at];
    assert(inst@ == f.inst(block, at as int));
    proof {
        query::lemma_inst_wf(f, block, at as int);
    }
    if let InstKind::Cast { op: CastOp::BoolToI32, value: source } = inst.kind {
        assert(query::counts(use_counts@[stored.0 as int], query::uses(f, stored)));
        if use_counts[stored.0] != 1 || !has_type(func, source, &Type::I1) {
            return None;
        }
        let mut path: Vec<ValueId> = Vec::new();
        assert(path@ =~= Seq::<ValueId>::empty());
        if !collect_speculatable_boolean_value(
            func,
            block,
            owner,
            source,
            use_counts,
            dom,
            &mut path,
            &mut steps,
        ) {
            return None;
        }
        return Some((StoreValue::Dynamic(source), steps, Some(at)));
    }
    None
}

fn find_own_gep(func: &Function, use_counts: &Vec<usize>, block: BlockId, ptr: ValueId) -> (r: Option<
    (usize, InstKind),
>)
    requires
        func@.wf(),
        func@.has_block(block),
        func@.has_value(ptr),
        counted(use_counts@, func@),
    ensures
        gep_view(r) == own_gep(func@, block, ptr),
        r matches Some(g) ==> func@.has_inst(block, g.0 as int) && edit::kind_wf(
            g.1@,
            func@.blocks.len(),
            func@.values.len(),
        ),
{
    let at = defining_inst_in_block(func, block, ptr)?;
    let inst = &func.blocks[block.0].insts[at];
    assert(inst@ == func@.inst(block, at as int));
    assert(query::counts(use_counts@[ptr.0 as int], query::uses(func@, ptr)));
    proof {
        query::lemma_inst_wf(func@, block, at as int);
    }
    match inst.kind {
        InstKind::Gep { .. } => {
            if use_counts[ptr.0] == 1 {
                Some((at, inst.kind.clone()))
            } else {
                None
            }
        },
        _ => None,
    }
}

fn are_consumed(
    list: &Vec<usize>,
    store_at: usize,
    gep: &Option<(usize, InstKind)>,
    steps: &Vec<(usize, ValueId, InstKind)>,
    cast_at: Option<usize>,
) -> (r: bool)
    ensures
        r == all_consumed(list@, store_at, gep_view(*gep), steps_view(steps@), cast_at),
{
    let n = list.len();
    for i in 0..n
        invariant
            n == list.len(),
            forall|j: int|
                0 <= j < i ==> consumed(
                    store_at,
                    gep_view(*gep),
                    steps_view(steps@),
                    cast_at,
                    #[trigger] list@[j],
                ),
    {
        let at = list[i];
        let mut found = at == store_at;
        if let Some(g) = gep {
            if g.0 == at {
                found = true;
            }
        }
        if cast_at == Some(at) {
            found = true;
        }
        let base = found;
        let m = steps.len();
        for k in 0..m
            invariant
                m == steps.len(),
                found == (base || exists|j: int|
                    0 <= j < k && (#[trigger] steps_view(steps@)[j]).0 == at),
        {
            assert(steps_view(steps@)[k as int].0 == steps@[k as int].0);
            if steps[k].0 == at {
                found = true;
            }
        }
        assert(found == consumed(
            store_at,
            gep_view(*gep),
            steps_view(steps@),
            cast_at,
            list@[i as int],
        ));
        if !found {
            return false;
        }
    }
    true
}

fn boolean_store_arm(
    func: &Function,
    block: BlockId,
    owner: BlockId,
    use_counts: &Vec<usize>,
    dom: &Dominators,
) -> (r: Option<StoreArm>)
    requires
        func@.wf(),
        dom.of(func@),
        func@.has_block(block),
        func@.has_block(owner),
        counted(use_counts@, func@),
    ensures
        match r {
            Some(a) => {
                &&& store_arm(func@, block, owner) == Some(a@)
                &&& arm_in(func@, a@)
                &&& func@.has_block(a.merge)
                &&& edit::reads_wf(address_reads(a@), func@.values.len())
            },
            None => store_arm(func@, block, owner) is None,
        },
{
    let ghost f = func@;
    proof {
        query::lemma_terminator_wf(f, block);
    }
    let merge = jump_target(func, block)?;
    let at = active_insts(func, block);
    let n = at.len();
    if n == 0 {
        return None;
    }
    let store_at = at[n - 1];
    let inst = &func.blocks[block.0].insts[store_at];
    assert(inst@ == f.inst(block, store_at as int));
    proof {
        query::lemma_inst_wf(f, block, store_at as int);
    }
    if let InstKind::Store { ptr, value } = inst.kind {
        let gep = find_own_gep(func, use_counts, block, ptr);
        if util::defining_block(func, ptr) == Some(block) && gep.is_none() {
            return None;
        }
        let (stored, steps, cast_at) = analyze_boolean_store_value(
            func,
            block,
            owner,
            value,
            use_counts,
            dom,
        )?;
        if !are_consumed(&at, store_at, &gep, &steps, cast_at) {
            return None;
        }
        proof {
            if let Some(g) = gep_view(gep) {
                verify::lemma_kind_wf_operands(g.1, f.blocks.len(), f.values.len());
            }
        }
        return Some(
            StoreArm {
                block,
                pointer: ptr,
                value: stored,
                gep,
                value_insts: steps,
                value_cast_at: cast_at,
                store_at,
                merge,
            },
        );
    }
    None
}

fn same_ids(a: &Vec<ValueId>, b: &Vec<ValueId>) -> (r: bool)
    ensures
        r == (a@ == b@),
{
    let n = a.len();
    if n != b.len() {
        return false;
    }
    for k in 0..n
        invariant
            n == a.len(),
            n == b.len(),
            forall|j: int| 0 <= j < k ==> #[trigger] a@[j] == b@[j],
    {
        if a[k] != b[k] {
            assert(a@[k as int] != b@[k as int]);
            return false;
        }
    }
    assert(a@ =~= b@);
    true
}

fn equivalent_store_pointers(func: &Function, a: &StoreArm, b: &StoreArm) -> (r: bool)
    requires
        func@.has_value(a.pointer),
        func@.has_value(b.pointer),
        a.gep matches Some(g) ==> g.1@ is Gep,
        b.gep matches Some(g) ==> g.1@ is Gep,
    ensures
        r == same_address(func@, a@, b@),
{
    if a.pointer == b.pointer {
        return true;
    }
    match (&a.gep, &b.gep) {
        (Some(x), Some(y)) => {
            match (&x.1, &y.1) {
                (
                    InstKind::Gep { base: base_a, indices: indices_a },
                    InstKind::Gep { base: base_b, indices: indices_b },
                ) => *base_a == *base_b && same_ids(indices_a, indices_b)
                    && func.values[a.pointer.0].ty.same(&func.values[b.pointer.0].ty),
                _ => false,
            }
        },
        _ => false,
    }
}

fn boolean_store_values_are_selectable(a: StoreValue, b: StoreValue) -> (r: bool)
    ensures
        r == selectable(a, b),
{
    match (a, b) {
        (StoreValue::Dynamic(x), StoreValue::Dynamic(y)) => x == y,
        _ => true,
    }
}

fn find_diamond(
    func: &Function,
    graph: &ControlFlowGraph,
    dom: &Dominators,
    use_counts: &Vec<usize>,
    b: BlockId,
) -> (r: Option<StoreDiamond>)
    requires
        func@.wf(),
        graph.of(func@),
        dom.of(func@),
        func@.has_block(b),
        counted(use_counts@, func@),
    ensures
        match r {
            Some(d) => {
                &&& diamond_at(func@, b) == Some(d@)
                &&& d.block == b
                &&& arm_in(func@, d.on_true@)
                &&& arm_in(func@, d.on_false@)
            },
            None => diamond_at(func@, b) is None,
        },
{
    let ghost f = func@;
    proof {
        query::lemma_terminator_wf(f, b);
    }
    if let Some(Terminator::Branch { cond, then_target, else_target }) = terminator_of(func, b) {
        if then_target == else_target || !only_pred(func, graph, then_target, b) || !only_pred(
            func,
            graph,
            else_target,
            b,
        ) {
            return None;
        }
        let on_true = boolean_store_arm(func, then_target, b, use_counts, dom)?;
        let on_false = boolean_store_arm(func, else_target, b, use_counts, dom)?;
        if on_true.merge != on_false.merge || block_has_phi(func, on_true.merge)
            || !equivalent_store_pointers(func, &on_true, &on_false)
            || !boolean_store_values_are_selectable(on_true.value, on_false.value) {
            return None;
        }
        let reads = match &on_true.gep {
            Some(g) => inst_operands(&g.1),
            None => vec![on_true.pointer],
        };
        assert(reads@ =~= address_reads(on_true@));
        if !values_available_at_block(func, dom, &reads, b) {
            return None;
        }
        return Some(StoreDiamond { block: b, cond, on_true, on_false });
    }
    None
}

// ---------------------------------------------------------------------------
// Executable rewriting
// ---------------------------------------------------------------------------

/// Every instruction place of `f` is one of `g` too.
pub open spec fn places_kept(f: FuncView, g: FuncView) -> bool {
    &&& f.blocks.len() <= g.blocks.len()
    &&& f.values.len() <= g.values.len()
    &&& forall|b: int|
        0 <= b < f.blocks.len() ==> f.blocks[b].insts.len() <= (#[trigger] g.blocks[b]).insts.len()
}

/// Computes the arm's boolean at the end of `block`.
fn materialize_boolean_store_value(func: &mut Function, block: BlockId, a: &StoreArm) -> (r:
    StoreValue)
    requires
        old(func)@.has_block(block),
        steps_in(old(func)@, a.block, a@.value_insts),
    ensures
        (final(func)@, r) == materialized(old(func)@, block, a@),
        places_kept(old(func)@, final(func)@),
{
    let ghost f = func@;
    match a.value {
        StoreValue::Constant(_) => a.value,
        StoreValue::Dynamic(source) => {
            let mut map = ValueMap::new();
            let n = a.value_insts.len();
            for k in 0..n
                invariant
                    n == a.value_insts.len(),
                    f.has_block(block),
                    steps_in(f, a.block, a@.value_insts),
                    (func@, map@) == copied(f, block, a@.value_insts, k as int),
                    places_kept(f, func@),
            {
                let step = &a.value_insts[k];
                assert(a@.value_insts[k as int] == (step.0, step.1, step.2@));
                proof {
                    assert(func.values.len() == func@.values.len());
                    assert(f.has_value(a@.value_insts[k as int].1));
                }
                let kind = resolve_kind(&step.2, &map, 1);
                let copy = func.append_value(block, kind, Type::I1);
                map.insert(step.1, copy);
            }
            StoreValue::Dynamic(map.apply(source))
        },
    }
}

fn append_not(func: &mut Function, block: BlockId, v: ValueId) -> (r: ValueId)
    requires
        old(func)@.has_block(block),
    ensures
        final(func)@ == negated(old(func)@, block, v),
        r == old(func)@.next_value(),
        places_kept(old(func)@, final(func)@),
{
    func.append_value(block, InstKind::Unary { op: UnaryOp::Not, value: v }, Type::I1)
}

fn append_boolean(func: &mut Function, block: BlockId, op: BinaryOp, lhs: ValueId, rhs: ValueId) -> (r:
    ValueId)
    requires
        old(func)@.has_block(block),
    ensures
        final(func)@ == combined(old(func)@, block, op, lhs, rhs),
        r == old(func)@.next_value(),
        places_kept(old(func)@, final(func)@),
{
    func.append_value(block, InstKind::Binary { op, lhs, rhs }, Type::I1)
}

/// Computes `if cond { t } else { e }` at the end of `block`.
fn combine_boolean_store_values(
    func: &mut Function,
    block: BlockId,
    cond: ValueId,
    t: StoreValue,
    e: StoreValue,
) -> (r: Option<StoreValue>)
    requires
        old(func)@.has_block(block),
    ensures
        match r {
            Some(v) => selected(old(func)@, block, cond, t, e) == Some((final(func)@, v)),
            None => selected(old(func)@, block, cond, t, e) is None,
        },
        places_kept(old(func)@, final(func)@),
{
    match (t, e) {
        (StoreValue::Constant(a), StoreValue::Constant(b)) => {
            if a == b {
                Some(t)
            } else if a {
                Some(StoreValue::Dynamic(cond))
            } else {
                Some(StoreValue::Dynamic(append_not(func, block, cond)))
            }
        },
        (StoreValue::Constant(a), StoreValue::Dynamic(b)) => {
            if a {
                Some(StoreValue::Dynamic(append_boolean(func, block, BinaryOp::Or, cond, b)))
            } else {
                let not = append_not(func, block, cond);
                Some(StoreValue::Dynamic(append_boolean(func, block, BinaryOp::And, not, b)))
            }
        },
        (StoreValue::Dynamic(a), StoreValue::Constant(b)) => {
            if b {
                let not = append_not(func, block, cond);
                Some(StoreValue::Dynamic(append_boolean(func, block, BinaryOp::Or, not, a)))
            } else {
                Some(StoreValue::Dynamic(append_boolean(func, block, BinaryOp::And, cond, a)))
            }
        },
        (StoreValue::Dynamic(a), StoreValue::Dynamic(b)) => {
            if a == b {
                Some(t)
            } else {
                None
            }
        },
    }
}

/// Deletes the instructions of the arm.
fn clear_boolean_store_arm(func: &mut Function, a: &StoreArm)
    requires
        arm_in(old(func)@, a@),
    ensures
        final(func)@ == arm_cleared(old(func)@, a@),
        places_kept(old(func)@, final(func)@),
{
    let ghost f = func@;
    if let Some(g) = &a.gep {
        func.clear_inst(a.block, g.0);
    }
    let ghost f1 = func@;
    let n = a.value_insts.len();
    for k in 0..n
        invariant
            n == a.value_insts.len(),
            arm_in(f, a@),
            places_kept(f, func@),
            func@ == steps_cleared(f1, a.block, a@.value_insts, k as int),
    {
        assert(a@.value_insts[k as int].0 == a.value_insts@[k as int].0);
        assert(f.has_inst(a.block, a@.value_insts[k as int].0 as int));
        assert(f.blocks[a.block.0 as int].insts.len() <= func@.blocks[a.block.0 as int].insts.len());
        func.clear_inst(a.block, a.value_insts[k].0);
    }
    assert(f.blocks[a.block.0 as int].insts.len() <= func@.blocks[a.block.0 as int].insts.len());
    if let Some(at) = a.value_cast_at {
        func.clear_inst(a.block, at);
    }
    func.clear_inst(a.block, a.store_at);
}

proof fn lemma_arm_kept(f: FuncView, g: FuncView, a: StoreArmView)
    requires
        arm_in(f, a),
        places_kept(f, g),
    ensures
        arm_in(g, a),
{
    assert(f.blocks[a.block.0 as int].insts.len() <= g.blocks[a.block.0 as int].insts.len());
    assert forall|k: int| 0 <= k < a.value_insts.len() implies g.has_inst(
        a.block,
        (#[trigger] a.value_insts[k]).0 as int,
    ) && g.has_value(a.value_insts[k].1) by {
        assert(f.has_inst(a.block, a.value_insts[k].0 as int));
    }
}

fn convert_diamond(func: &mut Function, d: &StoreDiamond) -> (r: bool)
    requires
        old(func)@.has_block(d.block),
        arm_in(old(func)@, d.on_true@),
        arm_in(old(func)@, d.on_false@),
    ensures
        r ==> diamond_converted(old(func)@, d@) == Some(final(func)@),
        !r ==> diamond_converted(old(func)@, d@) is None,
{
    let ghost f = func@;
    let t = materialize_boolean_store_value(func, d.block, &d.on_true);
    proof {
        lemma_arm_kept(f, func@, d.on_false@);
    }
    let e = materialize_boolean_store_value(func, d.block, &d.on_false);
    match combine_boolean_store_values(func, d.block, d.cond, t, e) {
        None => false,
        Some(choice) => {
            let ghost f3 = func@;
            assert(places_kept(f, f3));
            let value = match choice {
                StoreValue::Constant(b) => get_or_add_i32_const(
                    func,
                    if b {
                        1
                    } else {
                        0
                    },
                ),
                StoreValue::Dynamic(v) => func.append_value(
                    d.block,
                    InstKind::Cast { op: CastOp::BoolToI32, value: v },
                    Type::I32,
                ),
            };
            assert(places_kept(f, func@));
            let pointer = match &d.on_true.gep {
                Some(g) => {
                    assert(func.values.len() == func@.values.len());
                    let ty = func.values[d.on_true.pointer.0].ty.clone();
                    func.append_value(d.block, g.1.clone(), ty)
                },
                None => d.on_true.pointer,
            };
            func.append_effect(d.block, InstKind::Store { ptr: pointer, value });
            func.set_terminator(d.block, Terminator::Jump(d.on_true.merge));
            assert(places_kept(f, func@));
            proof {
                lemma_arm_kept(f, func@, d.on_true@);
            }
            clear_boolean_store_arm(func, &d.on_true);
            proof {
                lemma_arm_kept(f, func@, d.on_false@);
            }
            clear_boolean_store_arm(func, &d.on_false);
            true
        },
    }
}

/// Replaces a diamond whose two arms store a boolean to the same address by a
/// single store.
pub fn if_convert_boolean_stores(func: &mut Function) -> (r: bool)
    requires
        old(func)@.wf(),
    ensures
        (final(func)@, r) == store_step(old(func)@),
        final(func)@.wf(),
{
    let graph = ControlFlowGraph::new(func);
    let dom = Dominators::new(func, &graph);
    let use_counts = value_use_counts(func);
    let n = func.blocks.len();
    for b in 0..n
        invariant
            func@ == old(func)@,
            func@.wf(),
            n == func@.blocks.len(),
            graph.of(func@),
            dom.of(func@),
            counted(use_counts@, func@),
            first_diamond(func@, 0) == first_diamond(func@, b as int),
    {
        if let Some(d) = find_diamond(func, &graph, &dom, &use_counts, BlockId(b)) {
            let before = func.clone();
            if convert_diamond(func, &d) && func.verify().is_ok() {
                return true;
            }
            *func = before;
            return false;
        }
    }
    false
}

} // verus!
