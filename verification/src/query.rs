//! Questions that several passes ask about a function.
use vstd::prelude::*;

use crate::cfg;
use crate::cfg::{ControlFlowGraph, Dominators};
use crate::edit;
use crate::edit::{inst_operands, terminator_operands};
use crate::ir::{
    BlockId, Const, FuncView, Function, Inst, InstKind, InstView, KindView, Terminator, Type,
    ValueId, ValueKind, ValueKindView,
};
use crate::loops;
use crate::util;
use crate::verify;

verus! {

// ---------------------------------------------------------------------------
// Graph lookups
// ---------------------------------------------------------------------------

/// The predecessors of a block, in ascending order.
pub fn preds_of<'a>(func: &Function, graph: &'a ControlFlowGraph, b: BlockId) -> (r: &'a Vec<
    BlockId,
>)
    requires
        graph.of(func@),
        func@.has_block(b),
    ensures
        r@ == cfg::preds(func@, b),
{
    assert(cfg::lists_view(graph.preds@).len() == func@.blocks.len());
    assert(cfg::lists_view(graph.preds@)[b.0 as int] == graph.preds@[b.0 as int]@);
    &graph.preds[b.0]
}

/// Whether `p` is the only predecessor of `b`.
pub fn only_pred(func: &Function, graph: &ControlFlowGraph, b: BlockId, p: BlockId) -> (r: bool)
    requires
        graph.of(func@),
        func@.has_block(b),
    ensures
        r == (cfg::preds(func@, b) == seq![p]),
{
    let list = preds_of(func, graph, b);
    if list.len() == 1 && list[0] == p {
        assert(list@ =~= seq![p]);
        true
    } else {
        assert(seq![p].len() == 1 && seq![p][0] == p);
        false
    }
}

/// Whether `b` is reachable and every path to it visits `a`.
pub fn dominates_in(func: &Function, dom: &Dominators, a: BlockId, b: BlockId) -> (r: bool)
    requires
        dom.of(func@),
        func@.has_block(a),
        func@.has_block(b),
    ensures
        r == cfg::dominates(func@, a, b),
{
    assert(dom.table@[a.0 as int]@[b.0 as int] <==> cfg::dominates(
        func@,
        BlockId(a.0),
        BlockId(b.0),
    ));
    dom.dominates(a, b)
}

/// The block that an unconditional jump leads to.
pub open spec fn jump_of(f: FuncView, b: BlockId) -> Option<BlockId> {
    match f.terminator(b) {
        Some(Terminator::Jump(target)) => Some(target),
        _ => None,
    }
}

/// The block that an unconditional jump leads to.
pub fn jump_target(func: &Function, b: BlockId) -> (r: Option<BlockId>)
    requires
        func@.has_block(b),
    ensures
        r == jump_of(func@, b),
{
    match func.blocks[b.0].terminator {
        Some(Terminator::Jump(target)) => Some(target),
        _ => None,
    }
}

/// The terminator of a block.
pub fn terminator_of(func: &Function, b: BlockId) -> (r: Option<Terminator>)
    requires
        func@.has_block(b),
    ensures
        r == func@.terminator(b),
{
    func.blocks[b.0].terminator
}

/// Terminators of a well-formed function name its blocks and values.
pub proof fn lemma_terminator_wf(f: FuncView, b: BlockId)
    requires
        f.wf(),
        f.has_block(b),
    ensures
        edit::terminator_wf(f.terminator(b), f.blocks.len(), f.values.len()),
        edit::insts_wf(f.block(b).insts, f.blocks.len(), f.values.len()),
{
    assert(edit::block_wf(f.blocks[b.0 as int], f.blocks.len(), f.values.len()));
}

/// Instructions of a well-formed function are well formed.
pub proof fn lemma_inst_wf(f: FuncView, b: BlockId, i: int)
    requires
        f.wf(),
        f.has_inst(b, i),
    ensures
        edit::inst_wf(f.inst(b, i), f.blocks.len(), f.values.len()),
{
    assert(edit::block_wf(f.blocks[b.0 as int], f.blocks.len(), f.values.len()));
}

/// Predecessors are blocks.
pub proof fn lemma_preds_wf(f: FuncView, b: BlockId)
    requires
        f.blocks.len() <= usize::MAX,
    ensures
        forall|k: int| 0 <= k < cfg::preds(f, b).len() ==> f.has_block(#[trigger] cfg::preds(f, b)[k]),
{
    cfg::lemma_preds_below_sorted(f, b, f.blocks.len() as int);
}

// ---------------------------------------------------------------------------
// Instructions of a block
// ---------------------------------------------------------------------------

/// The positions below `n` that hold an operation.
pub open spec fn active_below(insts: Seq<InstView>, n: int) -> Seq<usize>
    decreases n,
{
    if n <= 0 {
        Seq::empty()
    } else if insts[n - 1].kind is Nop {
        active_below(insts, n - 1)
    } else {
        active_below(insts, n - 1).push((n - 1) as usize)
    }
}

/// The positions of a block that hold an operation, in order.
pub open spec fn active(f: FuncView, b: BlockId) -> Seq<usize> {
    active_below(f.block(b).insts, f.block(b).insts.len() as int)
}

pub proof fn lemma_active_below(insts: Seq<InstView>, n: int)
    requires
        0 <= n <= insts.len() <= usize::MAX,
    ensures
        forall|k: int|
            0 <= k < active_below(insts, n).len() ==> (#[trigger] active_below(insts, n)[k]) < n
                && !(insts[active_below(insts, n)[k] as int].kind is Nop),
    decreases n,
{
    if n > 0 {
        lemma_active_below(insts, n - 1);
    }
}

/// The positions of a block that hold an operation, in order.
pub fn active_insts(func: &Function, b: BlockId) -> (r: Vec<usize>)
    requires
        func@.has_block(b),
    ensures
        r@ == active(func@, b),
        forall|k: int| 0 <= k < r.len() ==> (#[trigger] r@[k]) < func@.block(b).insts.len(),
{
    let mut r: Vec<usize> = Vec::new();
    let n = func.blocks[b.0].insts.len();
    for i in 0..n
        invariant
            func@.has_block(b),
            n == func@.block(b).insts.len(),
            r@ == active_below(func@.block(b).insts, i as int),
    {
        let inst = &func.blocks[b.0].insts[i];
        assert(inst@ == func@.block(b).insts[i as int]);
        if let InstKind::Nop = inst.kind {
        } else {
            r.push(i);
        }
    }
    proof {
        lemma_active_below(func@.block(b).insts, n as int);
    }
    r
}

/// The positions of the phis from `i` on that stand before any other
/// operation.
pub open spec fn leading_from(insts: Seq<InstView>, i: int) -> Seq<usize>
    decreases insts.len() - i,
{
    if i < 0 || i >= insts.len() {
        Seq::empty()
    } else if insts[i].kind is Nop {
        leading_from(insts, i + 1)
    } else if insts[i].kind is Phi {
        seq![i as usize] + leading_from(insts, i + 1)
    } else {
        Seq::empty()
    }
}

pub proof fn lemma_leading_from(insts: Seq<InstView>, i: int)
    requires
        0 <= i,
        insts.len() <= usize::MAX,
    ensures
        forall|k: int|
            0 <= k < leading_from(insts, i).len() ==> i <= (#[trigger] leading_from(insts, i)[k])
                < insts.len() && insts[leading_from(insts, i)[k] as int].kind is Phi,
    decreases insts.len() - i,
{
    if i < insts.len() {
        lemma_leading_from(insts, i + 1);
        if insts[i].kind is Phi {
            let rest = leading_from(insts, i + 1);
            assert forall|k: int| 0 <= k < leading_from(insts, i).len() implies i <= (
            #[trigger] leading_from(insts, i)[k]) < insts.len() && insts[leading_from(
                insts,
                i,
            )[k] as int].kind is Phi by {
                if k > 0 {
                    assert(leading_from(insts, i)[k] == rest[k - 1]);
                }
            }
        }
    }
}

/// The positions of the phis that lead a block.
pub fn leading_phis(func: &Function, b: BlockId) -> (r: Vec<usize>)
    requires
        func@.has_block(b),
    ensures
        r@ == leading_from(func@.block(b).insts, 0),
        forall|k: int|
            0 <= k < r.len() ==> (#[trigger] r@[k]) < func@.block(b).insts.len() && func@.block(
                b,
            ).insts[r@[k] as int].kind is Phi,
{
    let mut r: Vec<usize> = Vec::new();
    let n = func.blocks[b.0].insts.len();
    let ghost insts = func@.block(b).insts;
    proof {
        lemma_leading_from(insts, 0);
    }
    for i in 0..n
        invariant
            func@.has_block(b),
            insts == func@.block(b).insts,
            n == insts.len(),
            r@ + leading_from(insts, i as int) == leading_from(insts, 0),
            forall|k: int|
                0 <= k < leading_from(insts, 0).len() ==> (#[trigger] leading_from(insts, 0)[k])
                    < insts.len() && insts[leading_from(insts, 0)[k] as int].kind is Phi,
    {
        let inst = &func.blocks[b.0].insts[i];
        assert(inst@ == insts[i as int]);
        match inst.kind {
            InstKind::Nop => {},
            InstKind::Phi { .. } => {
                let ghost before = r@;
                r.push(i);
                assert(r@ + leading_from(insts, i + 1) =~= before + leading_from(insts, i as int));
            },
            _ => {
                assert(r@ + leading_from(insts, i as int) =~= r@);
                return r;
            },
        }
    }
    assert(r@ + leading_from(insts, n as int) =~= r@);
    r
}

/// Some instruction is a phi.
pub open spec fn has_phi(insts: Seq<InstView>) -> bool {
    exists|i: int| 0 <= i < insts.len() && (#[trigger] insts[i]).kind is Phi
}

/// Whether the block holds a phi.
pub fn block_has_phi(func: &Function, b: BlockId) -> (r: bool)
    requires
        func@.has_block(b),
    ensures
        r == has_phi(func@.block(b).insts),
{
    let n = func.blocks[b.0].insts.len();
    for i in 0..n
        invariant
            func@.has_block(b),
            n == func@.block(b).insts.len(),
            forall|j: int| 0 <= j < i ==> !((#[trigger] func@.block(b).insts[j]).kind is Phi),
    {
        let inst = &func.blocks[b.0].insts[i];
        assert(inst@ == func@.block(b).insts[i as int]);
        if let InstKind::Phi { .. } = inst.kind {
            return true;
        }
    }
    false
}

/// No instruction does anything.
pub open spec fn all_nops(insts: Seq<InstView>) -> bool {
    forall|i: int| 0 <= i < insts.len() ==> (#[trigger] insts[i]).kind is Nop
}

/// Whether the block holds no operation.
pub fn block_is_empty(func: &Function, b: BlockId) -> (r: bool)
    requires
        func@.has_block(b),
    ensures
        r == all_nops(func@.block(b).insts),
{
    let n = func.blocks[b.0].insts.len();
    for i in 0..n
        invariant
            func@.has_block(b),
            n == func@.block(b).insts.len(),
            forall|j: int| 0 <= j < i ==> (#[trigger] func@.block(b).insts[j]).kind is Nop,
    {
        let inst = &func.blocks[b.0].insts[i];
        assert(inst@ == func@.block(b).insts[i as int]);
        if let InstKind::Nop = inst.kind {
        } else {
            assert(!(func@.block(b).insts[i as int].kind is Nop));
            return false;
        }
    }
    true
}

/// How many incoming entries come from `pred`.
pub open spec fn entries_from(incomings: Seq<(BlockId, ValueId)>, pred: BlockId) -> nat
    decreases incomings.len(),
{
    if incomings.len() == 0 {
        0
    } else {
        entries_from(incomings.drop_first(), pred) + (if incomings[0].0 == pred {
            1nat
        } else {
            0nat
        })
    }
}

/// The value from `pred`, if the list names `pred` exactly once.
pub open spec fn sole_incoming(incomings: Seq<(BlockId, ValueId)>, pred: BlockId) -> Option<ValueId> {
    if entries_from(incomings, pred) == 1 {
        util::incoming_from(incomings, pred)
    } else {
        None
    }
}

/// The value from `pred`, if the list names `pred` exactly once.
pub fn unique_incoming(incomings: &Vec<(BlockId, ValueId)>, pred: BlockId) -> (r: Option<ValueId>)
    ensures
        r == sole_incoming(incomings@, pred),
{
    let n = incomings.len();
    let mut found: Option<ValueId> = None;
    assert(incomings@.skip(0) =~= incomings@);
    for i in 0..n
        invariant
            n == incomings.len(),
            match found {
                None => {
                    &&& entries_from(incomings@, pred) == entries_from(
                        incomings@.skip(i as int),
                        pred,
                    )
                    &&& util::incoming_from(incomings@, pred) == util::incoming_from(
                        incomings@.skip(i as int),
                        pred,
                    )
                },
                Some(v) => {
                    &&& entries_from(incomings@, pred) == 1 + entries_from(
                        incomings@.skip(i as int),
                        pred,
                    )
                    &&& util::incoming_from(incomings@, pred) == Some(v)
                },
            },
    {
        assert(incomings@.skip(i as int).drop_first() =~= incomings@.skip(i + 1));
        assert(incomings@.skip(i as int)[0] == incomings@[i as int]);
        if incomings[i].0 == pred {
            if found.is_some() {
                return None;
            }
            found = Some(incomings[i].1);
        }
    }
    found
}

pub proof fn lemma_sole_incoming_wf(
    incomings: Seq<(BlockId, ValueId)>,
    pred: BlockId,
    nb: nat,
    nv: nat,
)
    requires
        edit::incomings_wf(incomings, nb, nv),
    ensures
        sole_incoming(incomings, pred) matches Some(v) ==> v.0 < nv,
{
    loops::lemma_incoming_in_range(incomings, pred, nb, nv);
}

// ---------------------------------------------------------------------------
// Values
// ---------------------------------------------------------------------------

/// The type of a value.
pub fn has_type(func: &Function, v: ValueId, ty: &Type) -> (r: bool)
    requires
        func@.has_value(v),
    ensures
        r == (func@.value(v).ty == *ty),
{
    func.values[v.0].ty.same(ty)
}

/// The definition of `v` reaches block `b`: it is no instruction, or it
/// stands in `b` or in a block that dominates `b`.
pub open spec fn available_at(f: FuncView, v: ValueId, b: BlockId) -> bool {
    match f.value(v).kind {
        ValueKindView::Inst(owner, _) => owner == b || cfg::dominates(f, owner, b),
        _ => true,
    }
}

/// Whether the definition of `v` reaches block `b`.
pub fn value_available_at_block(func: &Function, dom: &Dominators, v: ValueId, b: BlockId) -> (r:
    bool)
    requires
        func@.wf(),
        dom.of(func@),
        func@.has_value(v),
        func@.has_block(b),
    ensures
        r == available_at(func@, v, b),
{
    assert(edit::value_wf(func@.values[v.0 as int], func@.blocks.len()));
    match func.values[v.0].kind {
        ValueKind::Inst(owner, _) => owner == b || dominates_in(func, dom, owner, b),
        _ => true,
    }
}

/// Every value of the list reaches block `b`.
pub open spec fn all_available_at(f: FuncView, list: Seq<ValueId>, b: BlockId) -> bool {
    forall|k: int| 0 <= k < list.len() ==> available_at(f, #[trigger] list[k], b)
}

/// Whether every value of the list reaches block `b`.
pub fn values_available_at_block(
    func: &Function,
    dom: &Dominators,
    list: &Vec<ValueId>,
    b: BlockId,
) -> (r: bool)
    requires
        func@.wf(),
        dom.of(func@),
        edit::reads_wf(list@, func@.values.len()),
        func@.has_block(b),
    ensures
        r == all_available_at(func@, list@, b),
{
    let n = list.len();
    for k in 0..n
        invariant
            n == list.len(),
            func@.wf(),
            dom.of(func@),
            edit::reads_wf(list@, func@.values.len()),
            func@.has_block(b),
            forall|j: int| 0 <= j < k ==> available_at(func@, #[trigger] list@[j], b),
    {
        assert(list@[k as int].0 < func@.values.len());
        if !value_available_at_block(func, dom, list[k], b) {
            return false;
        }
    }
    true
}

/// The truth value of a constant: nonzero is true.
pub open spec fn bool_of(f: FuncView, v: ValueId) -> Option<bool> {
    match f.value(v).kind {
        ValueKindView::Const(c) => const_truth(c),
        _ => None,
    }
}

/// Whether the constant counts as true.
pub open spec fn const_truth(c: Const) -> Option<bool> {
    match c {
        Const::Bool(b) => Some(b),
        Const::Int(i) => Some(i != 0),
        Const::Float(bits) => Some(bits != 0 && bits != 0x8000_0000u32),
        Const::Zero(_) => None,
    }
}

/// The truth value of a constant: nonzero is true. Positive and negative zero
/// are the only floats that are not.
pub fn const_bool(func: &Function, v: ValueId) -> (r: Option<bool>)
    requires
        func@.has_value(v),
    ensures
        r == bool_of(func@, v),
{
    match &func.values[v.0].kind {
        ValueKind::Const(Const::Bool(b)) => Some(*b),
        ValueKind::Const(Const::Int(i)) => Some(*i != 0),
        ValueKind::Const(Const::Float(bits)) => Some(*bits != 0 && *bits != 0x8000_0000u32),
        _ => None,
    }
}

/// The integer that a constant of boolean or integer type stands for.
pub open spec fn int_of(f: FuncView, v: ValueId) -> Option<i32> {
    match f.value(v).kind {
        ValueKindView::Const(Const::Int(i)) => Some(i),
        ValueKindView::Const(Const::Bool(b)) => Some(
            if b {
                1i32
            } else {
                0i32
            },
        ),
        ValueKindView::Const(Const::Zero(Type::I32)) => Some(0i32),
        ValueKindView::Const(Const::Zero(Type::I1)) => Some(0i32),
        _ => None,
    }
}

/// The integer that a constant of boolean or integer type stands for.
pub fn const_i32_value(func: &Function, v: ValueId) -> (r: Option<i32>)
    requires
        func@.has_value(v),
    ensures
        r == int_of(func@, v),
{
    match &func.values[v.0].kind {
        ValueKind::Const(Const::Int(i)) => Some(*i),
        ValueKind::Const(Const::Bool(b)) => Some(
            if *b {
                1i32
            } else {
                0i32
            },
        ),
        ValueKind::Const(Const::Zero(Type::I32)) => Some(0i32),
        ValueKind::Const(Const::Zero(Type::I1)) => Some(0i32),
        _ => None,
    }
}

/// The position of the instruction of block `b` that `v` names.
pub open spec fn place_in(f: FuncView, b: BlockId, v: ValueId) -> Option<usize> {
    match f.value(v).kind {
        ValueKindView::Inst(owner, i) => if owner == b && f.has_inst(b, i as int) {
            Some(i)
        } else {
            None
        },
        _ => None,
    }
}

/// The position of the instruction of block `b` that `v` names.
pub fn defining_inst_in_block(func: &Function, b: BlockId, v: ValueId) -> (r: Option<usize>)
    requires
        func@.has_value(v),
        func@.has_block(b),
    ensures
        r == place_in(func@, b, v),
{
    match func.values[v.0].kind {
        ValueKind::Inst(owner, i) => if owner == b && i < func.blocks[b.0].insts.len() {
            Some(i)
        } else {
            None
        },
        _ => None,
    }
}

/// The operation that defines `v`, if its instruction says so.
pub open spec fn definition(f: FuncView, v: ValueId) -> Option<KindView> {
    if f.has_value(v) {
        match f.value(v).kind {
            ValueKindView::Inst(b, i) => if f.has_inst(b, i as int) && f.inst(b, i as int).result
                == Some(v) {
                Some(f.inst(b, i as int).kind)
            } else {
                None
            },
            _ => None,
        }
    } else {
        None
    }
}

/// The operation that defines `v`, if its instruction says so.
pub fn defining_inst_kind(func: &Function, v: ValueId) -> (r: Option<&InstKind>)
    ensures
        util::kind_ref(r) == definition(func@, v),
{
    if v.0 >= func.values.len() {
        return None;
    }
    match func.values[v.0].kind {
        ValueKind::Inst(b, i) => {
            if b.0 < func.blocks.len() && i < func.blocks[b.0].insts.len() {
                let inst = &func.blocks[b.0].insts[i];
                assert(inst@ == func@.inst(b, i as int));
                if inst.result == Some(v) {
                    return Some(&inst.kind);
                }
            }
            None
        },
        _ => None,
    }
}

pub proof fn lemma_definition_wf(f: FuncView, v: ValueId)
    requires
        f.wf(),
    ensures
        definition(f, v) matches Some(kind) ==> edit::kind_wf(
            kind,
            f.blocks.len(),
            f.values.len(),
        ),
{
    if definition(f, v) is Some {
        if let ValueKindView::Inst(b, i) = f.value(v).kind {
            lemma_inst_wf(f, b, i as int);
        }
    }
}

// ---------------------------------------------------------------------------
// Use counts
// ---------------------------------------------------------------------------

/// How often `v` occurs in the list.
pub open spec fn occurrences(list: Seq<ValueId>, v: ValueId) -> nat
    decreases list.len(),
{
    if list.len() == 0 {
        0
    } else {
        occurrences(list.drop_last(), v) + (if list.last() == v {
            1nat
        } else {
            0nat
        })
    }
}

/// How often the first `n` instructions read `v`.
pub open spec fn insts_uses(insts: Seq<InstView>, v: ValueId, n: int) -> nat
    decreases n,
{
    if n <= 0 {
        0
    } else {
        insts_uses(insts, v, n - 1) + occurrences(edit::operands(insts[n - 1].kind), v)
    }
}

/// How often the first `n` blocks read `v`.
pub open spec fn blocks_uses(f: FuncView, v: ValueId, n: int) -> nat
    decreases n,
{
    if n <= 0 {
        0
    } else {
        let block = f.blocks[n - 1];
        blocks_uses(f, v, n - 1) + insts_uses(block.insts, v, block.insts.len() as int)
            + occurrences(edit::terminator_reads(block.terminator), v)
    }
}

/// How often the function reads `v`.
pub open spec fn uses(f: FuncView, v: ValueId) -> nat {
    blocks_uses(f, v, f.blocks.len() as int)
}

/// `count` is `n`, or the largest number that fits.
pub open spec fn counts(count: usize, n: nat) -> bool {
    if n <= usize::MAX {
        count == n
    } else {
        count == usize::MAX
    }
}

/// Adds the occurrences of every value of a list to its count.
fn count_list(counters: &mut Vec<usize>, list: &Vec<ValueId>, Ghost(base): Ghost<
    spec_fn(ValueId) -> nat,
>)
    requires
        edit::reads_wf(list@, old(counters).len() as nat),
        forall|v: ValueId|
            v.0 < old(counters).len() ==> counts(#[trigger] old(counters)@[v.0 as int], base(v)),
    ensures
        final(counters).len() == old(counters).len(),
        forall|v: ValueId|
            v.0 < final(counters).len() ==> counts(
                #[trigger] final(counters)@[v.0 as int],
                base(v) + occurrences(list@, v),
            ),
{
    let n = list.len();
    for k in 0..n
        invariant
            n == list.len(),
            counters.len() == old(counters).len(),
            edit::reads_wf(list@, old(counters).len() as nat),
            forall|v: ValueId|
                v.0 < counters.len() ==> counts(
                    #[trigger] counters@[v.0 as int],
                    base(v) + occurrences(list@.take(k as int), v),
                ),
    {
        let at = list[k].0;
        assert(list@[k as int].0 < counters.len());
        let ghost before = counters@;
        assert(counts(before[list@[k as int].0 as int], base(list@[k as int]) + occurrences(
            list@.take(k as int),
            list@[k as int],
        )));
        if counters[at] < usize::MAX {
            let c = counters[at];
            counters[at] = c + 1;
        }
        assert(list@.take(k + 1).drop_last() =~= list@.take(k as int));
        assert(list@.take(k + 1).last() == list@[k as int]);
        assert forall|v: ValueId| v.0 < counters.len() implies counts(
            #[trigger] counters@[v.0 as int],
            base(v) + occurrences(list@.take(k + 1), v),
        ) by {
            assert(counts(before[v.0 as int], base(v) + occurrences(list@.take(k as int), v)));
            if v.0 == at {
                assert(v == list@[k as int]);
            }
        }
    }
    assert(list@.take(n as int) =~= list@);
}

/// How often each value is read.
#[verifier::loop_isolation(false)]
pub fn value_use_counts(func: &Function) -> (r: Vec<usize>)
    requires
        func@.wf(),
    ensures
        r.len() == func@.values.len(),
        forall|v: ValueId|
            func@.has_value(v) ==> counts(#[trigger] r@[v.0 as int], uses(func@, v)),
{
    let ghost f = func@;
    let mut counters: Vec<usize> = Vec::new();
    let nv = func.values.len();
    for i in 0..nv
        invariant
            counters.len() == i,
            forall|j: int| 0 <= j < i ==> #[trigger] counters@[j] == 0,
    {
        counters.push(0);
    }
    let nb = func.blocks.len();
    for b in 0..nb
        invariant
            counters.len() == nv,
            forall|v: ValueId|
                v.0 < nv ==> counts(#[trigger] counters@[v.0 as int], blocks_uses(f, v, b as int)),
    {
        let id = BlockId(b);
        let ghost block = f.blocks[b as int];
        proof {
            lemma_terminator_wf(f, id);
        }
        let n = func.blocks[b].insts.len();
        for i in 0..n
            invariant
                counters.len() == nv,
                forall|v: ValueId|
                    v.0 < nv ==> counts(
                        #[trigger] counters@[v.0 as int],
                        blocks_uses(f, v, b as int) + insts_uses(block.insts, v, i as int),
                    ),
        {
            assert(func.blocks@[b as int].insts@[i as int]@ == block.insts[i as int]);
            let reads = inst_operands(&func.blocks[b].insts[i].kind);
            proof {
                lemma_inst_wf(f, id, i as int);
                verify::lemma_kind_wf_operands(block.insts[i as int].kind, f.blocks.len(), nv as nat);
            }
            let ghost base = |v: ValueId|
                blocks_uses(f, v, b as int) + insts_uses(block.insts, v, i as int);
            count_list(&mut counters, &reads, Ghost(base));
        }
        let reads = terminator_operands(&func.blocks[b].terminator);
        let ghost base = |v: ValueId|
            blocks_uses(f, v, b as int) + insts_uses(block.insts, v, block.insts.len() as int);
        count_list(&mut counters, &reads, Ghost(base));
    }
    counters
}

} // verus!
