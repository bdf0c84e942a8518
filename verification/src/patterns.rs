//! Shapes of code that passes recognize, and small pieces of code that they
//! build.
use vstd::prelude::*;

use crate::cfg;
use crate::cfg::{reach_from, successor_lists};
use crate::edit;
use crate::ir::{
    BinaryOp, BlockId, CompareOp, FuncView, Function, InstKind, InstView, KindView, Terminator,
    Type, ValueId,
};
use crate::query;
use crate::util;
use crate::util::{defining_block, defining_inst, rewrite_block_uses_from, ValueMap};
use crate::verify::contains_block;

verus! {

// ---------------------------------------------------------------------------
// Recognizing
// ---------------------------------------------------------------------------

/// The operator and operands of the operation that defines `v`.
pub open spec fn binary_of(f: FuncView, v: ValueId) -> Option<(BinaryOp, ValueId, ValueId)> {
    match util::def_kind(f, v) {
        Some(KindView::Binary { op, lhs, rhs }) => Some((op, lhs, rhs)),
        _ => None,
    }
}

pub fn as_binary(func: &Function, v: ValueId) -> (r: Option<(BinaryOp, ValueId, ValueId)>)
    ensures
        r == binary_of(func@, v),
{
    match defining_inst(func, v) {
        Some(InstKind::Binary { op, lhs, rhs }) => Some((*op, *lhs, *rhs)),
        _ => None,
    }
}

/// The operator and operands of the integer comparison that defines `v`.
pub open spec fn compare_of(f: FuncView, v: ValueId) -> Option<(CompareOp, ValueId, ValueId)> {
    match util::def_kind(f, v) {
        Some(KindView::ICompare { op, lhs, rhs }) => Some((op, lhs, rhs)),
        _ => None,
    }
}

pub fn as_compare(func: &Function, v: ValueId) -> (r: Option<(CompareOp, ValueId, ValueId)>)
    ensures
        r == compare_of(func@, v),
{
    match defining_inst(func, v) {
        Some(InstKind::ICompare { op, lhs, rhs }) => Some((*op, *lhs, *rhs)),
        _ => None,
    }
}

/// The address that the load that defines `v` reads.
pub open spec fn load_of(f: FuncView, v: ValueId) -> Option<ValueId> {
    match util::def_kind(f, v) {
        Some(KindView::Load { ptr }) => Some(ptr),
        _ => None,
    }
}

pub fn as_load(func: &Function, v: ValueId) -> (r: Option<ValueId>)
    ensures
        r == load_of(func@, v),
{
    match defining_inst(func, v) {
        Some(InstKind::Load { ptr }) => Some(*ptr),
        _ => None,
    }
}

/// The comparison with its operands exchanged.
pub open spec fn mirrored(op: CompareOp) -> CompareOp {
    match op {
        CompareOp::Eq => CompareOp::Eq,
        CompareOp::Ne => CompareOp::Ne,
        CompareOp::Lt => CompareOp::Gt,
        CompareOp::Le => CompareOp::Ge,
        CompareOp::Gt => CompareOp::Lt,
        CompareOp::Ge => CompareOp::Le,
    }
}

/// The comparison that holds where the other does not.
pub open spec fn inverted(op: CompareOp) -> CompareOp {
    match op {
        CompareOp::Eq => CompareOp::Ne,
        CompareOp::Ne => CompareOp::Eq,
        CompareOp::Lt => CompareOp::Ge,
        CompareOp::Le => CompareOp::Gt,
        CompareOp::Gt => CompareOp::Le,
        CompareOp::Ge => CompareOp::Lt,
    }
}

pub fn mirror(op: CompareOp) -> (r: CompareOp)
    ensures
        r == mirrored(op),
{
    match op {
        CompareOp::Eq => CompareOp::Eq,
        CompareOp::Ne => CompareOp::Ne,
        CompareOp::Lt => CompareOp::Gt,
        CompareOp::Le => CompareOp::Ge,
        CompareOp::Gt => CompareOp::Lt,
        CompareOp::Ge => CompareOp::Le,
    }
}

pub fn invert(op: CompareOp) -> (r: CompareOp)
    ensures
        r == inverted(op),
{
    match op {
        CompareOp::Eq => CompareOp::Ne,
        CompareOp::Ne => CompareOp::Eq,
        CompareOp::Lt => CompareOp::Ge,
        CompareOp::Le => CompareOp::Gt,
        CompareOp::Gt => CompareOp::Le,
        CompareOp::Ge => CompareOp::Lt,
    }
}

/// What a comparison of integers says.
pub open spec fn compares(op: CompareOp, a: int, b: int) -> bool {
    match op {
        CompareOp::Eq => a == b,
        CompareOp::Ne => a != b,
        CompareOp::Lt => a < b,
        CompareOp::Le => a <= b,
        CompareOp::Gt => a > b,
        CompareOp::Ge => a >= b,
    }
}

/// A mirrored comparison says the same of the exchanged operands, an inverted
/// one the opposite.
pub proof fn mirrored_and_inverted_comparisons(op: CompareOp, a: int, b: int)
    ensures
        compares(mirrored(op), b, a) == compares(op, a, b),
        compares(inverted(op), a, b) == !compares(op, a, b),
        mirrored(mirrored(op)) == op,
        inverted(inverted(op)) == op,
{
}

/// The condition and targets of the branch that ends block `b`.
pub open spec fn branch_of(f: FuncView, b: BlockId) -> Option<(ValueId, BlockId, BlockId)> {
    if f.has_block(b) {
        match f.terminator(b) {
            Some(Terminator::Branch { cond, then_target, else_target }) => Some(
                (cond, then_target, else_target),
            ),
            _ => None,
        }
    } else {
        None
    }
}

pub fn as_branch(func: &Function, b: BlockId) -> (r: Option<(ValueId, BlockId, BlockId)>)
    ensures
        r == branch_of(func@, b),
{
    if b.0 >= func.blocks.len() {
        return None;
    }
    match func.blocks[b.0].terminator {
        Some(Terminator::Branch { cond, then_target, else_target }) => Some(
            (cond, then_target, else_target),
        ),
        _ => None,
    }
}

/// The results of the phis among the first `n` instructions.
pub open spec fn phi_results_below(insts: Seq<InstView>, n: int) -> Seq<ValueId>
    decreases n,
{
    if n <= 0 {
        Seq::empty()
    } else {
        let before = phi_results_below(insts, n - 1);
        match (insts[n - 1].kind, insts[n - 1].result) {
            (KindView::Phi { .. }, Some(r)) => before.push(r),
            _ => before,
        }
    }
}

/// The results of the phis of a block.
pub open spec fn phi_results(f: FuncView, b: BlockId) -> Seq<ValueId> {
    phi_results_below(f.block(b).insts, f.block(b).insts.len() as int)
}

pub fn collect_phi_results(func: &Function, b: BlockId) -> (r: Vec<ValueId>)
    requires
        func@.wf(),
        func@.has_block(b),
    ensures
        r@ == phi_results(func@, b),
        edit::reads_wf(r@, func@.values.len()),
{
    let ghost insts = func@.block(b).insts;
    let n = func.blocks[b.0].insts.len();
    let mut r: Vec<ValueId> = Vec::new();
    for i in 0..n
        invariant
            func@.wf(),
            func@.has_block(b),
            insts == func@.block(b).insts,
            n == insts.len(),
            r@ == phi_results_below(insts, i as int),
            edit::reads_wf(r@, func@.values.len()),
    {
        let inst = &func.blocks[b.0].insts[i];
        assert(inst@ == insts[i as int]);
        proof {
            query::lemma_inst_wf(func@, b, i as int);
        }
        if let (InstKind::Phi { .. }, Some(v)) = (&inst.kind, inst.result) {
            r.push(v);
        }
    }
    r
}

/// `v` is defined in one of the blocks.
pub open spec fn defined_in(f: FuncView, v: ValueId, blocks: Seq<BlockId>) -> bool {
    match util::def_block(f, v) {
        Some(b) => blocks.contains(b),
        None => false,
    }
}

/// Whether `v` is defined in one of the blocks.
pub fn is_defined_in(func: &Function, v: ValueId, blocks: &Vec<BlockId>) -> (r: bool)
    ensures
        r == defined_in(func@, v, blocks@),
{
    match defining_block(func, v) {
        Some(b) => contains_block(blocks, b),
        None => false,
    }
}

/// Whether a list holds a value.
pub fn contains_value(list: &Vec<ValueId>, v: ValueId) -> (r: bool)
    ensures
        r == list@.contains(v),
{
    let n = list.len();
    for k in 0..n
        invariant
            n == list.len(),
            forall|j: int| 0 <= j < k ==> #[trigger] list@[j] != v,
    {
        if list[k] == v {
            assert(list@[k as int] == v);
            return true;
        }
    }
    false
}

// ---------------------------------------------------------------------------
// Building
// ---------------------------------------------------------------------------

/// The function with an integer operation at the end of a block.
pub open spec fn with_binary(
    f: FuncView,
    b: BlockId,
    op: BinaryOp,
    lhs: ValueId,
    rhs: ValueId,
) -> FuncView {
    f.append(b, KindView::Binary { op, lhs, rhs }, Type::I32)
}

pub fn append_binary(func: &mut Function, b: BlockId, op: BinaryOp, lhs: ValueId, rhs: ValueId) -> (r:
    ValueId)
    requires
        old(func)@.has_block(b),
    ensures
        final(func)@ == with_binary(old(func)@, b, op, lhs, rhs),
        r == old(func)@.next_value(),
        final(func)@.blocks.len() == old(func)@.blocks.len(),
        final(func)@.values.len() == old(func)@.values.len() + 1,
        old(func)@.wf() && old(func)@.has_value(lhs) && old(func)@.has_value(rhs)
            ==> final(func)@.wf(),
{
    func.append_value(b, InstKind::Binary { op, lhs, rhs }, Type::I32)
}

/// The function with a comparison at the end of a block.
pub open spec fn with_comparison(
    f: FuncView,
    b: BlockId,
    op: CompareOp,
    lhs: ValueId,
    rhs: ValueId,
) -> FuncView {
    f.append(b, KindView::ICompare { op, lhs, rhs }, Type::I1)
}

pub fn append_comparison(
    func: &mut Function,
    b: BlockId,
    op: CompareOp,
    lhs: ValueId,
    rhs: ValueId,
) -> (r: ValueId)
    requires
        old(func)@.has_block(b),
    ensures
        final(func)@ == with_comparison(old(func)@, b, op, lhs, rhs),
        r == old(func)@.next_value(),
        final(func)@.blocks.len() == old(func)@.blocks.len(),
        final(func)@.values.len() == old(func)@.values.len() + 1,
        old(func)@.wf() && old(func)@.has_value(lhs) && old(func)@.has_value(rhs)
            ==> final(func)@.wf(),
{
    func.append_value(b, InstKind::ICompare { op, lhs, rhs }, Type::I1)
}

/// The function with a boolean operation at the end of a block.
pub open spec fn with_boolean(
    f: FuncView,
    b: BlockId,
    op: BinaryOp,
    lhs: ValueId,
    rhs: ValueId,
) -> FuncView {
    f.append(b, KindView::Binary { op, lhs, rhs }, Type::I1)
}

pub fn append_boolean(func: &mut Function, b: BlockId, op: BinaryOp, lhs: ValueId, rhs: ValueId) -> (r:
    ValueId)
    requires
        old(func)@.has_block(b),
    ensures
        final(func)@ == with_boolean(old(func)@, b, op, lhs, rhs),
        r == old(func)@.next_value(),
        final(func)@.blocks.len() == old(func)@.blocks.len(),
        final(func)@.values.len() == old(func)@.values.len() + 1,
        old(func)@.wf() && old(func)@.has_value(lhs) && old(func)@.has_value(rhs)
            ==> final(func)@.wf(),
{
    func.append_value(b, InstKind::Binary { op, lhs, rhs }, Type::I1)
}

/// The incoming list with the first entry from `pred` replaced, searched from
/// `i`.
pub open spec fn entry_replaced(
    incomings: Seq<(BlockId, ValueId)>,
    pred: BlockId,
    v: ValueId,
    i: int,
) -> Seq<(BlockId, ValueId)>
    decreases incomings.len() - i,
{
    if i < 0 || i >= incomings.len() {
        incomings
    } else if incomings[i].0 == pred {
        incomings.update(i, (pred, v))
    } else {
        entry_replaced(incomings, pred, v, i + 1)
    }
}

proof fn lemma_entry_replaced_wf(
    incomings: Seq<(BlockId, ValueId)>,
    pred: BlockId,
    v: ValueId,
    i: int,
    nb: nat,
    nv: nat,
)
    requires
        edit::incomings_wf(incomings, nb, nv),
        v.0 < nv,
    ensures
        edit::incomings_wf(entry_replaced(incomings, pred, v, i), nb, nv),
    decreases incomings.len() - i,
{
    if 0 <= i < incomings.len() && incomings[i].0 != pred {
        lemma_entry_replaced_wf(incomings, pred, v, i + 1, nb, nv);
    }
}

/// The function with what the phi takes from `pred` replaced.
pub open spec fn incoming_replaced(f: FuncView, phi: ValueId, pred: BlockId, v: ValueId) -> FuncView {
    match util::def_kind(f, phi) {
        Some(KindView::Phi { incomings }) => match f.value(phi).kind {
            crate::ir::ValueKindView::Inst(b, i) => f.with_inst(
                b,
                i as int,
                InstView {
                    kind: KindView::Phi { incomings: entry_replaced(incomings, pred, v, 0) },
                    ..f.inst(b, i as int)
                },
            ),
            _ => f,
        },
        _ => f,
    }
}

/// Replaces what the phi takes from `pred`.
pub fn replace_phi_incoming(func: &mut Function, phi: ValueId, pred: BlockId, v: ValueId)
    ensures
        final(func)@ == incoming_replaced(old(func)@, phi, pred, v),
        old(func)@.wf() && old(func)@.has_value(v) ==> final(func)@.wf(),
        final(func)@.blocks.len() == old(func)@.blocks.len(),
        final(func)@.values == old(func)@.values,
        forall|b: int|
            0 <= b < old(func)@.blocks.len() ==> (#[trigger] final(func)@.blocks[b]).insts.len()
                == old(func)@.blocks[b].insts.len() && final(func)@.blocks[b].terminator == old(
                func,
            )@.blocks[b].terminator,
{
    if phi.0 >= func.values.len() {
        return ;
    }
    if let crate::ir::ValueKind::Inst(b, i) = func.values[phi.0].kind {
        assert(func@.value(phi).kind == crate::ir::ValueKindView::Inst(b, i));
        if b.0 < func.blocks.len() && i < func.blocks[b.0].insts.len() {
            let inst = &func.blocks[b.0].insts[i];
            assert(inst@ == func@.inst(b, i as int));
            if let InstKind::Phi { incomings } = &inst.kind {
                let mut list = crate::ir::clone_incomings(incomings);
                let ghost original = list@;
                let n = list.len();
                let mut k: usize = 0;
                while k < n && list[k].0 != pred
                    invariant
                        n == list.len(),
                        k <= n,
                        list@ == original,
                        entry_replaced(original, pred, v, 0) == entry_replaced(
                            original,
                            pred,
                            v,
                            k as int,
                        ),
                    decreases n - k,
                {
                    k = k + 1;
                }
                if k < n {
                    list[k] = (pred, v);
                }
                let result = inst.result;
                proof {
                    if func@.wf() && func@.has_value(v) {
                        query::lemma_inst_wf(func@, b, i as int);
                        lemma_entry_replaced_wf(
                            original,
                            pred,
                            v,
                            0,
                            func@.blocks.len(),
                            func@.values.len(),
                        );
                    }
                }
                func.set_inst(
                    b,
                    i,
                    crate::ir::Inst { result, kind: InstKind::Phi { incomings: list } },
                );
            }
        }
    }
}

/// Where the uses of a block are replaced from: behind position `skip` in the
/// block `first`, everywhere in the others.
pub open spec fn start_in(first: BlockId, skip: nat, b: BlockId) -> int {
    if b == first {
        skip as int
    } else {
        0
    }
}

/// The function with the uses in the marked blocks among the first `n`
/// replaced.
pub open spec fn marked_uses_replaced(
    f: FuncView,
    marks: Seq<bool>,
    first: BlockId,
    skip: nat,
    map: Map<ValueId, ValueId>,
    n: int,
) -> FuncView
    decreases n,
{
    if n <= 0 {
        f
    } else {
        let before = marked_uses_replaced(f, marks, first, skip, map, n - 1);
        let b = BlockId((n - 1) as usize);
        if marks[n - 1] {
            before.with_block(
                b,
                util::map_block(
                    before.block(b),
                    start_in(first, skip, b),
                    util::resolver(map, before.values.len()),
                ),
            )
        } else {
            before
        }
    }
}

/// Which blocks can be reached from `b`.
pub open spec fn reached_from(f: FuncView, b: BlockId) -> Seq<bool> {
    Seq::new(
        f.blocks.len(),
        |x: int| cfg::reaches(cfg::succ_lists(f), b, BlockId(x as usize), None),
    )
}

/// The function with the uses replaced that control reaches from position
/// `skip` of block `first` on.
pub open spec fn uses_replaced_from(
    f: FuncView,
    first: BlockId,
    skip: nat,
    map: Map<ValueId, ValueId>,
) -> FuncView {
    marked_uses_replaced(f, reached_from(f, first), first, skip, map, f.blocks.len() as int)
}

/// Marks the blocks that can be reached from `b`.
pub fn reachable_from(func: &Function, b: BlockId) -> (r: Vec<bool>)
    requires
        func@.wf(),
        func@.has_block(b),
    ensures
        r@ == reached_from(func@, b),
{
    let succs = successor_lists(func);
    proof {
        cfg::lemma_graph_wf(func@);
        assert(cfg::lists_view(succs@).len() == succs.len());
    }
    let marks = reach_from(&succs, b, None);
    assert(marks@ =~= reached_from(func@, b));
    marks
}

/// Replaces the uses that control reaches from position `skip` of block
/// `first` on.
pub fn replace_uses_from(func: &mut Function, first: BlockId, skip: usize, map: &ValueMap)
    requires
        old(func)@.wf(),
        old(func)@.has_block(first),
        util::range_below(map@, old(func)@.values.len()),
    ensures
        final(func)@ == uses_replaced_from(old(func)@, first, skip as nat, map@),
        final(func)@.wf(),
{
    let ghost f = func@;
    let marks = reachable_from(func, first);
    let n = func.blocks.len();
    for b in 0..n
        invariant
            n == f.blocks.len(),
            marks@ == reached_from(f, first),
            func@ == marked_uses_replaced(f, marks@, first, skip as nat, map@, b as int),
            func@.blocks.len() == n,
            func@.values == f.values,
            func@.wf(),
            util::range_below(map@, f.values.len()),
    {
        if marks[b] {
            let start = if b == first.0 {
                skip
            } else {
                0
            };
            rewrite_block_uses_from(func, BlockId(b), start, map);
        }
    }
}

} // verus!
