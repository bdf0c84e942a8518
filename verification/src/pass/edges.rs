//! Moving of edges: what ends a block, and what names the block that an edge
//! comes from.
use vstd::prelude::*;

use crate::ir;
use crate::ir::{BlockId, Inst, InstKind, InstView, KindView, Terminator, ValueId};

verus! {

/// The block, or another in place of the given one.
pub open spec fn other_for(b: BlockId, from: BlockId, to: BlockId) -> BlockId {
    if b == from {
        to
    } else {
        b
    }
}

/// The terminator that leads to another block in place of the given one.
pub open spec fn redirected(t: Terminator, from: BlockId, to: BlockId) -> Terminator {
    match t {
        Terminator::Jump(b) => Terminator::Jump(other_for(b, from, to)),
        Terminator::Branch { cond, then_target, else_target } => Terminator::Branch {
            cond,
            then_target: other_for(then_target, from, to),
            else_target: other_for(else_target, from, to),
        },
        Terminator::Return(v) => Terminator::Return(v),
    }
}

fn pick(b: BlockId, from: BlockId, to: BlockId) -> (r: BlockId)
    ensures
        r == other_for(b, from, to),
{
    if b == from {
        to
    } else {
        b
    }
}

pub fn redirect(t: &Terminator, from: BlockId, to: BlockId) -> (r: Terminator)
    ensures
        r == redirected(*t, from, to),
{
    match t {
        Terminator::Jump(b) => Terminator::Jump(pick(*b, from, to)),
        Terminator::Branch { cond, then_target, else_target } => Terminator::Branch {
            cond: *cond,
            then_target: pick(*then_target, from, to),
            else_target: pick(*else_target, from, to),
        },
        Terminator::Return(v) => Terminator::Return(*v),
    }
}

/// The incoming list whose entries come from another block in place of the given
/// one.
pub open spec fn entries_renamed(
    incomings: Seq<(BlockId, ValueId)>,
    from: BlockId,
    to: BlockId,
) -> Seq<(BlockId, ValueId)> {
    Seq::new(
        incomings.len(),
        |k: int| (other_for(incomings[k].0, from, to), incomings[k].1),
    )
}

pub open spec fn kind_renamed(kind: KindView, from: BlockId, to: BlockId) -> KindView {
    match kind {
        KindView::Phi { incomings } => KindView::Phi {
            incomings: entries_renamed(incomings, from, to),
        },
        _ => kind,
    }
}

/// The instructions whose phis name another block in place of the given one.
pub open spec fn preds_renamed(insts: Seq<InstView>, from: BlockId, to: BlockId) -> Seq<InstView> {
    Seq::new(
        insts.len(),
        |i: int|
            InstView { result: insts[i].result, kind: kind_renamed(insts[i].kind, from, to) },
    )
}

fn rename_entries(incomings: &Vec<(BlockId, ValueId)>, from: BlockId, to: BlockId) -> (r: Vec<
    (BlockId, ValueId),
>)
    ensures
        r@ == entries_renamed(incomings@, from, to),
{
    let mut list: Vec<(BlockId, ValueId)> = Vec::new();
    let n = incomings.len();
    for k in 0..n
        invariant
            n == incomings.len(),
            list.len() == k,
            forall|j: int|
                0 <= j < k ==> #[trigger] list@[j] == (
                    other_for(incomings@[j].0, from, to),
                    incomings@[j].1,
                ),
    {
        let (p, v) = incomings[k];
        list.push((pick(p, from, to), v));
    }
    assert(list@ =~= entries_renamed(incomings@, from, to));
    list
}

pub fn rename_preds(insts: &Vec<Inst>, from: BlockId, to: BlockId) -> (r: Vec<Inst>)
    ensures
        ir::insts_view(r@) == preds_renamed(ir::insts_view(insts@), from, to),
{
    let ghost views = ir::insts_view(insts@);
    let mut list: Vec<Inst> = Vec::new();
    let n = insts.len();
    for i in 0..n
        invariant
            n == insts.len(),
            views == ir::insts_view(insts@),
            list.len() == i,
            forall|j: int|
                0 <= j < i ==> (#[trigger] list@[j])@ == (InstView {
                    result: views[j].result,
                    kind: kind_renamed(views[j].kind, from, to),
                }),
    {
        let inst = &insts[i];
        assert(views[i as int] == inst@);
        let kind = match &inst.kind {
            InstKind::Phi { incomings } => InstKind::Phi {
                incomings: rename_entries(incomings, from, to),
            },
            kind => kind.clone(),
        };
        list.push(Inst { result: inst.result, kind });
    }
    assert(ir::insts_view(list@) =~= preds_renamed(views, from, to));
    list
}

} // verus!
