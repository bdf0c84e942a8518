//! Changes to the shape of the graph: merging, forwarding and removing blocks.
use vstd::prelude::*;

use crate::cfg;
use crate::cfg::ControlFlowGraph;
use crate::edit;
use crate::ir;
use crate::ir::{
    BlockId, BlockView, FuncView, Function, Inst, InstKind, InstView, KindView, Terminator, ValueId,
    ValueKind, ValueKindView, ValueView,
};
use crate::query;
use crate::query::{block_is_empty, jump_target, only_pred, preds_of};
use crate::util;
use crate::util::first_incoming;
use crate::verify;
use crate::verify::contains_block;

verus! {

// ---------------------------------------------------------------------------
// Changing the incoming lists of leading phis
// ---------------------------------------------------------------------------

/// A change of an incoming list.
pub enum IncomingEdit {
    /// Entries from `from` come from `to`.
    Rename { from: BlockId, to: BlockId },
    /// Entries from `pred` go.
    Drop { pred: BlockId },
    /// The entry from `from` is replaced by one from each of `preds`.
    Spread { from: BlockId, preds: Vec<BlockId> },
}

pub enum EditView {
    Rename { from: BlockId, to: BlockId },
    Drop { pred: BlockId },
    Spread { from: BlockId, preds: Seq<BlockId> },
}

impl View for IncomingEdit {
    type V = EditView;

    open spec fn view(&self) -> EditView {
        match self {
            IncomingEdit::Rename { from, to } => EditView::Rename { from: *from, to: *to },
            IncomingEdit::Drop { pred } => EditView::Drop { pred: *pred },
            IncomingEdit::Spread { from, preds } => EditView::Spread { from: *from, preds: preds@ },
        }
    }
}

pub open spec fn not_from(pred: BlockId) -> spec_fn((BlockId, ValueId)) -> bool {
    |inc: (BlockId, ValueId)| inc.0 != pred
}

/// The entries that do not come from `pred`.
pub open spec fn without(incomings: Seq<(BlockId, ValueId)>, pred: BlockId) -> Seq<
    (BlockId, ValueId),
> {
    incomings.filter(not_from(pred))
}

pub open spec fn edited(incomings: Seq<(BlockId, ValueId)>, change: EditView) -> Seq<
    (BlockId, ValueId),
> {
    match change {
        EditView::Rename { from, to } => incomings.map_values(
            |inc: (BlockId, ValueId)|
                if inc.0 == from {
                    (to, inc.1)
                } else {
                    inc
                },
        ),
        EditView::Drop { pred } => without(incomings, pred),
        EditView::Spread { from, preds } => match util::incoming_from(incomings, from) {
            Some(value) => without(incomings, from) + preds.map_values(
                |pred: BlockId| (pred, value),
            ),
            None => incomings,
        },
    }
}

/// The instruction with its incoming list changed, if it is a phi.
pub open spec fn edited_inst(inst: InstView, change: EditView) -> InstView {
    match inst.kind {
        KindView::Phi { incomings } => InstView {
            kind: KindView::Phi { incomings: edited(incomings, change) },
            ..inst
        },
        _ => inst,
    }
}

/// The instructions with the incoming lists of the leading phis changed.
pub open spec fn edit_leading(insts: Seq<InstView>, change: EditView) -> Seq<InstView> {
    Seq::new(
        insts.len(),
        |k: int|
            if verify::phis_lead(insts, k) {
                edited_inst(insts[k], change)
            } else {
                insts[k]
            },
    )
}

/// The blocks that the change writes exist.
pub open spec fn change_wf(change: EditView, nb: nat) -> bool {
    match change {
        EditView::Rename { from: _, to } => to.0 < nb,
        EditView::Drop { .. } => true,
        EditView::Spread { from: _, preds } => forall|k: int|
            0 <= k < preds.len() ==> (#[trigger] preds[k]).0 < nb,
    }
}

proof fn lemma_without_wf(incomings: Seq<(BlockId, ValueId)>, pred: BlockId, nb: nat, nv: nat)
    requires
        edit::incomings_wf(incomings, nb, nv),
    ensures
        edit::incomings_wf(without(incomings, pred), nb, nv),
{
    let keep = not_from(pred);
    let kept = incomings.filter(keep);
    assert forall|k: int| 0 <= k < kept.len() implies (#[trigger] kept[k]).0.0 < nb && kept[k].1.0
        < nv by {
        incomings.lemma_filter_contains_rev(keep, kept[k]);
        let i = choose|i: int| 0 <= i < incomings.len() && incomings[i] == kept[k];
        assert(incomings[i].0.0 < nb);
    }
}

proof fn lemma_edited_wf(incomings: Seq<(BlockId, ValueId)>, change: EditView, nb: nat, nv: nat)
    requires
        edit::incomings_wf(incomings, nb, nv),
        change_wf(change, nb),
    ensures
        edit::incomings_wf(edited(incomings, change), nb, nv),
{
    let changed = edited(incomings, change);
    match change {
        EditView::Rename { from, to } => {
            assert forall|k: int| 0 <= k < changed.len() implies (#[trigger] changed[k]).0.0 < nb
                && changed[k].1.0 < nv by {
                assert(incomings[k].0.0 < nb);
            }
        },
        EditView::Drop { pred } => {
            lemma_without_wf(incomings, pred, nb, nv);
        },
        EditView::Spread { from, preds } => {
            lemma_without_wf(incomings, from, nb, nv);
            crate::loops::lemma_incoming_in_range(incomings, from, nb, nv);
            let kept = without(incomings, from);
            if let Some(value) = util::incoming_from(incomings, from) {
                assert forall|k: int| 0 <= k < changed.len() implies (#[trigger] changed[k]).0.0
                    < nb && changed[k].1.0 < nv by {
                    if k < kept.len() {
                        assert(changed[k] == kept[k]);
                    } else {
                        assert(changed[k] == (preds[k - kept.len()], value));
                    }
                }
            }
        },
    }
}

pub proof fn lemma_edit_leading_wf(insts: Seq<InstView>, change: EditView, nb: nat, nv: nat)
    requires
        edit::insts_wf(insts, nb, nv),
        change_wf(change, nb),
    ensures
        edit::insts_wf(edit_leading(insts, change), nb, nv),
{
    let changed = edit_leading(insts, change);
    assert forall|k: int| 0 <= k < changed.len() implies edit::inst_wf(
        #[trigger] changed[k],
        nb,
        nv,
    ) by {
        assert(edit::inst_wf(insts[k], nb, nv));
        if let KindView::Phi { incomings } = insts[k].kind {
            lemma_edited_wf(incomings, change, nb, nv);
        }
    }
}

/// Removes the entries that come from `pred`.
fn remove_entries(incomings: &Vec<(BlockId, ValueId)>, pred: BlockId) -> (r: Vec<
    (BlockId, ValueId),
>)
    ensures
        r@ == without(incomings@, pred),
{
    let ghost keep = not_from(pred);
    let mut r: Vec<(BlockId, ValueId)> = Vec::new();
    let n = incomings.len();
    proof {
        reveal(Seq::filter);
        assert(incomings@.take(0).filter(keep) =~= Seq::<(BlockId, ValueId)>::empty());
    }
    for i in 0..n
        invariant
            n == incomings.len(),
            keep == not_from(pred),
            r@ == incomings@.take(i as int).filter(keep),
    {
        proof {
            reveal(Seq::filter);
            assert(incomings@.take(i + 1).drop_last() =~= incomings@.take(i as int));
            assert(incomings@.take(i + 1).last() == incomings@[i as int]);
        }
        if incomings[i].0 != pred {
            r.push((incomings[i].0, incomings[i].1));
        }
    }
    assert(incomings@.take(n as int) =~= incomings@);
    r
}

pub fn edit_incomings(incomings: &Vec<(BlockId, ValueId)>, change: &IncomingEdit) -> (r: Vec<
    (BlockId, ValueId),
>)
    ensures
        r@ == edited(incomings@, change@),
{
    match change {
        IncomingEdit::Rename { from, to } => {
            let mut r: Vec<(BlockId, ValueId)> = Vec::new();
            let n = incomings.len();
            for i in 0..n
                invariant
                    n == incomings.len(),
                    change@ == (EditView::Rename { from: *from, to: *to }),
                    r.len() == i,
                    forall|j: int| 0 <= j < i ==> #[trigger] r@[j] == edited(incomings@, change@)[j],
            {
                if incomings[i].0 == *from {
                    r.push((*to, incomings[i].1));
                } else {
                    r.push((incomings[i].0, incomings[i].1));
                }
            }
            assert(r@ =~= edited(incomings@, change@));
            r
        },
        IncomingEdit::Drop { pred } => remove_entries(incomings, *pred),
        IncomingEdit::Spread { from, preds } => {
            match first_incoming(incomings, *from) {
                None => ir::clone_incomings(incomings),
                Some(value) => {
                    let mut r = remove_entries(incomings, *from);
                    let ghost kept = r@;
                    let n = preds.len();
                    for i in 0..n
                        invariant
                            n == preds.len(),
                            r@ == kept + preds@.take(i as int).map_values(
                                |pred: BlockId| (pred, value),
                            ),
                    {
                        r.push((preds[i], value));
                        assert(r@ =~= kept + preds@.take(i + 1).map_values(
                            |pred: BlockId| (pred, value),
                        ));
                    }
                    assert(preds@.take(n as int) =~= preds@);
                    r
                },
            }
        },
    }
}

/// Changes the incoming lists of the leading phis of a block.
pub fn edit_leading_phis(func: &mut Function, b: BlockId, change: &IncomingEdit)
    requires
        old(func)@.has_block(b),
    ensures
        final(func)@ == old(func)@.with_insts(
            b,
            edit_leading(old(func)@.block(b).insts, change@),
        ),
        old(func)@.wf() && change_wf(change@, old(func)@.blocks.len()) ==> final(func)@.wf(),
{
    let ghost f = func@;
    let ghost insts = f.block(b).insts;
    let n = func.blocks[b.0].insts.len();
    let mut list: Vec<Inst> = Vec::new();
    let mut leading = true;
    for k in 0..n
        invariant
            func@ == f,
            f.has_block(b),
            insts == f.block(b).insts,
            n == insts.len(),
            leading == verify::phis_lead(insts, k as int),
            list.len() == k,
            forall|j: int|
                0 <= j < k ==> #[trigger] list@[j]@ == edit_leading(insts, change@)[j],
    {
        let inst = &func.blocks[b.0].insts[k];
        assert(inst@ == insts[k as int]);
        match &inst.kind {
            InstKind::Phi { incomings } => {
                if leading {
                    list.push(
                        Inst {
                            result: inst.result,
                            kind: InstKind::Phi { incomings: edit_incomings(incomings, change) },
                        },
                    );
                } else {
                    list.push(inst.clone());
                }
            },
            InstKind::Nop => {
                list.push(inst.clone());
            },
            _ => {
                list.push(inst.clone());
                assert(!verify::phis_lead(insts, k + 1)) by {
                    assert(!(insts[k as int].kind is Phi || insts[k as int].kind is Nop));
                }
                leading = false;
            },
        }
    }
    proof {
        assert(ir::insts_view(list@) =~= edit_leading(insts, change@));
        if f.wf() && change_wf(change@, f.blocks.len()) {
            query::lemma_terminator_wf(f, b);
            lemma_edit_leading_wf(insts, change@, f.blocks.len(), f.values.len());
        }
    }
    func.set_insts(b, list);
}

/// `target` without what its leading phis take from `pred`.
pub open spec fn drop_edge(f: FuncView, pred: BlockId, target: BlockId) -> FuncView {
    f.with_insts(target, edit_leading(f.block(target).insts, EditView::Drop { pred }))
}

/// Removes what the leading phis of `target` take from `pred`.
pub fn remove_phi_incomings(func: &mut Function, pred: BlockId, target: BlockId)
    requires
        old(func)@.has_block(target),
    ensures
        final(func)@ == drop_edge(old(func)@, pred, target),
        old(func)@.wf() ==> final(func)@.wf(),
{
    edit_leading_phis(func, target, &IncomingEdit::Drop { pred });
}

// ---------------------------------------------------------------------------
// Merging a block with its only successor
// ---------------------------------------------------------------------------

/// Some phi defines a value.
pub open spec fn has_live_phi(insts: Seq<InstView>) -> bool {
    exists|i: int|
        0 <= i < insts.len() && (#[trigger] insts[i]).kind is Phi && insts[i].result is Some
}

/// The block that can be merged into `b`: `b` always continues there, and
/// nothing else does.
pub open spec fn mergeable(f: FuncView, b: BlockId) -> Option<BlockId> {
    match query::jump_of(f, b) {
        Some(s) => if s != b && s != f.entry && cfg::preds(f, s) == seq![b] && f.terminator(
            s,
        ) is Some && !has_live_phi(f.block(s).insts) {
            Some(s)
        } else {
            None
        },
        None => None,
    }
}

/// The value table when the first `n` instructions of a list have moved to
/// block `b`, from position `first` on.
pub open spec fn moved_values(
    values: Seq<ValueView>,
    insts: Seq<InstView>,
    b: BlockId,
    first: int,
    n: int,
) -> Seq<ValueView>
    decreases n,
{
    if n <= 0 {
        values
    } else {
        let before = moved_values(values, insts, b, first, n - 1);
        match insts[n - 1].result {
            Some(r) => before.update(
                r.0 as int,
                ValueView {
                    kind: ValueKindView::Inst(b, (first + n - 1) as usize),
                    ..before[r.0 as int]
                },
            ),
            None => before,
        }
    }
}

/// Every block with the incoming lists of its leading phis changed.
pub open spec fn edit_all(blocks: Seq<BlockView>, change: EditView) -> Seq<BlockView> {
    blocks.map_values(
        |block: BlockView| BlockView { insts: edit_leading(block.insts, change), ..block },
    )
}

/// `b` followed by `s`; `s` is left empty.
pub open spec fn joined(f: FuncView, b: BlockId, s: BlockId) -> FuncView {
    let body = f.block(b);
    let tail = f.block(s);
    FuncView {
        values: moved_values(
            f.values,
            tail.insts,
            b,
            body.insts.len() as int,
            tail.insts.len() as int,
        ),
        blocks: f.blocks.update(
            s.0 as int,
            BlockView { name: tail.name, insts: Seq::empty(), terminator: None },
        ).update(
            b.0 as int,
            BlockView {
                name: body.name,
                insts: body.insts + tail.insts,
                terminator: tail.terminator,
            },
        ),
        ..f
    }
}

/// The function after `s` has been merged into `b`.
pub open spec fn merged(f: FuncView, b: BlockId, s: BlockId) -> FuncView {
    let g = joined(f, b, s);
    FuncView { blocks: edit_all(g.blocks, EditView::Rename { from: s, to: b }), ..g }
}

/// The first block at or behind `b` that can be merged with its successor.
pub open spec fn first_mergeable(f: FuncView, b: int) -> Option<(BlockId, BlockId)>
    decreases f.blocks.len() - b,
{
    if b < 0 || b >= f.blocks.len() {
        None
    } else {
        match mergeable(f, BlockId(b as usize)) {
            Some(s) => Some((BlockId(b as usize), s)),
            None => first_mergeable(f, b + 1),
        }
    }
}

/// The effect of one merging step.
pub open spec fn merge_step(f: FuncView) -> (FuncView, bool) {
    match first_mergeable(f, 0) {
        Some((b, s)) => (merged(f, b, s), true),
        None => (f, false),
    }
}

fn block_has_live_phi(func: &Function, b: BlockId) -> (r: bool)
    requires
        func@.has_block(b),
    ensures
        r == has_live_phi(func@.block(b).insts),
{
    let n = func.blocks[b.0].insts.len();
    for i in 0..n
        invariant
            func@.has_block(b),
            n == func@.block(b).insts.len(),
            forall|j: int|
                0 <= j < i ==> !((#[trigger] func@.block(b).insts[j]).kind is Phi && func@.block(
                    b,
                ).insts[j].result is Some),
    {
        let inst = &func.blocks[b.0].insts[i];
        assert(inst@ == func@.block(b).insts[i as int]);
        if let InstKind::Phi { .. } = inst.kind {
            if inst.result.is_some() {
                return true;
            }
        }
    }
    false
}

fn find_mergeable(func: &Function, graph: &ControlFlowGraph, b: BlockId) -> (r: Option<BlockId>)
    requires
        func@.wf(),
        graph.of(func@),
        func@.has_block(b),
    ensures
        r == mergeable(func@, b),
{
    proof {
        query::lemma_terminator_wf(func@, b);
    }
    let s = jump_target(func, b)?;
    if s == b || s == func.entry || !only_pred(func, graph, s, b)
        || func.blocks[s.0].terminator.is_none() || block_has_live_phi(func, s) {
        return None;
    }
    Some(s)
}

proof fn lemma_moved_values_len(
    values: Seq<ValueView>,
    insts: Seq<InstView>,
    b: BlockId,
    first: int,
    n: int,
)
    requires
        n <= insts.len(),
        forall|i: int|
            0 <= i < insts.len() ==> ((#[trigger] insts[i]).result matches Some(r) ==> r.0
                < values.len()),
    ensures
        moved_values(values, insts, b, first, n).len() == values.len(),
    decreases n,
{
    if n > 0 {
        lemma_moved_values_len(values, insts, b, first, n - 1);
    }
}

proof fn lemma_moved_values_wf(
    values: Seq<ValueView>,
    insts: Seq<InstView>,
    b: BlockId,
    first: int,
    n: int,
    nb: nat,
)
    requires
        b.0 < nb,
        n <= insts.len(),
        forall|i: int|
            0 <= i < insts.len() ==> ((#[trigger] insts[i]).result matches Some(r) ==> r.0
                < values.len()),
        forall|v: int| 0 <= v < values.len() ==> edit::value_wf(#[trigger] values[v], nb),
    ensures
        forall|v: int|
            0 <= v < values.len() ==> edit::value_wf(
                #[trigger] moved_values(values, insts, b, first, n)[v],
                nb,
            ),
    decreases n,
{
    if n > 0 {
        lemma_moved_values_wf(values, insts, b, first, n - 1, nb);
        lemma_moved_values_len(values, insts, b, first, n - 1);
    }
}

pub proof fn lemma_merged_wf(f: FuncView, b: BlockId, s: BlockId)
    requires
        f.wf(),
        f.has_block(b),
        f.has_block(s),
        b != s,
    ensures
        joined(f, b, s).wf(),
        merged(f, b, s).wf(),
{
    let nb = f.blocks.len();
    let nv = f.values.len();
    let body = f.block(b);
    let tail = f.block(s);
    query::lemma_terminator_wf(f, b);
    query::lemma_terminator_wf(f, s);
    let first = body.insts.len() as int;
    let n = tail.insts.len() as int;
    assert forall|i: int| 0 <= i < tail.insts.len() implies ((
    #[trigger] tail.insts[i]).result matches Some(r) ==> r.0 < nv) by {
        assert(edit::inst_wf(tail.insts[i], nb, nv));
    }
    lemma_moved_values_len(f.values, tail.insts, b, first, n);
    lemma_moved_values_wf(f.values, tail.insts, b, first, n, nb);
    let g = joined(f, b, s);
    assert(edit::insts_wf(body.insts + tail.insts, nb, nv)) by {
        let all = body.insts + tail.insts;
        assert forall|i: int| 0 <= i < all.len() implies edit::inst_wf(
            #[trigger] all[i],
            nb,
            nv,
        ) by {
            if i < first {
                assert(all[i] == body.insts[i]);
            } else {
                assert(all[i] == tail.insts[i - first]);
            }
        }
    }
    assert forall|k: int| 0 <= k < g.blocks.len() implies edit::block_wf(
        #[trigger] g.blocks[k],
        nb,
        nv,
    ) by {
        assert(edit::block_wf(f.blocks[k], nb, nv));
    }
    let change = EditView::Rename { from: s, to: b };
    let h = merged(f, b, s);
    assert forall|k: int| 0 <= k < h.blocks.len() implies edit::block_wf(
        #[trigger] h.blocks[k],
        nb,
        nv,
    ) by {
        assert(edit::block_wf(g.blocks[k], nb, nv));
        lemma_edit_leading_wf(g.blocks[k].insts, change, nb, nv);
    }
}

/// Changes the incoming lists of the leading phis of every block.
pub fn edit_every_block(func: &mut Function, change: &IncomingEdit)
    ensures
        final(func)@ == (FuncView { blocks: edit_all(old(func)@.blocks, change@), ..old(func)@ }),
{
    let ghost f = func@;
    let n = func.blocks.len();
    for k in 0..n
        invariant
            n == f.blocks.len(),
            func@ == (FuncView { blocks: func@.blocks, ..f }),
            func@.blocks.len() == n,
            forall|j: int|
                0 <= j < k ==> #[trigger] func@.blocks[j] == edit_all(f.blocks, change@)[j],
            forall|j: int| k <= j < n ==> #[trigger] func@.blocks[j] == f.blocks[j],
    {
        edit_leading_phis(func, BlockId(k), change);
    }
    assert(func@.blocks =~= edit_all(f.blocks, change@));
}

/// Moves the instructions and the terminator of `s` to the end of `b`.
fn join_blocks(func: &mut Function, b: BlockId, s: BlockId)
    requires
        old(func)@.wf(),
        old(func)@.has_block(b),
        old(func)@.has_block(s),
        b != s,
    ensures
        final(func)@ == joined(old(func)@, b, s),
{
    let ghost f = func@;
    let ghost body = f.block(b);
    let ghost tail = f.block(s);
    proof {
        query::lemma_terminator_wf(f, s);
        assert forall|i: int| 0 <= i < tail.insts.len() implies ((
        #[trigger] tail.insts[i]).result matches Some(r) ==> r.0 < f.values.len()) by {
            assert(edit::inst_wf(tail.insts[i], f.blocks.len(), f.values.len()));
        }
    }
    let first = func.blocks[b.0].insts.len();
    let n = func.blocks[s.0].insts.len();
    let moved_terminator = func.blocks[s.0].terminator;
    let mut all: Vec<Inst> = Vec::new();
    for i in 0..first
        invariant
            func@ == f,
            f.has_block(b),
            body == f.block(b),
            first == body.insts.len(),
            all.len() == i,
            forall|j: int| 0 <= j < i ==> #[trigger] all@[j]@ == body.insts[j],
    {
        let inst = &func.blocks[b.0].insts[i];
        assert(inst@ == body.insts[i as int]);
        all.push(inst.clone());
    }
    for i in 0..n
        invariant
            f.has_block(b),
            f.has_block(s),
            f.wf(),
            body == f.block(b),
            tail == f.block(s),
            first == body.insts.len(),
            n == tail.insts.len(),
            edit::insts_wf(tail.insts, f.blocks.len(), f.values.len()),
            forall|j: int|
                0 <= j < tail.insts.len() ==> ((#[trigger] tail.insts[j]).result matches Some(r)
                    ==> r.0 < f.values.len()),
            func@ == (FuncView {
                values: moved_values(f.values, tail.insts, b, first as int, i as int),
                ..f
            }),
            all.len() == first + i,
            forall|j: int|
                0 <= j < first + i ==> #[trigger] all@[j]@ == (body.insts + tail.insts)[j],
    {
        let inst = func.blocks[s.0].insts[i].clone();
        assert(func@.block(s) == tail);
        assert(inst@ == tail.insts[i as int]);
        assert((body.insts + tail.insts)[first + i] == tail.insts[i as int]);
        assert(edit::inst_wf(tail.insts[i as int], f.blocks.len(), f.values.len()));
        if let Some(r) = inst.result {
            proof {
                lemma_moved_values_len(f.values, tail.insts, b, first as int, i as int);
                assert(func@.values.len() == func.values.len());
                assert(all.len() <= usize::MAX);
            }
            let ghost before = func@;
            let at = all.len();
            func.values[r.0].kind = ValueKind::Inst(b, at);
            assert(func@.values =~= moved_values(
                f.values,
                tail.insts,
                b,
                first as int,
                i + 1,
            ));
        }
        all.push(inst);
    }
    proof {
        assert(ir::insts_view(all@) =~= body.insts + tail.insts);
    }
    let empty: Vec<Inst> = Vec::new();
    assert(ir::insts_view(empty@) =~= Seq::<InstView>::empty());
    func.set_insts(s, empty);
    func.put_terminator(s, None);
    func.set_insts(b, all);
    func.put_terminator(b, moved_terminator);
    assert(func@.blocks =~= joined(f, b, s).blocks);
}

/// Merges the first block that is the only way to its only successor with
/// that successor.
pub fn merge_linear_block(func: &mut Function) -> (r: bool)
    requires
        old(func)@.wf(),
    ensures
        (final(func)@, r) == merge_step(old(func)@),
        final(func)@.wf(),
{
    let graph = ControlFlowGraph::new(func);
    let n = func.blocks.len();
    for b in 0..n
        invariant
            func@ == old(func)@,
            func@.wf(),
            n == func@.blocks.len(),
            graph.of(func@),
            first_mergeable(func@, 0) == first_mergeable(func@, b as int),
    {
        let block = BlockId(b);
        if let Some(s) = find_mergeable(func, &graph, block) {
            let ghost f = func@;
            proof {
                query::lemma_terminator_wf(f, block);
                lemma_merged_wf(f, block, s);
            }
            join_blocks(func, block, s);
            edit_every_block(func, &IncomingEdit::Rename { from: s, to: block });
            return true;
        }
    }
    false
}

// ---------------------------------------------------------------------------
// Forwarding through an empty block
// ---------------------------------------------------------------------------

/// The terminator with `from` replaced by `to` among its targets.
pub open spec fn redirected(t: Option<Terminator>, from: BlockId, to: BlockId) -> Option<
    Terminator,
> {
    match t {
        Some(Terminator::Jump(target)) => Some(
            Terminator::Jump(
                if target == from {
                    to
                } else {
                    target
                },
            ),
        ),
        Some(Terminator::Branch { cond, then_target, else_target }) => Some(
            Terminator::Branch {
                cond,
                then_target: if then_target == from {
                    to
                } else {
                    then_target
                },
                else_target: if else_target == from {
                    to
                } else {
                    else_target
                },
            },
        ),
        t => t,
    }
}

/// No block of the list continues at `target`.
pub open spec fn none_leads_to(f: FuncView, list: Seq<BlockId>, target: BlockId) -> bool {
    forall|k: int| 0 <= k < list.len() ==> !cfg::edge(f, #[trigger] list[k], target)
}

/// No entry comes from a block of the list.
pub open spec fn none_from(incomings: Seq<(BlockId, ValueId)>, list: Seq<BlockId>) -> bool {
    forall|k: int|
        0 <= k < list.len() ==> util::incoming_from(incomings, #[trigger] list[k]) is None
}

/// The phi at position `i` takes a value from `b` and none from the list.
pub open spec fn phi_spreads(insts: Seq<InstView>, i: int, b: BlockId, list: Seq<BlockId>) -> bool {
    match insts[i].kind {
        KindView::Phi { incomings } => util::incoming_from(incomings, b) is Some && none_from(
            incomings,
            list,
        ),
        _ => true,
    }
}

/// Every leading phi can take its value straight from the blocks of the list.
pub open spec fn phis_spread(insts: Seq<InstView>, b: BlockId, list: Seq<BlockId>) -> bool {
    forall|i: int|
        0 <= i < insts.len() && verify::phis_lead(insts, i) ==> #[trigger] phi_spreads(
            insts,
            i,
            b,
            list,
        )
}

/// The target to which the predecessors of the empty block `b` can jump.
pub open spec fn forwardable(f: FuncView, b: BlockId, kept: Seq<BlockId>) -> Option<BlockId> {
    match query::jump_of(f, b) {
        Some(t) => if b != f.entry && !kept.contains(b) && query::all_nops(f.block(b).insts) && t
            != b && cfg::preds(f, b).len() > 0 && none_leads_to(f, cfg::preds(f, b), t)
            && phis_spread(f.block(t).insts, b, cfg::preds(f, b)) {
            Some(t)
        } else {
            None
        },
        None => None,
    }
}

/// The function when everything that led to `b` leads to `t`.
pub open spec fn forwarded(f: FuncView, b: BlockId, t: BlockId) -> FuncView {
    let g = FuncView {
        blocks: f.blocks.map_values(
            |block: BlockView|
                BlockView { terminator: redirected(block.terminator, b, t), ..block },
        ),
        ..f
    };
    // The empty block itself still leads to `t`.
    g.with_insts(
        t,
        edit_leading(g.block(t).insts, EditView::Spread { from: b, preds: cfg::preds(f, b) }),
    )
}

pub open spec fn first_forwardable(f: FuncView, b: int, kept: Seq<BlockId>) -> Option<
    (BlockId, BlockId),
>
    decreases f.blocks.len() - b,
{
    if b < 0 || b >= f.blocks.len() {
        None
    } else {
        match forwardable(f, BlockId(b as usize), kept) {
            Some(t) => Some((BlockId(b as usize), t)),
            None => first_forwardable(f, b + 1, kept),
        }
    }
}

/// The effect of one forwarding step.
pub open spec fn forward_step(f: FuncView, kept: Seq<BlockId>) -> (FuncView, bool) {
    match first_forwardable(f, 0, kept) {
        Some((b, t)) => (forwarded(f, b, t), true),
        None => (f, false),
    }
}

/// Whether a terminator names `target`.
fn leads_to(t: &Option<Terminator>, target: BlockId) -> (r: bool)
    ensures
        r == cfg::succ_list(*t).contains(target),
{
    match t {
        Some(Terminator::Jump(a)) => {
            assert(cfg::succ_list(*t)[0] == *a);
            *a == target
        },
        Some(Terminator::Branch { cond: _, then_target, else_target }) => {
            assert(cfg::succ_list(*t)[0] == *then_target);
            if *then_target != *else_target {
                assert(cfg::succ_list(*t)[1] == *else_target);
            }
            *then_target == target || *else_target == target
        },
        _ => false,
    }
}

fn redirect(t: &Option<Terminator>, from: BlockId, to: BlockId) -> (r: Option<Terminator>)
    ensures
        r == redirected(*t, from, to),
{
    match t {
        Some(Terminator::Jump(target)) => Some(
            Terminator::Jump(
                if *target == from {
                    to
                } else {
                    *target
                },
            ),
        ),
        Some(Terminator::Branch { cond, then_target, else_target }) => Some(
            Terminator::Branch {
                cond: *cond,
                then_target: if *then_target == from {
                    to
                } else {
                    *then_target
                },
                else_target: if *else_target == from {
                    to
                } else {
                    *else_target
                },
            },
        ),
        _ => *t,
    }
}

fn none_takes_from(incomings: &Vec<(BlockId, ValueId)>, list: &Vec<BlockId>) -> (r: bool)
    ensures
        r == none_from(incomings@, list@),
{
    let n = list.len();
    for k in 0..n
        invariant
            n == list.len(),
            forall|j: int|
                0 <= j < k ==> util::incoming_from(incomings@, #[trigger] list@[j]) is None,
    {
        if first_incoming(incomings, list[k]).is_some() {
            assert(util::incoming_from(incomings@, list@[k as int]) is Some);
            return false;
        }
    }
    true
}

fn phis_can_spread(func: &Function, t: BlockId, b: BlockId, list: &Vec<BlockId>) -> (r: bool)
    requires
        func@.has_block(t),
    ensures
        r == phis_spread(func@.block(t).insts, b, list@),
{
    let ghost insts = func@.block(t).insts;
    let n = func.blocks[t.0].insts.len();
    for i in 0..n
        invariant
            func@.has_block(t),
            insts == func@.block(t).insts,
            n == insts.len(),
            verify::phis_lead(insts, i as int),
            forall|j: int| 0 <= j < i ==> #[trigger] phi_spreads(insts, j, b, list@),
    {
        let inst = &func.blocks[t.0].insts[i];
        assert(inst@ == insts[i as int]);
        match &inst.kind {
            InstKind::Phi { incomings } => {
                if first_incoming(incomings, b).is_none() || !none_takes_from(incomings, list) {
                    assert(!phi_spreads(insts, i as int, b, list@));
                    return false;
                }
            },
            InstKind::Nop => {},
            _ => {
                assert forall|j: int| 0 <= j < insts.len() && verify::phis_lead(insts, j) implies
                #[trigger] phi_spreads(insts, j, b, list@) by {
                    if j > i {
                        assert(!(insts[i as int].kind is Phi || insts[i as int].kind is Nop));
                    }
                }
                return true;
            },
        }
    }
    true
}

#[verifier::loop_isolation(false)]
fn find_forwardable(
    func: &Function,
    graph: &ControlFlowGraph,
    b: BlockId,
    kept: &Vec<BlockId>,
) -> (r: Option<BlockId>)
    requires
        func@.wf(),
        graph.of(func@),
        func@.has_block(b),
    ensures
        r == forwardable(func@, b, kept@),
{
    proof {
        assert(func.blocks.len() == func@.blocks.len());
        query::lemma_terminator_wf(func@, b);
        query::lemma_preds_wf(func@, b);
    }
    let t = jump_target(func, b)?;
    if b == func.entry || contains_block(kept, b) || !block_is_empty(func, b) || t == b {
        return None;
    }
    let preds = preds_of(func, graph, b);
    let n = preds.len();
    if n == 0 {
        return None;
    }
    for k in 0..n
        invariant
            func@.wf(),
            n == preds.len(),
            preds@ == cfg::preds(func@, b),
            forall|j: int|
                0 <= j < cfg::preds(func@, b).len() ==> func@.has_block(
                    #[trigger] cfg::preds(func@, b)[j],
                ),
            forall|j: int| 0 <= j < k ==> !cfg::edge(func@, #[trigger] preds@[j], t),
    {
        assert(func@.has_block(cfg::preds(func@, b)[k as int]));
        if leads_to(&func.blocks[preds[k].0].terminator, t) {
            assert(cfg::edge(func@, preds@[k as int], t));
            return None;
        }
    }
    if !phis_can_spread(func, t, b, preds) {
        return None;
    }
    Some(t)
}

/// Redirects every jump to `b` so that it leads to `t`.
fn redirect_all(func: &mut Function, b: BlockId, t: BlockId)
    requires
        old(func)@.has_block(t),
    ensures
        final(func)@ == (FuncView {
            blocks: old(func)@.blocks.map_values(
                |block: BlockView|
                    BlockView { terminator: redirected(block.terminator, b, t), ..block },
            ),
            ..old(func)@
        }),
        old(func)@.wf() ==> final(func)@.wf(),
{
    let ghost f = func@;
    let ghost want = f.blocks.map_values(
        |block: BlockView| BlockView { terminator: redirected(block.terminator, b, t), ..block },
    );
    let n = func.blocks.len();
    for k in 0..n
        invariant
            n == f.blocks.len(),
            f.has_block(t),
            want == f.blocks.map_values(
                |block: BlockView|
                    BlockView { terminator: redirected(block.terminator, b, t), ..block },
            ),
            func@ == (FuncView { blocks: func@.blocks, ..f }),
            func@.blocks.len() == n,
            f.wf() ==> func@.wf(),
            forall|j: int| 0 <= j < k ==> #[trigger] func@.blocks[j] == want[j],
            forall|j: int| k <= j < n ==> #[trigger] func@.blocks[j] == f.blocks[j],
    {
        proof {
            if f.wf() {
                query::lemma_terminator_wf(func@, BlockId(k));
            }
            assert(func.blocks.len() == func@.blocks.len());
        }
        let terminator = redirect(&func.blocks[k].terminator, b, t);
        func.put_terminator(BlockId(k), terminator);
    }
    assert(func@.blocks =~= want);
}

/// Lets the predecessors of the first empty block that is not in `kept` jump
/// straight to its target.
pub fn forward_empty_jump_block_except(func: &mut Function, kept: &Vec<BlockId>) -> (r: bool)
    requires
        old(func)@.wf(),
    ensures
        (final(func)@, r) == forward_step(old(func)@, kept@),
        final(func)@.wf(),
{
    let graph = ControlFlowGraph::new(func);
    let n = func.blocks.len();
    for b in 0..n
        invariant
            func@ == old(func)@,
            func@.wf(),
            n == func@.blocks.len(),
            graph.of(func@),
            first_forwardable(func@, 0, kept@) == first_forwardable(func@, b as int, kept@),
    {
        let block = BlockId(b);
        if let Some(t) = find_forwardable(func, &graph, block, kept) {
            let ghost f = func@;
            proof {
                assert(func.blocks.len() == f.blocks.len());
                query::lemma_terminator_wf(f, block);
                query::lemma_preds_wf(f, block);
            }
            let preds = preds_of(func, &graph, block).clone();
            assert(preds@ =~= cfg::preds(f, block));
            redirect_all(func, block, t);
            edit_leading_phis(func, t, &IncomingEdit::Spread { from: block, preds });
            return true;
        }
    }
    false
}

/// Lets the predecessors of the first empty block jump straight to its target.
pub fn forward_empty_jump_block(func: &mut Function) -> (r: bool)
    requires
        old(func)@.wf(),
    ensures
        (final(func)@, r) == forward_step(old(func)@, Seq::empty()),
        final(func)@.wf(),
{
    let none: Vec<BlockId> = Vec::new();
    assert(none@ =~= Seq::<BlockId>::empty());
    forward_empty_jump_block_except(func, &none)
}

} // verus!
