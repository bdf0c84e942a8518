//! Moving of pointer updates to the back edges of their loops.
use vstd::prelude::*;

use crate::cfg;
use crate::cfg::block_successors;
use crate::emit;
use crate::emit::{emit, end_jump, end_with, new_block, refill, set_phi};
use crate::ir;
use crate::ir::{
    BlockId, FuncView, Function, Inst, InstKind, InstView, KindView, Terminator, ValueId,
};
use crate::pass::edges;
use crate::pass::edges::redirect;
use crate::pass::recurrence_update_sink::search;
use crate::pass::recurrence_update_sink::search::{Candidate, CandidateView};
use crate::util;
use crate::util::defining_inst;
use crate::verify::contains_block;

verus! {

// ---------------------------------------------------------------------------
// Mathematical model
// ---------------------------------------------------------------------------

/// The entries of a phi, among the first `n`, that come from the blocks, or that
/// do not.
pub open spec fn entries_split(
    incomings: Seq<(BlockId, ValueId)>,
    blocks: Seq<BlockId>,
    from: bool,
    n: int,
) -> Seq<(BlockId, ValueId)>
    decreases n,
{
    if n <= 0 {
        Seq::empty()
    } else {
        let before = entries_split(incomings, blocks, from, n - 1);
        if blocks.contains(incomings[n - 1].0) == from {
            before.push(incomings[n - 1])
        } else {
            before
        }
    }
}

/// The function with what the phi at place `i` of the header takes from the back
/// edges merged in the new latch.
pub open spec fn phi_merged(
    f: FuncView,
    header: BlockId,
    latch: BlockId,
    backedges: Seq<BlockId>,
    i: int,
) -> FuncView {
    let inst = f.inst(header, i);
    match inst.kind {
        KindView::Phi { incomings } => {
            let n = incomings.len() as int;
            let from = entries_split(incomings, backedges, true, n);
            let rest = entries_split(incomings, backedges, false, n);
            if from.len() == 0 {
                f
            } else if search::all_take(from, from[0].1) {
                entry_added(f, header, i, rest, latch, from[0].1)
            } else {
                match inst.result {
                    Some(v) => if f.has_value(v) {
                        entry_added(
                            emit::emitted(f, latch.0, emit::phi(from), f.value(v).ty),
                            header,
                            i,
                            rest,
                            latch,
                            f.next_value(),
                        )
                    } else {
                        f
                    },
                    None => f,
                }
            }
        },
        _ => f,
    }
}

/// The function with the phi at place `i` of the header taking the value from the
/// new latch, beside the other entries.
pub open spec fn entry_added(
    f: FuncView,
    header: BlockId,
    i: int,
    rest: Seq<(BlockId, ValueId)>,
    latch: BlockId,
    v: ValueId,
) -> FuncView {
    emit::refilled(
        f,
        header.0,
        f.block(header).insts.update(
            i,
            InstView {
                result: f.inst(header, i).result,
                kind: KindView::Phi { incomings: rest.push((latch, v)) },
            },
        ),
    )
}

/// The function with the first `n` instructions of the header merged.
pub open spec fn phis_merged(
    f: FuncView,
    header: BlockId,
    latch: BlockId,
    backedges: Seq<BlockId>,
    n: int,
) -> FuncView
    decreases n,
{
    if n <= 0 {
        f
    } else {
        phi_merged(phis_merged(f, header, latch, backedges, n - 1), header, latch, backedges, n - 1)
    }
}

/// The function with the first `n` back edges going to the new latch.
pub open spec fn edges_moved(
    f: FuncView,
    header: BlockId,
    latch: BlockId,
    backedges: Seq<BlockId>,
    n: int,
) -> FuncView
    decreases n,
{
    if n <= 0 {
        f
    } else {
        let before = edges_moved(f, header, latch, backedges, n - 1);
        match before.terminator(backedges[n - 1]) {
            Some(t) => emit::ended(
                before,
                backedges[n - 1].0,
                edges::redirected(t, header, latch),
            ),
            None => before,
        }
    }
}

/// The function with a new latch that all back edges go to.
pub open spec fn latch_added(f: FuncView, header: BlockId, backedges: Seq<BlockId>) -> FuncView {
    let latch = f.next_block();
    let g1 = emit::block_added(f, "recurrence.update.latch"@);
    let g2 = emit::ended(g1, latch.0, Terminator::Jump(header));
    let g3 = phis_merged(g2, header, latch, backedges, f.block(header).insts.len() as int);
    edges_moved(g3, header, latch, backedges, backedges.len() as int)
}

/// The function, and for each header the block that its updates go to.
pub struct Sunk {
    pub func: FuncView,
    pub homes: Seq<Option<BlockId>>,
}

/// The block that the updates of a header go to: the one before, the only source
/// of a back edge if it leads nowhere else, or a new latch.
pub open spec fn homed(s: Sunk, c: CandidateView) -> (Sunk, BlockId) {
    match s.homes[c.header.0 as int] {
        Some(b) => (s, b),
        None => if c.backedges.len() == 1 && cfg::succ_list(
            s.func.terminator(c.backedges[0]),
        ).len() == 1 {
            let b = c.backedges[0];
            (Sunk { homes: s.homes.update(c.header.0 as int, Some(b)), ..s }, b)
        } else {
            let b = s.func.next_block();
            (
                Sunk {
                    func: latch_added(s.func, c.header, c.backedges),
                    homes: s.homes.update(c.header.0 as int, Some(b)),
                },
                b,
            )
        },
    }
}

/// The entry of the phi with the new value, if it takes the update from the
/// block.
pub open spec fn entry_sunk(e: (BlockId, ValueId), b: BlockId, update: ValueId, v: ValueId) -> (
    BlockId,
    ValueId,
) {
    if e.0 == b && e.1 == update {
        (e.0, v)
    } else {
        e
    }
}

pub open spec fn entries_sunk(
    incomings: Seq<(BlockId, ValueId)>,
    b: BlockId,
    update: ValueId,
    v: ValueId,
) -> Seq<(BlockId, ValueId)> {
    Seq::new(incomings.len(), |k: int| entry_sunk(incomings[k], b, update, v))
}

/// The function with a copy of the update in its block, which the phi takes.
pub open spec fn update_sunk(s: Sunk, c: CandidateView) -> Sunk {
    let (t, b) = homed(s, c);
    let v = t.func.next_value();
    let g = emit::emitted(
        t.func,
        b.0,
        KindView::Gep { base: c.phi, indices: seq![c.index] },
        c.ty,
    );
    Sunk {
        func: match util::def_kind(g, c.phi) {
            Some(KindView::Phi { incomings }) => emit::phi_set(
                g,
                c.phi,
                entries_sunk(incomings, b, c.update, v),
            ),
            _ => g,
        },
        homes: t.homes,
    }
}

pub open spec fn updates_sunk(f: FuncView, list: Seq<CandidateView>, n: int) -> Sunk
    decreases n,
{
    if n <= 0 {
        Sunk { func: f, homes: Seq::new(f.blocks.len(), |b: int| None) }
    } else {
        update_sunk(updates_sunk(f, list, n - 1), list[n - 1])
    }
}

/// The function with the updates moved to the back edges.
pub open spec fn all_sunk(f: FuncView, list: Seq<CandidateView>) -> FuncView {
    updates_sunk(f, list, list.len() as int).func
}

// ---------------------------------------------------------------------------
// Executable functions
// ---------------------------------------------------------------------------

fn split_entries(incomings: &Vec<(BlockId, ValueId)>, blocks: &Vec<BlockId>, from: bool) -> (r: Vec<
    (BlockId, ValueId),
>)
    ensures
        r@ == entries_split(incomings@, blocks@, from, incomings.len() as int),
{
    let mut list: Vec<(BlockId, ValueId)> = Vec::new();
    let n = incomings.len();
    for k in 0..n
        invariant
            n == incomings.len(),
            list@ == entries_split(incomings@, blocks@, from, k as int),
    {
        let entry = incomings[k];
        if contains_block(blocks, entry.0) == from {
            list.push(entry);
        }
    }
    list
}

fn takes_one_value(entries: &Vec<(BlockId, ValueId)>) -> (r: bool)
    requires
        entries.len() > 0,
    ensures
        r == search::all_take(entries@, entries@[0].1),
{
    let n = entries.len();
    let v = entries[0].1;
    for k in 0..n
        invariant
            n > 0,
            n == entries.len(),
            v == entries@[0].1,
            forall|j: int| 0 <= j < k ==> (#[trigger] entries@[j]).1 == v,
    {
        if entries[k].1 != v {
            assert(entries@[k as int].1 != v);
            return false;
        }
    }
    true
}

fn add_entry(
    func: &mut Function,
    header: BlockId,
    i: usize,
    rest: Vec<(BlockId, ValueId)>,
    latch: BlockId,
    v: ValueId,
)
    requires
        old(func)@.has_inst(header, i as int),
    ensures
        final(func)@ == entry_added(old(func)@, header, i as int, rest@, latch, v),
        final(func)@.blocks.len() == old(func)@.blocks.len(),
        final(func)@.values.len() == old(func)@.values.len(),
        final(func)@.block(header).insts.len() == old(func)@.block(header).insts.len(),
{
    let ghost f = func@;
    let ghost insts = f.block(header).insts;
    let ghost want = insts.update(
        i as int,
        InstView {
            result: insts[i as int].result,
            kind: KindView::Phi { incomings: rest@.push((latch, v)) },
        },
    );
    let mut incomings = rest;
    incomings.push((latch, v));
    let ghost entries = incomings@;
    let mut list: Vec<Inst> = Vec::new();
    let n = func.blocks[header.0].insts.len();
    for k in 0..n
        invariant
            func@ == f,
            f.has_inst(header, i as int),
            insts == f.block(header).insts,
            n == insts.len(),
            entries == incomings@,
            entries == rest@.push((latch, v)),
            want == insts.update(
                i as int,
                InstView {
                    result: insts[i as int].result,
                    kind: KindView::Phi { incomings: entries },
                },
            ),
            list.len() == k,
            forall|j: int| 0 <= j < k ==> (#[trigger] list@[j])@ == want[j],
    {
        let inst = &func.blocks[header.0].insts[k];
        assert(inst@ == insts[k as int]);
        if k == i {
            list.push(
                Inst {
                    result: inst.result,
                    kind: InstKind::Phi { incomings: ir::clone_incomings(&incomings) },
                },
            );
        } else {
            list.push(inst.clone());
        }
    }
    assert(ir::insts_view(list@) =~= want);
    refill(func, header.0, list);
}

fn merge_phi(func: &mut Function, header: BlockId, latch: BlockId, backedges: &Vec<BlockId>, i: usize)
    requires
        old(func)@.has_inst(header, i as int),
        old(func)@.has_block(latch),
        header != latch,
    ensures
        final(func)@ == phi_merged(old(func)@, header, latch, backedges@, i as int),
        final(func)@.blocks.len() == old(func)@.blocks.len(),
        final(func)@.values.len() >= old(func)@.values.len(),
        final(func)@.block(header).insts.len() == old(func)@.block(header).insts.len(),
{
    let ghost f = func@;
    let inst = &func.blocks[header.0].insts[i];
    assert(inst@ == f.inst(header, i as int));
    let result = inst.result;
    let (from, rest) = match &inst.kind {
        InstKind::Phi { incomings } => (
            split_entries(incomings, backedges, true),
            split_entries(incomings, backedges, false),
        ),
        _ => return ,
    };
    if from.len() == 0 {
        return;
    }
    if takes_one_value(&from) {
        add_entry(func, header, i, rest, latch, from[0].1);
        return;
    }
    if let Some(v) = result {
        if v.0 < func.values.len() {
            assert(func.values@[v.0 as int]@ == f.value(v));
            let ty = func.values[v.0].ty.clone();
            let merged = emit(func, latch.0, InstKind::Phi { incomings: from }, ty);
            assert(func@.block(header) == f.block(header)) by {
                reveal(emit::emitted);
            }
            add_entry(func, header, i, rest, latch, merged);
        }
    }
}

fn add_latch(func: &mut Function, header: BlockId, backedges: &Vec<BlockId>) -> (r: BlockId)
    requires
        old(func)@.has_block(header),
        forall|k: int| 0 <= k < backedges.len() ==> old(func)@.has_block(#[trigger] backedges@[k]),
    ensures
        final(func)@ == latch_added(old(func)@, header, backedges@),
        r == old(func)@.next_block(),
        final(func)@.blocks.len() == old(func)@.blocks.len() + 1,
        final(func)@.values.len() >= old(func)@.values.len(),
{
    let ghost f = func@;
    let count = func.blocks[header.0].insts.len();
    assert(count == f.block(header).insts.len());
    let b = new_block(func, "recurrence.update.latch");
    let latch = BlockId(b);
    end_jump(func, b, header.0);
    assert(func@.block(header) == f.block(header)) by {
        reveal(emit::block_added);
        reveal(emit::ended);
    }
    let ghost start = func@;
    for i in 0..count
        invariant
            func@.blocks.len() == f.blocks.len() + 1,
            func@.values.len() >= f.values.len(),
            func@.has_block(header),
            func@.has_block(latch),
            header != latch,
            func@.block(header).insts.len() == count,
            func@ == phis_merged(start, header, latch, backedges@, i as int),
    {
        merge_phi(func, header, latch, backedges, i);
    }
    let ghost merged = func@;
    let n = backedges.len();
    for k in 0..n
        invariant
            n == backedges.len(),
            func@.blocks.len() == f.blocks.len() + 1,
            func@.values.len() >= f.values.len(),
            forall|k: int| 0 <= k < backedges.len() ==> f.has_block(#[trigger] backedges@[k]),
            func@ == edges_moved(merged, header, latch, backedges@, k as int),
    {
        let p = backedges[k];
        assert(f.has_block(backedges@[k as int]));
        assert(func.blocks@[p.0 as int]@ == func@.block(p));
        if let Some(t) = &func.blocks[p.0].terminator {
            let t = redirect(t, header, latch);
            end_with(func, p.0, t);
        }
    }
    latch
}

/// The homes are blocks of the function.
pub open spec fn homes_in(f: FuncView, homes: Seq<Option<BlockId>>) -> bool {
    forall|k: int| 0 <= k < homes.len() ==> (#[trigger] homes[k] matches Some(b) ==> f.has_block(b))
}

fn recurrence_update_block(func: &mut Function, c: &Candidate, homes: &mut Vec<Option<BlockId>>) -> (r:
    BlockId)
    requires
        search::candidate_in(old(homes).len() as nat, old(func)@.values.len(), c@),
        old(homes).len() <= old(func)@.blocks.len(),
        homes_in(old(func)@, old(homes)@),
    ensures
        (Sunk { func: final(func)@, homes: final(homes)@ }, r) == homed(
            (Sunk { func: old(func)@, homes: old(homes)@ }),
            c@,
        ),
        final(func)@.has_block(r),
        final(homes).len() == old(homes).len(),
        final(func)@.blocks.len() >= old(func)@.blocks.len(),
        final(func)@.values.len() >= old(func)@.values.len(),
        homes_in(final(func)@, final(homes)@),
{
    let h = c.header.0;
    if let Some(b) = homes[h] {
        assert(homes@[h as int] == Some(b));
        return b;
    }
    assert forall|k: int| 0 <= k < c.backedges.len() implies func@.has_block(
        #[trigger] c.backedges@[k],
    ) by {
        assert(c@.backedges[k].0 < homes.len());
    }
    if c.backedges.len() == 1 {
        assert(func@.has_block(c.backedges@[0]));
        let b = c.backedges[0];
        let targets = block_successors(func, b.0);
        if targets.len() == 1 {
            homes.set(h, Some(b));
            return b;
        }
    }
    let b = add_latch(func, c.header, &c.backedges);
    homes.set(h, Some(b));
    b
}

fn sink_entries(incomings: &Vec<(BlockId, ValueId)>, b: BlockId, update: ValueId, v: ValueId) -> (r:
    Vec<(BlockId, ValueId)>)
    ensures
        r@ == entries_sunk(incomings@, b, update, v),
{
    let mut list: Vec<(BlockId, ValueId)> = Vec::new();
    let n = incomings.len();
    for k in 0..n
        invariant
            n == incomings.len(),
            list.len() == k,
            forall|j: int|
                0 <= j < k ==> #[trigger] list@[j] == entry_sunk(incomings@[j], b, update, v),
    {
        let (p, w) = incomings[k];
        if p == b && w == update {
            list.push((p, v));
        } else {
            list.push((p, w));
        }
    }
    assert(list@ =~= entries_sunk(incomings@, b, update, v));
    list
}

fn sink_update(func: &mut Function, c: &Candidate, homes: &mut Vec<Option<BlockId>>)
    requires
        search::candidate_in(old(homes).len() as nat, old(func)@.values.len(), c@),
        old(homes).len() <= old(func)@.blocks.len(),
        homes_in(old(func)@, old(homes)@),
    ensures
        (Sunk { func: final(func)@, homes: final(homes)@ }) == update_sunk(
            (Sunk { func: old(func)@, homes: old(homes)@ }),
            c@,
        ),
        final(homes).len() == old(homes).len(),
        final(func)@.blocks.len() >= old(func)@.blocks.len(),
        final(func)@.values.len() >= old(func)@.values.len(),
        homes_in(final(func)@, final(homes)@),
{
    let b = recurrence_update_block(func, c, homes);
    let ghost before = func@;
    let indices = vec![c.index];
    assert(indices@ =~= seq![c.index]);
    let v = emit(func, b.0, InstKind::Gep { base: c.phi, indices }, c.ty.clone());
    let entries = match defining_inst(func, c.phi) {
        Some(InstKind::Phi { incomings }) => Some(sink_entries(incomings, b, c.update, v)),
        _ => None,
    };
    if let Some(entries) = entries {
        set_phi(func, c.phi, entries);
    }
    assert forall|k: int| 0 <= k < homes.len() implies (#[trigger] homes@[k] matches Some(b)
        ==> func@.has_block(b)) by {
        assert(homes@[k] matches Some(b) ==> before.has_block(b));
    }
}

/// Moves the updates to the back edges.
pub fn sink_all(func: &mut Function, list: &Vec<Candidate>)
    requires
        search::all_in(old(func)@.blocks.len(), old(func)@.values.len(), list@),
    ensures
        final(func)@ == all_sunk(old(func)@, search::candidates_view(list@)),
{
    let ghost f = func@;
    let ghost views = search::candidates_view(list@);
    let nb = func.blocks.len();
    assert(nb == f.blocks.len());
    let mut homes: Vec<Option<BlockId>> = Vec::new();
    for b in 0..nb
        invariant
            homes.len() == b,
            forall|j: int| 0 <= j < b ==> #[trigger] homes@[j] is None,
    {
        homes.push(None);
    }
    assert(homes@ =~= Seq::new(f.blocks.len(), |b: int| None));
    let n = list.len();
    assert(views.len() == n);
    for k in 0..n
        invariant
            n == list.len(),
            views == search::candidates_view(list@),
            views.len() == n,
            search::all_in(f.blocks.len(), f.values.len(), list@),
            homes.len() == f.blocks.len(),
            func@.blocks.len() >= f.blocks.len(),
            func@.values.len() >= f.values.len(),
            homes_in(func@, homes@),
            (Sunk { func: func@, homes: homes@ }) == updates_sunk(f, views, k as int),
    {
        assert(views[k as int] == list@[k as int]@);
        assert(search::candidate_in(f.blocks.len(), f.values.len(), list@[k as int]@));
        sink_update(func, &list[k], &mut homes);
    }
}

} // verus!
