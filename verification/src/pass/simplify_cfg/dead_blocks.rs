//! Removal of blocks that control cannot reach.
use vstd::prelude::*;

use crate::cfg;
use crate::cfg::{reach_from, successor_lists};
use crate::edit;
use crate::ir;
use crate::ir::{
    Block, BlockId, BlockView, Const, FuncView, Function, Inst, InstKind, InstView, KindView,
    Terminator, Value, ValueId, ValueKind, ValueKindView, ValueView,
};
use crate::query;

verus! {

/// Which blocks can be reached from the entry.
pub open spec fn live(f: FuncView) -> Seq<bool> {
    Seq::new(f.blocks.len(), |b: int| cfg::reachable(f, BlockId(b as usize)))
}

/// The number of marks set below `n`.
pub open spec fn rank(marks: Seq<bool>, n: int) -> nat
    decreases n,
{
    if n <= 0 {
        0
    } else {
        rank(marks, n - 1) + (if marks[n - 1] {
            1nat
        } else {
            0nat
        })
    }
}

/// The id of a block once the unmarked ones are gone.
pub open spec fn renumbered(marks: Seq<bool>, b: BlockId) -> BlockId {
    BlockId(rank(marks, b.0 as int) as usize)
}

pub open spec fn is_marked(marks: Seq<bool>) -> spec_fn((BlockId, ValueId)) -> bool {
    |inc: (BlockId, ValueId)| marks[inc.0.0 as int]
}

pub open spec fn compact_incomings(marks: Seq<bool>, incomings: Seq<(BlockId, ValueId)>) -> Seq<
    (BlockId, ValueId),
> {
    incomings.filter(is_marked(marks)).map_values(
        |inc: (BlockId, ValueId)| (renumbered(marks, inc.0), inc.1),
    )
}

pub open spec fn compact_inst(marks: Seq<bool>, inst: InstView) -> InstView {
    match inst.kind {
        KindView::Phi { incomings } => InstView {
            kind: KindView::Phi { incomings: compact_incomings(marks, incomings) },
            ..inst
        },
        _ => inst,
    }
}

pub open spec fn compact_terminator(marks: Seq<bool>, t: Option<Terminator>) -> Option<Terminator> {
    match t {
        Some(Terminator::Jump(target)) => Some(Terminator::Jump(renumbered(marks, target))),
        Some(Terminator::Branch { cond, then_target, else_target }) => Some(
            Terminator::Branch {
                cond,
                then_target: renumbered(marks, then_target),
                else_target: renumbered(marks, else_target),
            },
        ),
        t => t,
    }
}

pub open spec fn compact_block(marks: Seq<bool>, block: BlockView) -> BlockView {
    BlockView {
        name: block.name,
        insts: block.insts.map_values(|inst: InstView| compact_inst(marks, inst)),
        terminator: compact_terminator(marks, block.terminator),
    }
}

/// The marked blocks among the first `n`, with all ids renumbered.
pub open spec fn compact_blocks(marks: Seq<bool>, blocks: Seq<BlockView>, n: int) -> Seq<BlockView>
    decreases n,
{
    if n <= 0 {
        Seq::empty()
    } else if marks[n - 1] {
        compact_blocks(marks, blocks, n - 1).push(compact_block(marks, blocks[n - 1]))
    } else {
        compact_blocks(marks, blocks, n - 1)
    }
}

/// A definition in a removed block becomes a zero of its type: value ids stay
/// as they are.
pub open spec fn compact_value(marks: Seq<bool>, value: ValueView) -> ValueView {
    match value.kind {
        ValueKindView::Inst(owner, at) => if marks[owner.0 as int] {
            ValueView { kind: ValueKindView::Inst(renumbered(marks, owner), at), ..value }
        } else {
            ValueView { kind: ValueKindView::Const(Const::Zero(value.ty)), ..value }
        },
        _ => value,
    }
}

/// The function without its unmarked blocks.
pub open spec fn compacted(f: FuncView, marks: Seq<bool>) -> FuncView {
    FuncView {
        entry: renumbered(marks, f.entry),
        blocks: compact_blocks(marks, f.blocks, f.blocks.len() as int),
        values: f.values.map_values(|value: ValueView| compact_value(marks, value)),
        ..f
    }
}

pub open spec fn all_marked(marks: Seq<bool>) -> bool {
    forall|b: int| 0 <= b < marks.len() ==> #[trigger] marks[b]
}

/// The effect of removing the unreachable blocks.
pub open spec fn remove_step(f: FuncView) -> (FuncView, bool) {
    if all_marked(live(f)) {
        (f, false)
    } else {
        (compacted(f, live(f)), true)
    }
}

// ---------------------------------------------------------------------------
// Facts about the numbering
// ---------------------------------------------------------------------------

pub proof fn lemma_rank_monotone(marks: Seq<bool>, a: int, b: int)
    requires
        0 <= a <= b <= marks.len(),
    ensures
        rank(marks, a) <= rank(marks, b) <= rank(marks, a) + (b - a),
        a < b && marks[a] ==> rank(marks, a) < rank(marks, b),
    decreases b - a,
{
    if a < b {
        lemma_rank_monotone(marks, a, b - 1);
    }
}

pub proof fn lemma_compact_blocks(marks: Seq<bool>, blocks: Seq<BlockView>, n: int)
    requires
        0 <= n <= blocks.len(),
        marks.len() == blocks.len(),
    ensures
        compact_blocks(marks, blocks, n).len() == rank(marks, n),
        forall|b: int|
            0 <= b < n && marks[b] ==> rank(marks, b) < rank(marks, n) && (#[trigger] compact_blocks(
                marks,
                blocks,
                n,
            )[rank(marks, b) as int]) == compact_block(marks, blocks[b]),
    decreases n,
{
    if n > 0 {
        lemma_compact_blocks(marks, blocks, n - 1);
        assert forall|b: int| 0 <= b < n && marks[b] implies rank(marks, b) < rank(marks, n) && (
        #[trigger] compact_blocks(marks, blocks, n)[rank(marks, b) as int]) == compact_block(
            marks,
            blocks[b],
        ) by {
            lemma_rank_monotone(marks, b, n);
            if b < n - 1 {
                lemma_rank_monotone(marks, b, n - 1);
                assert(compact_blocks(marks, blocks, n - 1)[rank(marks, b) as int]
                    == compact_block(marks, blocks[b]));
            }
        }
    }
}

/// Every place of the new list comes from a marked block.
proof fn lemma_compact_source(marks: Seq<bool>, blocks: Seq<BlockView>, n: int, k: int) -> (b: int)
    requires
        0 <= n <= blocks.len(),
        marks.len() == blocks.len(),
        0 <= k < rank(marks, n),
    ensures
        0 <= b < n,
        marks[b],
        rank(marks, b) == k,
    decreases n,
{
    if k < rank(marks, n - 1) {
        lemma_compact_source(marks, blocks, n - 1, k)
    } else {
        n - 1
    }
}

/// What follows a reachable block is reachable.
pub proof fn lemma_reachable_step(f: FuncView, a: BlockId, b: BlockId)
    requires
        f.wf(),
        f.has_block(a),
        cfg::reachable(f, a),
        cfg::edge(f, a, b),
    ensures
        f.has_block(b),
        cfg::reachable(f, b),
{
    query::lemma_terminator_wf(f, a);
    let g = cfg::succ_lists(f);
    let path = cfg::path_of(g, f.entry, a, None);
    let longer = path.push(b);
    assert(f.has_block(b)) by {
        let k = choose|k: int|
            0 <= k < cfg::succ_list(f.terminator(a)).len() && cfg::succ_list(f.terminator(a))[k]
                == b;
    }
    assert(cfg::walk(g, longer, f.entry, b, None)) by {
        assert forall|k: int| 0 <= k < longer.len() - 1 implies g[(
        #[trigger] longer[k]).0 as int].contains(longer[k + 1]) by {
            if k < path.len() - 1 {
                assert(longer[k] == path[k]);
                assert(longer[k + 1] == path[k + 1]);
            } else {
                assert(longer[k] == a);
                assert(longer[k + 1] == b);
            }
        }
    }
}

/// The entry is reachable.
pub proof fn lemma_entry_reachable(f: FuncView)
    requires
        f.wf(),
    ensures
        cfg::reachable(f, f.entry),
{
    assert(cfg::walk(cfg::succ_lists(f), seq![f.entry], f.entry, f.entry, None));
}

pub proof fn lemma_terminator_live(f: FuncView, b: BlockId)
    requires
        f.wf(),
        f.has_block(b),
        cfg::reachable(f, b),
    ensures
        match f.terminator(b) {
            Some(Terminator::Jump(t)) => f.has_block(t) && cfg::reachable(f, t),
            Some(Terminator::Branch { cond: _, then_target, else_target }) => f.has_block(
                then_target,
            ) && f.has_block(else_target) && cfg::reachable(f, then_target) && cfg::reachable(
                f,
                else_target,
            ),
            _ => true,
        },
{
    let list = cfg::succ_list(f.terminator(b));
    match f.terminator(b) {
        Some(Terminator::Jump(t)) => {
            assert(list[0] == t);
            lemma_reachable_step(f, b, t);
        },
        Some(Terminator::Branch { cond: _, then_target, else_target }) => {
            assert(list[0] == then_target);
            lemma_reachable_step(f, b, then_target);
            if then_target != else_target {
                assert(list[1] == else_target);
                lemma_reachable_step(f, b, else_target);
            }
        },
        _ => {},
    }
}

proof fn lemma_compact_incomings_wf(
    marks: Seq<bool>,
    incomings: Seq<(BlockId, ValueId)>,
    nv: nat,
)
    requires
        edit::incomings_wf(incomings, marks.len(), nv),
        marks.len() <= usize::MAX,
    ensures
        edit::incomings_wf(
            compact_incomings(marks, incomings),
            rank(marks, marks.len() as int),
            nv,
        ),
{
    let kept = incomings.filter(is_marked(marks));
    let list = compact_incomings(marks, incomings);
    assert forall|k: int| 0 <= k < list.len() implies (#[trigger] list[k]).0.0 < rank(
        marks,
        marks.len() as int,
    ) && list[k].1.0 < nv by {
        incomings.lemma_filter_pred(is_marked(marks), k);
        incomings.lemma_filter_contains_rev(is_marked(marks), kept[k]);
        let i = choose|i: int| 0 <= i < incomings.len() && incomings[i] == kept[k];
        assert(incomings[i].0.0 < marks.len());
        lemma_rank_monotone(marks, incomings[i].0.0 as int, marks.len() as int);
        lemma_rank_monotone(marks, 0, marks.len() as int);
    }
}

/// Removing the unreachable blocks keeps every id in range.
pub proof fn lemma_compacted_wf(f: FuncView)
    requires
        f.wf(),
        f.blocks.len() <= usize::MAX,
    ensures
        compacted(f, live(f)).wf(),
{
    let marks = live(f);
    let n = f.blocks.len() as int;
    let nv = f.values.len();
    let g = compacted(f, marks);
    lemma_compact_blocks(marks, f.blocks, n);
    lemma_entry_reachable(f);
    lemma_rank_monotone(marks, 0, n);
    lemma_rank_monotone(marks, f.entry.0 as int, n);
    let nb = g.blocks.len();
    assert(nb == rank(marks, n));
    assert forall|k: int| 0 <= k < nb implies edit::block_wf(#[trigger] g.blocks[k], nb, nv) by {
        let b = lemma_compact_source(marks, f.blocks, n, k);
        let id = BlockId(b as usize);
        let block = f.blocks[b];
        assert(g.blocks[rank(marks, b) as int] == compact_block(marks, block));
        query::lemma_terminator_wf(f, id);
        assert forall|i: int| 0 <= i < g.blocks[k].insts.len() implies edit::inst_wf(
            #[trigger] g.blocks[k].insts[i],
            nb,
            nv,
        ) by {
            assert(edit::inst_wf(block.insts[i], f.blocks.len(), nv));
            if let KindView::Phi { incomings } = block.insts[i].kind {
                lemma_compact_incomings_wf(marks, incomings, nv);
            }
        }
        lemma_terminator_live(f, id);
        match block.terminator {
            Some(Terminator::Jump(t)) => {
                lemma_rank_monotone(marks, t.0 as int, n);
            },
            Some(Terminator::Branch { cond: _, then_target, else_target }) => {
                lemma_rank_monotone(marks, then_target.0 as int, n);
                lemma_rank_monotone(marks, else_target.0 as int, n);
            },
            _ => {},
        }
    }
    assert forall|v: int| 0 <= v < nv implies edit::value_wf(#[trigger] g.values[v], nb) by {
        assert(edit::value_wf(f.values[v], f.blocks.len()));
        if let ValueKindView::Inst(owner, _) = f.values[v].kind {
            lemma_rank_monotone(marks, owner.0 as int, n);
        }
    }
}

// ---------------------------------------------------------------------------
// Laws
// ---------------------------------------------------------------------------

/// Every block on a walk from the entry is reachable.
proof fn lemma_walk_reachable(f: FuncView, path: Seq<BlockId>, b: BlockId, k: int)
    requires
        cfg::walk(cfg::succ_lists(f), path, f.entry, b, None),
        0 <= k < path.len(),
    ensures
        cfg::reachable(f, path[k]),
        path[k].0 < f.blocks.len(),
{
    let graph = cfg::succ_lists(f);
    let part = path.take(k + 1);
    assert forall|j: int| 0 <= j < part.len() - 1 implies graph[(
    #[trigger] part[j]).0 as int].contains(part[j + 1]) by {
        assert(part[j] == path[j]);
        assert(part[j + 1] == path[j + 1]);
    }
    assert(cfg::walk(graph, part, f.entry, path[k], None));
}

/// An edge between reachable blocks is kept.
proof fn lemma_edge_renumbered(f: FuncView, a: BlockId, c: BlockId)
    requires
        f.wf(),
        f.blocks.len() <= usize::MAX,
        f.has_block(a),
        cfg::reachable(f, a),
        cfg::edge(f, a, c),
    ensures
        renumbered(live(f), a).0 < compacted(f, live(f)).blocks.len(),
        cfg::succ_lists(compacted(f, live(f)))[renumbered(live(f), a).0 as int].contains(
            renumbered(live(f), c),
        ),
{
    let marks = live(f);
    let n = f.blocks.len() as int;
    let g = compacted(f, marks);
    lemma_compact_blocks(marks, f.blocks, n);
    lemma_rank_monotone(marks, 0, n);
    lemma_rank_monotone(marks, a.0 as int, n);
    assert(marks[a.0 as int]);
    assert(g.blocks[rank(marks, a.0 as int) as int] == compact_block(marks, f.blocks[a.0 as int]));
    let list = cfg::succ_list(compact_terminator(marks, f.terminator(a)));
    assert(cfg::succ_lists(g)[renumbered(marks, a).0 as int] == list);
    match f.terminator(a) {
        Some(Terminator::Jump(t)) => {
            assert(list[0] == renumbered(marks, t));
        },
        Some(Terminator::Branch { cond: _, then_target, else_target }) => {
            assert(list[0] == renumbered(marks, then_target));
            if renumbered(marks, then_target) != renumbered(marks, else_target) {
                assert(list[1] == renumbered(marks, else_target));
            }
        },
        _ => {},
    }
}

/// The image of a walk from the entry under the renumbering.
proof fn lemma_walk_renumbered(f: FuncView, path: Seq<BlockId>, b: BlockId)
    requires
        f.wf(),
        f.blocks.len() <= usize::MAX,
        cfg::walk(cfg::succ_lists(f), path, f.entry, b, None),
    ensures
        cfg::reachable(compacted(f, live(f)), renumbered(live(f), b)),
{
    let marks = live(f);
    let n = f.blocks.len() as int;
    let g = compacted(f, marks);
    let image = path.map_values(|x: BlockId| renumbered(marks, x));
    assert forall|k: int| 0 <= k < image.len() implies (#[trigger] image[k]).0
        < cfg::succ_lists(g).len() by {
        lemma_walk_reachable(f, path, b, k);
        lemma_compact_blocks(marks, f.blocks, n);
        lemma_rank_monotone(marks, 0, n);
        lemma_rank_monotone(marks, path[k].0 as int, n);
        assert(marks[path[k].0 as int]);
    }
    assert forall|k: int| 0 <= k < image.len() - 1 implies cfg::succ_lists(g)[(
    #[trigger] image[k]).0 as int].contains(image[k + 1]) by {
        lemma_walk_reachable(f, path, b, k);
        assert(cfg::succ_lists(f)[path[k].0 as int].contains(path[k + 1]));
        lemma_edge_renumbered(f, path[k], path[k + 1]);
    }
    assert(cfg::walk(cfg::succ_lists(g), image, g.entry, renumbered(marks, b), None));
}

/// After the removal, every block that is left can be reached.
pub proof fn removal_leaves_only_reachable_blocks(f: FuncView)
    requires
        f.wf(),
        f.blocks.len() <= usize::MAX,
    ensures
        all_marked(live(remove_step(f).0)),
{
    let marks = live(f);
    if !all_marked(marks) {
        let g = compacted(f, marks);
        let n = f.blocks.len() as int;
        lemma_compact_blocks(marks, f.blocks, n);
        lemma_rank_monotone(marks, 0, n);
        assert forall|k: int| 0 <= k < live(g).len() implies #[trigger] live(g)[k] by {
            let b = lemma_compact_source(marks, f.blocks, n, k);
            let path = cfg::path_of(cfg::succ_lists(f), f.entry, BlockId(b as usize), None);
            lemma_walk_renumbered(f, path, BlockId(b as usize));
        }
    }
}

/// Removing the unreachable blocks a second time changes nothing.
pub proof fn removal_is_idempotent(f: FuncView)
    requires
        f.wf(),
        f.blocks.len() <= usize::MAX,
    ensures
        remove_step(remove_step(f).0) == (remove_step(f).0, false),
{
    removal_leaves_only_reachable_blocks(f);
}

// ---------------------------------------------------------------------------
// Executable removal
// ---------------------------------------------------------------------------

/// The new number of every block, counting the marked ones only.
pub fn ranks(marks: &Vec<bool>) -> (r: Vec<usize>)
    ensures
        r.len() == marks.len(),
        forall|b: int| 0 <= b < r.len() ==> #[trigger] r@[b] == rank(marks@, b),
{
    let mut r: Vec<usize> = Vec::new();
    let mut next: usize = 0;
    let n = marks.len();
    for b in 0..n
        invariant
            n == marks.len(),
            r.len() == b,
            next == rank(marks@, b as int),
            next <= b,
            forall|k: int| 0 <= k < b ==> #[trigger] r@[k] == rank(marks@, k),
    {
        r.push(next);
        if marks[b] {
            next = next + 1;
        }
    }
    r
}

fn renumber(numbers: &Vec<usize>, b: BlockId, Ghost(marks): Ghost<Seq<bool>>) -> (r: BlockId)
    requires
        b.0 < numbers.len(),
        forall|k: int| 0 <= k < numbers.len() ==> #[trigger] numbers@[k] == rank(marks, k),
    ensures
        r == renumbered(marks, b),
{
    BlockId(numbers[b.0])
}

fn compact_list(incomings: &Vec<(BlockId, ValueId)>, marks: &Vec<bool>, numbers: &Vec<usize>) -> (r:
    Vec<(BlockId, ValueId)>)
    requires
        numbers.len() == marks.len(),
        forall|k: int| 0 <= k < numbers.len() ==> #[trigger] numbers@[k] == rank(marks@, k),
        forall|k: int| 0 <= k < incomings.len() ==> (#[trigger] incomings@[k]).0.0 < marks.len(),
    ensures
        r@ == compact_incomings(marks@, incomings@),
{
    let ghost keep = is_marked(marks@);
    let ghost shift = |inc: (BlockId, ValueId)| (renumbered(marks@, inc.0), inc.1);
    let mut r: Vec<(BlockId, ValueId)> = Vec::new();
    let n = incomings.len();
    proof {
        reveal(Seq::filter);
        assert(incomings@.take(0).filter(keep).map_values(shift) =~= Seq::<
            (BlockId, ValueId),
        >::empty());
    }
    for i in 0..n
        invariant
            n == incomings.len(),
            keep == is_marked(marks@),
            shift == (|inc: (BlockId, ValueId)| (renumbered(marks@, inc.0), inc.1)),
            numbers.len() == marks.len(),
            forall|k: int| 0 <= k < numbers.len() ==> #[trigger] numbers@[k] == rank(marks@, k),
            forall|k: int|
                0 <= k < incomings.len() ==> (#[trigger] incomings@[k]).0.0 < marks.len(),
            r@ == incomings@.take(i as int).filter(keep).map_values(shift),
    {
        proof {
            reveal(Seq::filter);
            assert(incomings@.take(i + 1).drop_last() =~= incomings@.take(i as int));
            assert(incomings@.take(i + 1).last() == incomings@[i as int]);
        }
        let ghost before = incomings@.take(i as int).filter(keep);
        let (pred, value) = (incomings[i].0, incomings[i].1);
        assert(incomings@[i as int].0.0 < marks.len());
        if marks[pred.0] {
            r.push((renumber(numbers, pred, Ghost(marks@)), value));
            assert(before.push(incomings@[i as int]).map_values(shift) =~= before.map_values(
                shift,
            ).push(shift(incomings@[i as int])));
        }
    }
    assert(incomings@.take(n as int) =~= incomings@);
    assert(r@ =~= compact_incomings(marks@, incomings@));
    r
}

fn compact_insts(block: &Block, marks: &Vec<bool>, numbers: &Vec<usize>, Ghost(nv): Ghost<nat>) -> (r:
    Vec<Inst>)
    requires
        numbers.len() == marks.len(),
        forall|k: int| 0 <= k < numbers.len() ==> #[trigger] numbers@[k] == rank(marks@, k),
        edit::insts_wf(block@.insts, marks.len() as nat, nv),
    ensures
        ir::insts_view(r@) == compact_block(marks@, block@).insts,
{
    let ghost want = compact_block(marks@, block@).insts;
    let mut insts: Vec<Inst> = Vec::new();
    let n = block.insts.len();
    for i in 0..n
        invariant
            n == block.insts.len(),
            want == compact_block(marks@, block@).insts,
            numbers.len() == marks.len(),
            forall|k: int| 0 <= k < numbers.len() ==> #[trigger] numbers@[k] == rank(marks@, k),
            edit::insts_wf(block@.insts, marks.len() as nat, nv),
            insts.len() == i,
            forall|j: int| 0 <= j < i ==> #[trigger] insts@[j]@ == want[j],
    {
        let inst = &block.insts[i];
        assert(inst@ == block@.insts[i as int]);
        assert(edit::inst_wf(block@.insts[i as int], marks.len() as nat, nv));
        match &inst.kind {
            InstKind::Phi { incomings } => {
                insts.push(
                    Inst {
                        result: inst.result,
                        kind: InstKind::Phi { incomings: compact_list(incomings, marks, numbers) },
                    },
                );
            },
            _ => {
                insts.push(inst.clone());
            },
        }
    }
    assert(ir::insts_view(insts@) =~= want);
    insts
}

/// Marks the blocks that can be reached from the entry.
pub fn reachable_blocks(func: &Function) -> (r: Vec<bool>)
    requires
        func@.wf(),
    ensures
        r@ == live(func@),
{
    let succs = successor_lists(func);
    proof {
        cfg::lemma_graph_wf(func@);
        assert(cfg::lists_view(succs@).len() == succs.len());
    }
    let marks = reach_from(&succs, func.entry, None);
    assert(marks@ =~= live(func@));
    marks
}

/// Removes the blocks that control cannot reach and renumbers the others.
#[verifier::loop_isolation(false)]
pub fn remove_unreachable_blocks(func: &mut Function) -> (r: bool)
    requires
        old(func)@.wf(),
    ensures
        (final(func)@, r) == remove_step(old(func)@),
        final(func)@.wf(),
{
    let ghost f = func@;
    let n = func.blocks.len();
    let nv = func.values.len();
    let marks = reachable_blocks(func);
    let mut every = true;
    for b in 0..n
        invariant
            every == (forall|k: int| 0 <= k < b ==> #[trigger] live(f)[k]),
    {
        if !marks[b] {
            assert(!live(f)[b as int]);
            every = false;
        }
    }
    if every {
        return false;
    }
    assert(!all_marked(live(f)));
    proof {
        assert(func.blocks.len() == func@.blocks.len());
        lemma_compacted_wf(f);
        lemma_entry_reachable(f);
    }
    let numbers = ranks(&marks);
    let mut blocks: Vec<Block> = Vec::new();
    for b in 0..n
        invariant
            func@ == f,
            n == func.blocks.len(),
            ir::blocks_view(blocks@) == compact_blocks(marks@, f.blocks, b as int),
    {
        if marks[b] {
            let id = BlockId(b);
            proof {
                query::lemma_terminator_wf(f, id);
                lemma_terminator_live(f, id);
            }
            let block = &func.blocks[b];
            assert(block@ == f.blocks[b as int]);
            let insts = compact_insts(block, &marks, &numbers, Ghost(f.values.len()));
            let terminator = match block.terminator {
                Some(Terminator::Jump(target)) => Some(
                    Terminator::Jump(renumber(&numbers, target, Ghost(marks@))),
                ),
                Some(Terminator::Branch { cond, then_target, else_target }) => Some(
                    Terminator::Branch {
                        cond,
                        then_target: renumber(&numbers, then_target, Ghost(marks@)),
                        else_target: renumber(&numbers, else_target, Ghost(marks@)),
                    },
                ),
                t => t,
            };
            let ghost before = ir::blocks_view(blocks@);
            blocks.push(Block { name: block.name.clone(), insts, terminator });
            assert(ir::blocks_view(blocks@) =~= before.push(
                compact_block(marks@, f.blocks[b as int]),
            ));
        }
    }
    let mut values: Vec<Value> = Vec::new();
    for v in 0..nv
        invariant
            func@ == f,
            nv == func.values.len(),
            values.len() == v,
            forall|k: int|
                0 <= k < v ==> #[trigger] values@[k]@ == compact_value(marks@, f.values[k]),
    {
        let value = func.values[v].clone();
        assert(value@ == f.values[v as int]);
        assert(edit::value_wf(f.values[v as int], f.blocks.len()));
        match value.kind {
            ValueKind::Inst(owner, at) => {
                if marks[owner.0] {
                    values.push(
                        Value {
                            name: value.name,
                            ty: value.ty,
                            kind: ValueKind::Inst(renumber(&numbers, owner, Ghost(marks@)), at),
                        },
                    );
                } else {
                    let zero = Const::Zero(value.ty.clone());
                    values.push(
                        Value { name: value.name, ty: value.ty, kind: ValueKind::Const(zero) },
                    );
                }
            },
            _ => {
                values.push(value);
            },
        }
    }
    let entry = renumber(&numbers, func.entry, Ghost(marks@));
    func.blocks = blocks;
    func.values = values;
    func.entry = entry;
    assert(func@.values =~= compacted(f, live(f)).values);
    true
}

} // verus!
